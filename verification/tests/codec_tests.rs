use todo_store::store::TaskStore;

#[test]
fn empty_list_is_bare_brackets() {
    let s = TaskStore::new();
    assert_eq!(s.persisted(), "[]");
}

#[test]
fn pretty_format_is_exact() {
    let mut s = TaskStore::new();
    s.add_at("Buy milk".to_string(), true, "2024-01-01 09:00:00 +07".to_string());
    let expected = "[\n  {\n    \"todo\": \"Buy milk\",\n    \"isdone\": false,\n    \"ispriority\": true,\n    \"created_at\": \"2024-01-01 09:00:00 +07\",\n    \"updated_at\": \"\"\n  }\n]";
    assert_eq!(s.persisted(), expected);
}

#[test]
fn matches_serde_json_pretty_printer() {
    let mut s = TaskStore::new();
    s.add_at("Buy milk".to_string(), true, "2024-01-01 09:00:00 +07".to_string());
    s.add_at("Walk the dog".to_string(), false, "2024-01-01 10:30:00 +07".to_string());
    s.update_at(1, true, "2024-01-01 11:00:00 +07".to_string());

    let mut arr: Vec<serde_json::Value> = Vec::new();
    for t in s.get_todos() {
        let mut obj = serde_json::Map::new();
        obj.insert("todo".to_string(), serde_json::Value::String(t.todo.clone()));
        obj.insert("isdone".to_string(), serde_json::Value::Bool(t.isdone));
        obj.insert("ispriority".to_string(), serde_json::Value::Bool(t.ispriority));
        obj.insert("created_at".to_string(), serde_json::Value::String(t.created_at.clone()));
        obj.insert("updated_at".to_string(), serde_json::Value::String(t.updated_at.clone()));
        arr.push(serde_json::Value::Object(obj));
    }
    let expected = serde_json::to_string_pretty(&serde_json::Value::Array(arr)).unwrap();
    assert_eq!(s.persisted(), expected);
}

#[test]
fn serde_json_reads_our_output() {
    let mut s = TaskStore::new();
    s.add_at("a \"quoted\" one".to_string(), false, "2024-02-02 00:00:00 +07".to_string());
    let text = s.persisted();
    let v: serde_json::Value = serde_json::from_str(&text).unwrap();
    let arr = v.as_array().unwrap();
    assert_eq!(arr.len(), 1);
    assert_eq!(arr[0]["todo"].as_str().unwrap(), "a \"quoted\" one");
    assert_eq!(arr[0]["isdone"].as_bool().unwrap(), false);
    assert_eq!(arr[0]["created_at"].as_str().unwrap(), "2024-02-02 00:00:00 +07");
}

#[test]
fn reads_compact_json() {
    let text = "[{\"todo\":\"a\",\"isdone\":true,\"ispriority\":false,\"created_at\":\"x\",\"updated_at\":\"y\"}]";
    let s = TaskStore::from_persisted(text);
    let list = s.get_todos();
    assert_eq!(list.len(), 1);
    assert_eq!(list[0].todo, "a");
    assert!(list[0].isdone);
    assert!(!list[0].ispriority);
    assert_eq!(list[0].created_at, "x");
    assert_eq!(list[0].updated_at, "y");
}

#[test]
fn escapes_round_trip() {
    let tricky = "line1\nline2\t\"quoted\" back\\slash \u{1} bell\u{7} caf\u{e9} \u{65e5}\u{672c}";
    let mut s = TaskStore::new();
    s.add_at(tricky.to_string(), false, "2024-01-01 00:00:00 +07".to_string());
    let text = s.persisted();
    assert!(text.contains("\\n"));
    assert!(text.contains("\\t"));
    assert!(text.contains("\\\""));
    assert!(text.contains("\\\\"));
    assert!(text.contains("\\u0001"));
    assert!(text.contains("\\u0007"));
    assert!(text.contains("caf\u{e9}"));
    let reloaded = TaskStore::from_persisted(&text);
    assert_eq!(reloaded.get_todos()[0].todo, tricky);
    let via_serde: serde_json::Value = serde_json::from_str(&text).unwrap();
    assert_eq!(via_serde[0]["todo"].as_str().unwrap(), tricky);
}

#[test]
fn unicode_escapes_decode() {
    let text = "[{\"todo\":\"a\\u0007b\\u001fc\",\"isdone\":false,\"ispriority\":false,\"created_at\":\"\",\"updated_at\":\"\"}]";
    let s = TaskStore::from_persisted(text);
    assert_eq!(s.get_todos()[0].todo, "a\u{7}b\u{1f}c");
}

#[test]
fn short_escapes_decode() {
    let text = "[{\"todo\":\"a\\\"b\\\\c\\/d\\ne\\rf\\tg\\bh\\fi\",\"isdone\":false,\"ispriority\":false,\"created_at\":\"\",\"updated_at\":\"\"}]";
    let s = TaskStore::from_persisted(text);
    assert_eq!(s.get_todos()[0].todo, "a\"b\\c/d\ne\rf\tg\u{8}h\u{c}i");
}

#[test]
fn whitespace_between_tokens_is_accepted() {
    let s = TaskStore::from_persisted("  [ ]  ");
    assert_eq!(s.get_todos().len(), 0);
    let text = " [ { \"todo\" : \"a\" , \"isdone\" : false , \"ispriority\" : true , \"created_at\" : \"c\" , \"updated_at\" : \"u\" } ] ";
    let s2 = TaskStore::from_persisted(text);
    let list = s2.get_todos();
    assert_eq!(list.len(), 1);
    assert_eq!(list[0].todo, "a");
    assert!(list[0].ispriority);
}

#[test]
fn malformed_text_loads_empty() {
    assert_eq!(TaskStore::from_persisted("").get_todos().len(), 0);
    assert_eq!(TaskStore::from_persisted("not json").get_todos().len(), 0);
    assert_eq!(TaskStore::from_persisted("{}").get_todos().len(), 0);
    assert_eq!(TaskStore::from_persisted("[").get_todos().len(), 0);
    assert_eq!(TaskStore::from_persisted("[{}]").get_todos().len(), 0);
    assert_eq!(TaskStore::from_persisted("[{\"bad\":1}]").get_todos().len(), 0);
    assert_eq!(TaskStore::from_persisted("[] trailing").get_todos().len(), 0);
}

#[test]
fn wrong_field_order_is_rejected() {
    let text = "[{\"isdone\":false,\"todo\":\"a\",\"ispriority\":false,\"created_at\":\"\",\"updated_at\":\"\"}]";
    assert_eq!(TaskStore::from_persisted(text).get_todos().len(), 0);
}

#[test]
fn two_tasks_pretty_layout() {
    let mut s = TaskStore::new();
    s.add_at("a".to_string(), false, "c1".to_string());
    s.add_at("b".to_string(), true, "c2".to_string());
    let expected = "[\n  {\n    \"todo\": \"a\",\n    \"isdone\": false,\n    \"ispriority\": false,\n    \"created_at\": \"c1\",\n    \"updated_at\": \"\"\n  },\n  {\n    \"todo\": \"b\",\n    \"isdone\": false,\n    \"ispriority\": true,\n    \"created_at\": \"c2\",\n    \"updated_at\": \"\"\n  }\n]";
    assert_eq!(s.persisted(), expected);
}

//! The persistence format: a pretty-printed JSON array of task objects with
//! the fixed field order `todo`, `isdone`, `ispriority`, `created_at`,
//! `updated_at`. The serializer is exact about every character it emits; the
//! parser accepts the serializer's output (and is lenient about whitespace
//! between tokens), and parsing a serialized list gives the list back.

use vstd::prelude::*;
use vstd::string::StrSliceExecFns;
use vstd::string::StringExecFns;

use crate::task::Task;
use crate::task::TaskView;

verus! {

// ---------------------------------------------------------------------------
// Characters and escaping
// ---------------------------------------------------------------------------

/// The character with Unicode scalar value `v`.
pub open spec fn char_of(v: int) -> char {
    (v as u32) as char
}

/// Lower-case hexadecimal digit for `n` in `0..16`.
pub open spec fn hex_digit(n: int) -> char
    recommends
        0 <= n < 16,
{
    if n < 10 {
        char_of(48 + n)
    } else {
        char_of(87 + n)
    }
}

/// Value of a hexadecimal digit, upper or lower case; `-1` if `c` is none.
pub open spec fn hex_val(c: char) -> int {
    let u = (c as u32) as int;
    if 48 <= u && u <= 57 {
        u - 48
    } else if 97 <= u && u <= 102 {
        u - 87
    } else if 65 <= u && u <= 70 {
        u - 55
    } else {
        -1
    }
}

/// JSON escape of one character: quote and backslash get a backslash, control
/// characters get their short escape or `\u00..`, everything else stands as is.
pub open spec fn esc_char(c: char) -> Seq<char> {
    if c == '"' {
        seq!['\\', '"']
    } else if c == '\\' {
        seq!['\\', '\\']
    } else if c == '\u{8}' {
        seq!['\\', 'b']
    } else if c == '\t' {
        seq!['\\', 't']
    } else if c == '\n' {
        seq!['\\', 'n']
    } else if c == '\u{c}' {
        seq!['\\', 'f']
    } else if c == '\r' {
        seq!['\\', 'r']
    } else if (c as u32) < 32 {
        seq!['\\', 'u', '0', '0', hex_digit((c as u32) as int / 16), hex_digit((c as u32) as int % 16)]
    } else {
        seq![c]
    }
}

/// JSON escape of a whole string, character by character.
pub open spec fn esc_str(s: Seq<char>) -> Seq<char>
    decreases s.len(),
{
    if s.len() == 0 {
        Seq::empty()
    } else {
        esc_char(s[0]) + esc_str(s.drop_first())
    }
}

/// A JSON string literal: the escaped text between two quotes.
pub open spec fn ser_string(s: Seq<char>) -> Seq<char> {
    seq!['"'] + esc_str(s) + seq!['"']
}

/// A JSON boolean literal.
pub open spec fn ser_bool(b: bool) -> Seq<char> {
    if b {
        seq!['t', 'r', 'u', 'e']
    } else {
        seq!['f', 'a', 'l', 's', 'e']
    }
}

// ---------------------------------------------------------------------------
// The pretty-printed layout
// ---------------------------------------------------------------------------

/// `[` and the newline that opens a non-empty array.
pub open spec fn arr_open() -> Seq<char> {
    seq!['[', '\n']
}

/// The newline and `]` that close a non-empty array.
pub open spec fn arr_close() -> Seq<char> {
    seq!['\n', ']']
}

/// The indented `{` that opens one task object.
pub open spec fn obj_open() -> Seq<char> {
    seq![' ', ' ', '{', '\n']
}

/// The newline and indented `}` that close one task object.
pub open spec fn obj_close() -> Seq<char> {
    seq!['\n', ' ', ' ', '}']
}

/// The separator between two fields and between two array elements.
pub open spec fn comma_nl() -> Seq<char> {
    seq![',', '\n']
}

/// The indented `"todo": ` field prefix.
pub open spec fn key_todo() -> Seq<char> {
    seq![' ', ' ', ' ', ' ', '"', 't', 'o', 'd', 'o', '"', ':', ' ']
}

/// The indented `"isdone": ` field prefix.
pub open spec fn key_isdone() -> Seq<char> {
    seq![' ', ' ', ' ', ' ', '"', 'i', 's', 'd', 'o', 'n', 'e', '"', ':', ' ']
}

/// The indented `"ispriority": ` field prefix.
pub open spec fn key_ispriority() -> Seq<char> {
    seq![' ', ' ', ' ', ' ', '"', 'i', 's', 'p', 'r', 'i', 'o', 'r', 'i', 't', 'y', '"', ':', ' ']
}

/// The indented `"created_at": ` field prefix.
pub open spec fn key_created_at() -> Seq<char> {
    seq![' ', ' ', ' ', ' ', '"', 'c', 'r', 'e', 'a', 't', 'e', 'd', '_', 'a', 't', '"', ':', ' ']
}

/// The indented `"updated_at": ` field prefix.
pub open spec fn key_updated_at() -> Seq<char> {
    seq![' ', ' ', ' ', ' ', '"', 'u', 'p', 'd', 'a', 't', 'e', 'd', '_', 'a', 't', '"', ':', ' ']
}

/// One task object, pretty-printed at array depth.
pub open spec fn ser_task(t: TaskView) -> Seq<char> {
    obj_open() + key_todo() + ser_string(t.todo) + comma_nl() + key_isdone() + ser_bool(t.isdone)
        + comma_nl() + key_ispriority() + ser_bool(t.ispriority) + comma_nl() + key_created_at()
        + ser_string(t.created_at) + comma_nl() + key_updated_at() + ser_string(t.updated_at)
        + obj_close()
}

/// The second and later array elements, each preceded by the separator.
pub open spec fn ser_tasks_rest(ts: Seq<TaskView>) -> Seq<char>
    decreases ts.len(),
{
    if ts.len() == 0 {
        Seq::empty()
    } else {
        comma_nl() + ser_task(ts[0]) + ser_tasks_rest(ts.drop_first())
    }
}

/// The whole persisted file: `[]` for an empty list, otherwise the
/// pretty-printed array of task objects.
pub open spec fn ser_tasks(ts: Seq<TaskView>) -> Seq<char> {
    if ts.len() == 0 {
        seq!['[', ']']
    } else {
        arr_open() + ser_task(ts[0]) + ser_tasks_rest(ts.drop_first()) + arr_close()
    }
}

// ---------------------------------------------------------------------------
// The parser, as a mathematical function over positions in the input
// ---------------------------------------------------------------------------

/// JSON whitespace.
pub open spec fn is_ws(c: char) -> bool {
    c == ' ' || c == '\n' || c == '\r' || c == '\t'
}

/// First position at or after `pos` that holds no whitespace.
pub open spec fn skip_ws(s: Seq<char>, pos: int) -> int
    decreases s.len() - pos,
{
    if 0 <= pos && pos < s.len() && is_ws(s[pos]) {
        skip_ws(s, pos + 1)
    } else {
        pos
    }
}

/// `pat` stands letter for letter at `pos` in `s`.
pub open spec fn starts_with_at(s: Seq<char>, pos: int, pat: Seq<char>) -> bool {
    0 <= pos && pos + pat.len() <= s.len() && s.subrange(pos, pos + pat.len()) == pat
}

/// Consumes whitespace and then the token `pat`; the position after it.
pub open spec fn tok(s: Seq<char>, pos: int, pat: Seq<char>) -> Option<int> {
    let p = skip_ws(s, pos);
    if starts_with_at(s, p, pat) {
        Some(p + pat.len())
    } else {
        None
    }
}

/// The character a short escape stands for, if `e` is one.
pub open spec fn unesc_short(e: char) -> Option<char> {
    if e == '"' {
        Some('"')
    } else if e == '\\' {
        Some('\\')
    } else if e == '/' {
        Some('/')
    } else if e == 'b' {
        Some('\u{8}')
    } else if e == 'f' {
        Some('\u{c}')
    } else if e == 'n' {
        Some('\n')
    } else if e == 'r' {
        Some('\r')
    } else if e == 't' {
        Some('\t')
    } else {
        None
    }
}

/// The rest of a JSON string, entered just after its opening quote: the
/// decoded text and the position after the closing quote. `\u` escapes are
/// accepted for control characters, the only ones the serializer emits them
/// for.
pub open spec fn parse_string_body(s: Seq<char>, pos: int) -> Option<(Seq<char>, int)>
    decreases s.len() - pos,
{
    if pos < 0 || pos >= s.len() {
        None
    } else if s[pos] == '"' {
        Some((Seq::empty(), pos + 1))
    } else if s[pos] == '\\' {
        if pos + 1 >= s.len() {
            None
        } else if s[pos + 1] == 'u' {
            if pos + 6 > s.len() {
                None
            } else {
                let v = hex_val(s[pos + 2]) * 4096 + hex_val(s[pos + 3]) * 256 + hex_val(
                    s[pos + 4],
                ) * 16 + hex_val(s[pos + 5]);
                if hex_val(s[pos + 2]) < 0 || hex_val(s[pos + 3]) < 0 || hex_val(s[pos + 4]) < 0
                    || hex_val(s[pos + 5]) < 0 || v >= 32 {
                    None
                } else {
                    match parse_string_body(s, pos + 6) {
                        Some((rest, p)) => Some((seq![char_of(v)] + rest, p)),
                        None => None,
                    }
                }
            }
        } else {
            match unesc_short(s[pos + 1]) {
                Some(c) => match parse_string_body(s, pos + 2) {
                    Some((rest, p)) => Some((seq![c] + rest, p)),
                    None => None,
                },
                None => None,
            }
        }
    } else {
        match parse_string_body(s, pos + 1) {
            Some((rest, p)) => Some((seq![s[pos]] + rest, p)),
            None => None,
        }
    }
}

/// The quoted key `name` (without indentation).
pub open spec fn quoted(name: Seq<char>) -> Seq<char> {
    seq!['"'] + name + seq!['"']
}

/// A `"key": "string"` field: the key token, a colon, a string.
#[verifier::opaque]
pub open spec fn parse_field_string(s: Seq<char>, pos: int, name: Seq<char>) -> Option<
    (Seq<char>, int),
> {
    match tok(s, pos, quoted(name)) {
        Some(p1) => match tok(s, p1, seq![':']) {
            Some(p2) => match tok(s, p2, seq!['"']) {
                Some(p3) => parse_string_body(s, p3),
                None => None,
            },
            None => None,
        },
        None => None,
    }
}

/// A `"key": true|false` field.
#[verifier::opaque]
pub open spec fn parse_field_bool(s: Seq<char>, pos: int, name: Seq<char>) -> Option<(bool, int)> {
    match tok(s, pos, quoted(name)) {
        Some(p1) => match tok(s, p1, seq![':']) {
            Some(p2) => match tok(s, p2, seq!['t', 'r', 'u', 'e']) {
                Some(p3) => Some((true, p3)),
                None => match tok(s, p2, seq!['f', 'a', 'l', 's', 'e']) {
                    Some(p3) => Some((false, p3)),
                    None => None,
                },
            },
            None => None,
        },
        None => None,
    }
}

/// The bare name of each key.
pub open spec fn name_todo() -> Seq<char> {
    seq!['t', 'o', 'd', 'o']
}

pub open spec fn name_isdone() -> Seq<char> {
    seq!['i', 's', 'd', 'o', 'n', 'e']
}

pub open spec fn name_ispriority() -> Seq<char> {
    seq!['i', 's', 'p', 'r', 'i', 'o', 'r', 'i', 't', 'y']
}

pub open spec fn name_created_at() -> Seq<char> {
    seq!['c', 'r', 'e', 'a', 't', 'e', 'd', '_', 'a', 't']
}

pub open spec fn name_updated_at() -> Seq<char> {
    seq!['u', 'p', 'd', 'a', 't', 'e', 'd', '_', 'a', 't']
}

/// One task object: the five fields, in their fixed order, between braces.
#[verifier::opaque]
pub open spec fn parse_task(s: Seq<char>, pos: int) -> Option<(TaskView, int)> {
    match tok(s, pos, seq!['{']) {
        Some(p0) => match parse_field_string(s, p0, name_todo()) {
            Some((todo, p1)) => match tok(s, p1, seq![',']) {
                Some(p1c) => match parse_field_bool(s, p1c, name_isdone()) {
                    Some((isdone, p2)) => match tok(s, p2, seq![',']) {
                        Some(p2c) => match parse_field_bool(s, p2c, name_ispriority()) {
                            Some((ispriority, p3)) => match tok(s, p3, seq![',']) {
                                Some(p3c) => match parse_field_string(
                                    s,
                                    p3c,
                                    name_created_at(),
                                ) {
                                    Some((created_at, p4)) => match tok(s, p4, seq![',']) {
                                        Some(p4c) => match parse_field_string(
                                            s,
                                            p4c,
                                            name_updated_at(),
                                        ) {
                                            Some((updated_at, p5)) => match tok(
                                                s,
                                                p5,
                                                seq!['}'],
                                            ) {
                                                Some(p6) => Some(
                                                    (
                                                        TaskView {
                                                            todo,
                                                            isdone,
                                                            ispriority,
                                                            created_at,
                                                            updated_at,
                                                        },
                                                        p6,
                                                    ),
                                                ),
                                                None => None,
                                            },
                                            None => None,
                                        },
                                        None => None,
                                    },
                                    None => None,
                                },
                                None => None,
                            },
                            None => None,
                        },
                        None => None,
                    },
                    None => None,
                },
                None => None,
            },
            None => None,
        },
        None => None,
    }
}

/// After one task: either the closing bracket, or a comma and another task,
/// and so on.
pub open spec fn parse_more(s: Seq<char>, pos: int) -> Option<(Seq<TaskView>, int)>
    decreases s.len() - pos,
{
    match tok(s, pos, seq![']']) {
        Some(p) => Some((Seq::empty(), p)),
        None => match tok(s, pos, seq![',']) {
            Some(p) => match parse_task(s, p) {
                Some((t, p2)) => if p2 <= pos || p2 > s.len() {
                    None
                } else {
                    match parse_more(s, p2) {
                        Some((ts, p3)) => Some((seq![t] + ts, p3)),
                        None => None,
                    }
                },
                None => None,
            },
            None => None,
        },
    }
}

/// The whole input: one JSON array of task objects and nothing after it.
pub open spec fn parse_tasks(s: Seq<char>) -> Option<Seq<TaskView>> {
    match tok(s, 0, seq!['[']) {
        Some(p) => match tok(s, p, seq![']']) {
            Some(p2) => if skip_ws(s, p2) == s.len() {
                Some(Seq::empty())
            } else {
                None
            },
            None => match parse_task(s, p) {
                Some((t, p2)) => match parse_more(s, p2) {
                    Some((ts, p3)) => if skip_ws(s, p3) == s.len() {
                        Some(seq![t] + ts)
                    } else {
                        None
                    },
                    None => None,
                },
                None => None,
            },
        },
        None => None,
    }
}

/// What a freshly started store holds after reading the persisted file:
/// the parsed list, or the empty list where the text does not parse.
pub open spec fn spec_load(s: Seq<char>) -> Seq<TaskView> {
    match parse_tasks(s) {
        Some(ts) => ts,
        None => Seq::empty(),
    }
}

// ---------------------------------------------------------------------------
// The executable serializer
// ---------------------------------------------------------------------------

/// Relies on `String::push`: appends exactly the one character.
#[verifier::external_body]
fn push_char(out: &mut String, c: char)
    ensures
        final(out)@ == old(out)@.push(c),
{
    out.push(c);
}

/// Escaping distributes over concatenation.
proof fn lemma_esc_str_app(a: Seq<char>, b: Seq<char>)
    ensures
        esc_str(a + b) == esc_str(a) + esc_str(b),
    decreases a.len(),
{
    if a.len() == 0 {
        assert(a + b =~= b);
        assert(esc_str(a) + esc_str(b) =~= esc_str(b));
    } else {
        lemma_esc_str_app(a.drop_first(), b);
        assert((a + b).drop_first() =~= a.drop_first() + b);
        assert((a + b)[0] == a[0]);
        assert(esc_char(a[0]) + (esc_str(a.drop_first()) + esc_str(b)) =~= (esc_char(a[0])
            + esc_str(a.drop_first())) + esc_str(b));
    }
}

/// Escaping one more character extends the escaped prefix.
proof fn lemma_esc_str_snoc(s: Seq<char>, i: int)
    requires
        0 <= i < s.len(),
    ensures
        esc_str(s.take(i + 1)) == esc_str(s.take(i)) + esc_char(s[i]),
{
    let one = seq![s[i]];
    assert(s.take(i + 1) =~= s.take(i) + one);
    lemma_esc_str_app(s.take(i), one);
    assert(one.drop_first() =~= Seq::<char>::empty());
    assert(esc_str(Seq::<char>::empty()) == Seq::<char>::empty());
    assert(esc_str(one) == esc_char(s[i]) + esc_str(Seq::<char>::empty()));
    assert(esc_char(s[i]) + Seq::<char>::empty() =~= esc_char(s[i]));
}

/// Appends the JSON escape of `s` to `out`.
fn write_escaped(out: &mut String, s: &str)
    ensures
        final(out)@ == old(out)@ + esc_str(s@),
{
    let n = s.unicode_len();
    let mut i: usize = 0;
    while i < n
        invariant
            n == s@.len(),
            i <= n,
            out@ == old(out)@ + esc_str(s@.take(i as int)),
        decreases n - i,
    {
        let c = s.get_char(i);
        if c == '"' {
            out.append("\\\"");
            proof {
                reveal_strlit("\\\"");
                assert(("\\\"")@ =~= esc_char(c));
            }
        } else if c == '\\' {
            out.append("\\\\");
            proof {
                reveal_strlit("\\\\");
                assert(("\\\\")@ =~= esc_char(c));
            }
        } else if c == '\u{8}' {
            out.append("\\b");
            proof {
                reveal_strlit("\\b");
                assert(("\\b")@ =~= esc_char(c));
            }
        } else if c == '\t' {
            out.append("\\t");
            proof {
                reveal_strlit("\\t");
                assert(("\\t")@ =~= esc_char(c));
            }
        } else if c == '\n' {
            out.append("\\n");
            proof {
                reveal_strlit("\\n");
                assert(("\\n")@ =~= esc_char(c));
            }
        } else if c == '\u{c}' {
            out.append("\\f");
            proof {
                reveal_strlit("\\f");
                assert(("\\f")@ =~= esc_char(c));
            }
        } else if c == '\r' {
            out.append("\\r");
            proof {
                reveal_strlit("\\r");
                assert(("\\r")@ =~= esc_char(c));
            }
        } else if (c as u32) < 32 {
            let v = c as u32;
            out.append("\\u00");
            let hi: u32 = v / 16;
            let lo: u32 = v % 16;
            let hc: char = if hi < 10 {
                ((48 + hi) as u8) as char
            } else {
                ((87 + hi) as u8) as char
            };
            let lc: char = if lo < 10 {
                ((48 + lo) as u8) as char
            } else {
                ((87 + lo) as u8) as char
            };
            push_char(out, hc);
            push_char(out, lc);
            proof {
                reveal_strlit("\\u00");
                assert(hc == hex_digit(v as int / 16));
                assert(lc == hex_digit(v as int % 16));
                assert(("\\u00")@.push(hc).push(lc) =~= esc_char(c));
            }
        } else {
            let piece = s.substring_char(i, i + 1);
            out.append(piece);
            proof {
                assert(piece@ =~= esc_char(c));
            }
        }
        proof {
            lemma_esc_str_snoc(s@, i as int);
            assert(out@ =~= old(out)@ + esc_str(s@.take(i as int + 1)));
        }
        i += 1;
    }
    proof {
        assert(s@.take(n as int) =~= s@);
    }
}

/// Appends `s` as a quoted, escaped JSON string.
fn write_string(out: &mut String, s: &str)
    ensures
        final(out)@ == old(out)@ + ser_string(s@),
{
    out.append("\"");
    write_escaped(out, s);
    out.append("\"");
    proof {
        reveal_strlit("\"");
        assert(old(out)@ + ("\"")@ + esc_str(s@) + ("\"")@ =~= old(out)@ + ser_string(s@));
    }
}

/// Appends `true` or `false`.
fn write_bool(out: &mut String, b: bool)
    ensures
        final(out)@ == old(out)@ + ser_bool(b),
{
    if b {
        out.append("true");
        proof {
            reveal_strlit("true");
            assert(("true")@ =~= ser_bool(b));
        }
    } else {
        out.append("false");
        proof {
            reveal_strlit("false");
            assert(("false")@ =~= ser_bool(b));
        }
    }
}

/// Appends one pretty-printed task object.
#[verifier::rlimit(100)]
fn write_task(out: &mut String, t: &Task)
    ensures
        final(out)@ == old(out)@ + ser_task(t@),
{
    out.append("  {\n    \"todo\": ");
    write_string(out, t.todo.as_str());
    out.append(",\n    \"isdone\": ");
    write_bool(out, t.isdone);
    out.append(",\n    \"ispriority\": ");
    write_bool(out, t.ispriority);
    out.append(",\n    \"created_at\": ");
    write_string(out, t.created_at.as_str());
    out.append(",\n    \"updated_at\": ");
    write_string(out, t.updated_at.as_str());
    out.append("\n  }");
    proof {
        reveal_strlit("  {\n    \"todo\": ");
        reveal_strlit(",\n    \"isdone\": ");
        reveal_strlit(",\n    \"ispriority\": ");
        reveal_strlit(",\n    \"created_at\": ");
        reveal_strlit(",\n    \"updated_at\": ");
        reveal_strlit("\n  }");
        assert(("  {\n    \"todo\": ")@ =~= obj_open() + key_todo());
        assert((",\n    \"isdone\": ")@ =~= comma_nl() + key_isdone());
        assert((",\n    \"ispriority\": ")@ =~= comma_nl() + key_ispriority());
        assert((",\n    \"created_at\": ")@ =~= comma_nl() + key_created_at());
        assert((",\n    \"updated_at\": ")@ =~= comma_nl() + key_updated_at());
        assert(("\n  }")@ =~= obj_close());
        assert(out@ =~= old(out)@ + ser_task(t@));
    }
}

/// The whole persisted file for `tasks`, exactly as `ser_tasks` describes it.
pub fn serialize_tasks(tasks: &Vec<Task>) -> (r: String)
    ensures
        r@ == ser_tasks(tasks.deep_view()),
{
    let ghost ts = tasks.deep_view();
    let mut out = String::new();
    if tasks.len() == 0 {
        out.append("[]");
        proof {
            reveal_strlit("[]");
            assert(out@ =~= ser_tasks(ts));
        }
        return out;
    }
    out.append("[\n");
    write_task(&mut out, &tasks[0]);
    proof {
        reveal_strlit("[\n");
        assert(("[\n")@ =~= arr_open());
        assert(ts[0] == tasks@[0]@);
        assert(ts.drop_first().take(0) =~= Seq::<TaskView>::empty());
        assert(out@ =~= arr_open() + ser_task(ts[0]) + ser_tasks_rest(ts.drop_first().take(0)));
    }
    let mut i: usize = 1;
    while i < tasks.len()
        invariant
            1 <= i <= tasks.len(),
            ts == tasks.deep_view(),
            ts.len() == tasks@.len(),
            out@ == arr_open() + ser_task(ts[0]) + ser_tasks_rest(ts.drop_first().take(i - 1)),
        decreases tasks.len() - i,
    {
        out.append(",\n");
        write_task(&mut out, &tasks[i]);
        proof {
            reveal_strlit(",\n");
            assert((",\n")@ =~= comma_nl());
            assert(ts[i as int] == tasks@[i as int]@);
            lemma_ser_tasks_rest_snoc(ts.drop_first(), i - 1);
            assert(out@ =~= arr_open() + ser_task(ts[0]) + ser_tasks_rest(
                ts.drop_first().take(i as int),
            ));
        }
        i += 1;
    }
    out.append("\n]");
    proof {
        reveal_strlit("\n]");
        assert(("\n]")@ =~= arr_close());
        assert(ts.drop_first().take(tasks@.len() - 1) =~= ts.drop_first());
        assert(out@ =~= ser_tasks(ts));
    }
    out
}

/// Serializing one more trailing task extends the serialized tail.
#[verifier::rlimit(100)]
proof fn lemma_ser_tasks_rest_snoc(ts: Seq<TaskView>, i: int)
    requires
        0 <= i < ts.len(),
    ensures
        ser_tasks_rest(ts.take(i + 1)) == ser_tasks_rest(ts.take(i)) + comma_nl() + ser_task(
            ts[i],
        ),
    decreases i,
{
    if i == 0 {
        assert(ts.take(0) =~= Seq::<TaskView>::empty());
        assert(ts.take(1)[0] == ts[0]);
        assert(ts.take(1).drop_first() =~= Seq::<TaskView>::empty());
        assert(ser_tasks_rest(ts.take(1)) =~= ser_tasks_rest(ts.take(0)) + comma_nl() + ser_task(
            ts[0],
        ));
    } else {
        lemma_ser_tasks_rest_snoc(ts.drop_first(), i - 1);
        assert(ts.take(i + 1).drop_first() =~= ts.drop_first().take(i));
        assert(ts.take(i).drop_first() =~= ts.drop_first().take(i - 1));
        assert(ts.take(i + 1)[0] == ts[0]);
        assert(ts.take(i)[0] == ts[0]);
        assert(ts.drop_first()[i - 1] == ts[i]);
        assert(comma_nl() + ser_task(ts[0]) + (ser_tasks_rest(ts.drop_first().take(i - 1))
            + comma_nl() + ser_task(ts[i])) =~= (comma_nl() + ser_task(ts[0]) + ser_tasks_rest(
            ts.drop_first().take(i - 1),
        )) + comma_nl() + ser_task(ts[i]));
    }
}

// ---------------------------------------------------------------------------
// The executable parser
// ---------------------------------------------------------------------------

/// Whether the character at `i` is JSON whitespace.
fn e_is_ws(s: &str, i: usize) -> (b: bool)
    requires
        i < s@.len(),
    ensures
        b == is_ws(s@[i as int]),
{
    let c = s.get_char(i);
    c == ' ' || c == '\n' || c == '\r' || c == '\t'
}

/// Skips whitespace; the first non-whitespace position at or after `pos`.
fn e_skip_ws(s: &str, n: usize, pos: usize) -> (r: usize)
    requires
        n == s@.len(),
        pos <= n,
    ensures
        r as int == skip_ws(s@, pos as int),
        pos <= r <= n,
{
    let mut p = pos;
    while p < n && e_is_ws(s, p)
        invariant
            n == s@.len(),
            pos <= p <= n,
            skip_ws(s@, pos as int) == skip_ws(s@, p as int),
        decreases n - p,
    {
        p += 1;
    }
    p
}

/// `pat` stands at `pos` in `s`.
fn e_match_at(s: &str, n: usize, pos: usize, pat: &str, m: usize) -> (r: bool)
    requires
        n == s@.len(),
        m == pat@.len(),
        pos <= n,
    ensures
        r == starts_with_at(s@, pos as int, pat@),
{
    if m > n - pos {
        return false;
    }
    let mut i: usize = 0;
    while i < m
        invariant
            n == s@.len(),
            m == pat@.len(),
            pos + m <= n,
            i <= m,
            forall|j: int| 0 <= j < i ==> s@[pos + j] == pat@[j],
        decreases m - i,
    {
        if s.get_char(pos + i) != pat.get_char(i) {
            proof {
                assert(s@.subrange(pos as int, pos + pat@.len()) != pat@) by {
                    if s@.subrange(pos as int, pos + pat@.len()) == pat@ {
                        assert(s@.subrange(pos as int, pos + pat@.len())[i as int] == s@[pos + i]);
                    }
                }
            }
            return false;
        }
        i += 1;
    }
    proof {
        assert(s@.subrange(pos as int, pos + pat@.len()) =~= pat@);
    }
    true
}

/// Whitespace, then the token `pat`.
fn e_tok(s: &str, n: usize, pos: usize, pat: &str, m: usize) -> (r: Option<usize>)
    requires
        n == s@.len(),
        m == pat@.len(),
        pos <= n,
    ensures
        match r {
            Some(p) => tok(s@, pos as int, pat@) == Some(p as int) && p <= n,
            None => tok(s@, pos as int, pat@) is None,
        },
{
    let p = e_skip_ws(s, n, pos);
    if e_match_at(s, n, p, pat, m) {
        Some(p + m)
    } else {
        None
    }
}

/// The hexadecimal value of `c`, or `-1`.
fn e_hex_val(c: char) -> (v: i32)
    ensures
        v as int == hex_val(c),
        -1 <= v < 16,
{
    let u = c as u32;
    if 48 <= u && u <= 57 {
        (u - 48) as i32
    } else if 97 <= u && u <= 102 {
        (u - 87) as i32
    } else if 65 <= u && u <= 70 {
        (u - 55) as i32
    } else {
        -1
    }
}

/// `o` with `prefix` put before the decoded text.
spec fn prepend_body(prefix: Seq<char>, o: Option<(Seq<char>, int)>) -> Option<(Seq<char>, int)> {
    match o {
        Some((r, q)) => Some((prefix + r, q)),
        None => None,
    }
}

/// The rest of a JSON string, entered just after its opening quote.
fn e_parse_string_body(s: &str, n: usize, pos: usize) -> (r: Option<(String, usize)>)
    requires
        n == s@.len(),
        pos <= n,
    ensures
        match r {
            Some((body, p)) => parse_string_body(s@, pos as int) == Some((body@, p as int)) && p
                <= n,
            None => parse_string_body(s@, pos as int) is None,
        },
{
    let mut out = String::new();
    let mut p = pos;
    proof {
        if parse_string_body(s@, pos as int) is Some {
            let (r0, q0) = parse_string_body(s@, pos as int)->Some_0;
            assert(out@ + r0 =~= r0);
        }
    }
    while p < n
        invariant
            n == s@.len(),
            pos <= p <= n,
            parse_string_body(s@, pos as int) == prepend_body(
                out@,
                parse_string_body(s@, p as int),
            ),
        decreases n - p,
    {
        let ghost acc = out@;
        let ghost p_old = p as int;
        let c = s.get_char(p);
        if c == '"' {
            proof {
                assert(out@ + Seq::<char>::empty() =~= out@);
            }
            return Some((out, p + 1));
        } else if c == '\\' {
            if p + 1 >= n {
                return None;
            }
            let e = s.get_char(p + 1);
            let ghost dec: char;
            if e == 'u' {
                if n - p < 6 {
                    return None;
                }
                let h2 = e_hex_val(s.get_char(p + 2));
                let h3 = e_hex_val(s.get_char(p + 3));
                let h4 = e_hex_val(s.get_char(p + 4));
                let h5 = e_hex_val(s.get_char(p + 5));
                let v = h2 * 4096 + h3 * 256 + h4 * 16 + h5;
                if h2 < 0 || h3 < 0 || h4 < 0 || h5 < 0 || v >= 32 {
                    return None;
                }
                let cd: char = (v as u8) as char;
                proof {
                    assert(cd == char_of(v as int));
                    dec = cd;
                }
                push_char(&mut out, cd);
                p += 6;
            } else {
                if e == '"' {
                    out.append("\"");
                    proof {
                        reveal_strlit("\"");
                        dec = '"';
                        assert(("\"")@ =~= seq![dec]);
                    }
                } else if e == '\\' {
                    out.append("\\");
                    proof {
                        reveal_strlit("\\");
                        dec = '\\';
                        assert(("\\")@ =~= seq![dec]);
                    }
                } else if e == '/' {
                    out.append("/");
                    proof {
                        reveal_strlit("/");
                        dec = '/';
                        assert(("/")@ =~= seq![dec]);
                    }
                } else if e == 'b' {
                    out.append("\u{8}");
                    proof {
                        reveal_strlit("\u{8}");
                        dec = '\u{8}';
                        assert(("\u{8}")@ =~= seq![dec]);
                    }
                } else if e == 'f' {
                    out.append("\u{c}");
                    proof {
                        reveal_strlit("\u{c}");
                        dec = '\u{c}';
                        assert(("\u{c}")@ =~= seq![dec]);
                    }
                } else if e == 'n' {
                    out.append("\n");
                    proof {
                        reveal_strlit("\n");
                        dec = '\n';
                        assert(("\n")@ =~= seq![dec]);
                    }
                } else if e == 'r' {
                    out.append("\r");
                    proof {
                        reveal_strlit("\r");
                        dec = '\r';
                        assert(("\r")@ =~= seq![dec]);
                    }
                } else if e == 't' {
                    out.append("\t");
                    proof {
                        reveal_strlit("\t");
                        dec = '\t';
                        assert(("\t")@ =~= seq![dec]);
                    }
                } else {
                    return None;
                }
                p += 2;
            }
            proof {
                assert(out@ == acc.push(dec));
                assert(parse_string_body(s@, p_old) == prepend_body(
                    seq![dec],
                    parse_string_body(s@, p as int),
                ));
                if parse_string_body(s@, p as int) is Some {
                    let (rest, q) = parse_string_body(s@, p as int)->Some_0;
                    assert(acc.push(dec) + rest =~= acc + (seq![dec] + rest));
                }
            }
        } else {
            let piece = s.substring_char(p, p + 1);
            out.append(piece);
            p += 1;
            proof {
                assert(piece@ =~= seq![s@[p_old]]);
                assert(out@ == acc + seq![s@[p_old]]);
                if parse_string_body(s@, p as int) is Some {
                    let (rest, q) = parse_string_body(s@, p as int)->Some_0;
                    assert((acc + seq![s@[p_old]]) + rest =~= acc + (seq![s@[p_old]] + rest));
                }
            }
        }
    }
    None
}

/// A `"key": "string"` field.
fn e_parse_field_string(
    s: &str,
    n: usize,
    pos: usize,
    key: &str,
    Ghost(name): Ghost<Seq<char>>,
) -> (r: Option<(String, usize)>)
    requires
        n == s@.len(),
        pos <= n,
        key@ == quoted(name),
    ensures
        match r {
            Some((v, p)) => parse_field_string(s@, pos as int, name) == Some((v@, p as int)) && p
                <= n,
            None => parse_field_string(s@, pos as int, name) is None,
        },
{
    proof {
        reveal(parse_field_string);
    }
    let m = key.unicode_len();
    let p1 = match e_tok(s, n, pos, key, m) {
        Some(p) => p,
        None => {
            return None;
        },
    };
    proof {
        reveal_strlit(":");
        assert((":")@ =~= seq![':']);
        reveal_strlit("\"");
        assert(("\"")@ =~= seq!['"']);
    }
    let p2 = match e_tok(s, n, p1, ":", 1) {
        Some(p) => p,
        None => {
            return None;
        },
    };
    let p3 = match e_tok(s, n, p2, "\"", 1) {
        Some(p) => p,
        None => {
            return None;
        },
    };
    e_parse_string_body(s, n, p3)
}

/// A `"key": true|false` field.
fn e_parse_field_bool(
    s: &str,
    n: usize,
    pos: usize,
    key: &str,
    Ghost(name): Ghost<Seq<char>>,
) -> (r: Option<(bool, usize)>)
    requires
        n == s@.len(),
        pos <= n,
        key@ == quoted(name),
    ensures
        match r {
            Some((v, p)) => parse_field_bool(s@, pos as int, name) == Some((v, p as int)) && p
                <= n,
            None => parse_field_bool(s@, pos as int, name) is None,
        },
{
    proof {
        reveal(parse_field_bool);
    }
    let m = key.unicode_len();
    let p1 = match e_tok(s, n, pos, key, m) {
        Some(p) => p,
        None => {
            return None;
        },
    };
    proof {
        reveal_strlit(":");
        assert((":")@ =~= seq![':']);
        reveal_strlit("true");
        assert(("true")@ =~= seq!['t', 'r', 'u', 'e']);
        reveal_strlit("false");
        assert(("false")@ =~= seq!['f', 'a', 'l', 's', 'e']);
    }
    let p2 = match e_tok(s, n, p1, ":", 1) {
        Some(p) => p,
        None => {
            return None;
        },
    };
    match e_tok(s, n, p2, "true", 4) {
        Some(p3) => Some((true, p3)),
        None => match e_tok(s, n, p2, "false", 5) {
            Some(p3) => Some((false, p3)),
            None => None,
        },
    }
}

/// One task object.
fn e_parse_task(s: &str, n: usize, pos: usize) -> (r: Option<(Task, usize)>)
    requires
        n == s@.len(),
        pos <= n,
    ensures
        match r {
            Some((t, p)) => parse_task(s@, pos as int) == Some((t@, p as int)) && p <= n,
            None => parse_task(s@, pos as int) is None,
        },
{
    proof {
        reveal(parse_task);
        reveal_strlit("{");
        assert(("{")@ =~= seq!['{']);
        reveal_strlit("}");
        assert(("}")@ =~= seq!['}']);
        reveal_strlit(",");
        assert((",")@ =~= seq![',']);
        reveal_strlit("\"todo\"");
        assert(("\"todo\"")@ =~= quoted(name_todo()));
        reveal_strlit("\"isdone\"");
        assert(("\"isdone\"")@ =~= quoted(name_isdone()));
        reveal_strlit("\"ispriority\"");
        assert(("\"ispriority\"")@ =~= quoted(name_ispriority()));
        reveal_strlit("\"created_at\"");
        assert(("\"created_at\"")@ =~= quoted(name_created_at()));
        reveal_strlit("\"updated_at\"");
        assert(("\"updated_at\"")@ =~= quoted(name_updated_at()));
    }
    let p0 = match e_tok(s, n, pos, "{", 1) {
        Some(p) => p,
        None => {
            return None;
        },
    };
    let (todo, p1) = match e_parse_field_string(s, n, p0, "\"todo\"", Ghost(name_todo())) {
        Some(x) => x,
        None => {
            return None;
        },
    };
    let p1c = match e_tok(s, n, p1, ",", 1) {
        Some(p) => p,
        None => {
            return None;
        },
    };
    let (isdone, p2) = match e_parse_field_bool(s, n, p1c, "\"isdone\"", Ghost(name_isdone())) {
        Some(x) => x,
        None => {
            return None;
        },
    };
    let p2c = match e_tok(s, n, p2, ",", 1) {
        Some(p) => p,
        None => {
            return None;
        },
    };
    let (ispriority, p3) = match e_parse_field_bool(
        s,
        n,
        p2c,
        "\"ispriority\"",
        Ghost(name_ispriority()),
    ) {
        Some(x) => x,
        None => {
            return None;
        },
    };
    let p3c = match e_tok(s, n, p3, ",", 1) {
        Some(p) => p,
        None => {
            return None;
        },
    };
    let (created_at, p4) = match e_parse_field_string(
        s,
        n,
        p3c,
        "\"created_at\"",
        Ghost(name_created_at()),
    ) {
        Some(x) => x,
        None => {
            return None;
        },
    };
    let p4c = match e_tok(s, n, p4, ",", 1) {
        Some(p) => p,
        None => {
            return None;
        },
    };
    let (updated_at, p5) = match e_parse_field_string(
        s,
        n,
        p4c,
        "\"updated_at\"",
        Ghost(name_updated_at()),
    ) {
        Some(x) => x,
        None => {
            return None;
        },
    };
    let p6 = match e_tok(s, n, p5, "}", 1) {
        Some(p) => p,
        None => {
            return None;
        },
    };
    Some((Task { todo, isdone, ispriority, created_at, updated_at }, p6))
}

/// `o` with `pre` put before the parsed tail of the list.
spec fn prepend_more(pre: Seq<TaskView>, o: Option<(Seq<TaskView>, int)>) -> Option<
    (Seq<TaskView>, int),
> {
    match o {
        Some((ts, q)) => Some((pre + ts, q)),
        None => None,
    }
}

/// The whole input: a JSON array of task objects and nothing else, or `None`
/// where the text does not parse.
#[verifier::rlimit(100)]
pub fn parse_tasks_str(s: &str) -> (r: Option<Vec<Task>>)
    ensures
        match r {
            Some(v) => parse_tasks(s@) == Some(v.deep_view()),
            None => parse_tasks(s@) is None,
        },
{
    let n = s.unicode_len();
    proof {
        reveal_strlit("[");
        assert(("[")@ =~= seq!['[']);
        reveal_strlit("]");
        assert(("]")@ =~= seq![']']);
        reveal_strlit(",");
        assert((",")@ =~= seq![',']);
    }
    let p = match e_tok(s, n, 0, "[", 1) {
        Some(p) => p,
        None => {
            return None;
        },
    };
    if let Some(p2) = e_tok(s, n, p, "]", 1) {
        let q = e_skip_ws(s, n, p2);
        if q == n {
            let res: Vec<Task> = Vec::new();
            proof {
                assert(res.deep_view() =~= Seq::<TaskView>::empty());
            }
            return Some(res);
        } else {
            return None;
        }
    }
    let (t0, first_end) = match e_parse_task(s, n, p) {
        Some(x) => x,
        None => {
            return None;
        },
    };
    let ghost t0v = t0@;
    let mut res: Vec<Task> = Vec::new();
    res.push(t0);
    let mut cur = first_end;
    proof {
        assert(res.deep_view().skip(1) =~= Seq::<TaskView>::empty());
        if parse_more(s@, first_end as int) is Some {
            let (ts, q) = parse_more(s@, first_end as int)->Some_0;
            assert(Seq::<TaskView>::empty() + ts =~= ts);
        }
    }
    loop
        invariant
            n == s@.len(),
            cur <= n,
            res.deep_view().len() >= 1,
            res.deep_view()[0] == t0v,
            parse_task(s@, p as int) == Some((t0v, first_end as int)),
            parse_tasks(s@) == (match parse_more(s@, first_end as int) {
                Some((ts, q)) => if skip_ws(s@, q) == s@.len() {
                    Some(seq![t0v] + ts)
                } else {
                    None
                },
                None => None,
            }),
            parse_more(s@, first_end as int) == prepend_more(
                res.deep_view().skip(1),
                parse_more(s@, cur as int),
            ),
        decreases n - cur,
    {
        let ghost acc = res.deep_view();
        let ghost cur_old = cur as int;
        proof {
            reveal_strlit("]");
            assert(("]")@ =~= seq![']']);
            reveal_strlit(",");
            assert((",")@ =~= seq![',']);
        }
        if let Some(pc) = e_tok(s, n, cur, "]", 1) {
            let q = e_skip_ws(s, n, pc);
            proof {
                assert(acc.skip(1) + Seq::<TaskView>::empty() =~= acc.skip(1));
                assert(parse_more(s@, first_end as int) == Some((acc.skip(1), pc as int)));
            }
            if q == n {
                proof {
                    assert(seq![t0v] + acc.skip(1) =~= acc);
                    assert(parse_tasks(s@) == Some(res.deep_view()));
                }
                return Some(res);
            } else {
                return None;
            }
        }
        let pc = match e_tok(s, n, cur, ",", 1) {
            Some(p) => p,
            None => {
                return None;
            },
        };
        let (t, p2) = match e_parse_task(s, n, pc) {
            Some(x) => x,
            None => {
                return None;
            },
        };
        if p2 <= cur {
            return None;
        }
        let ghost tv = t@;
        res.push(t);
        cur = p2;
        proof {
            assert(parse_more(s@, cur_old) == prepend_more(
                seq![tv],
                parse_more(s@, p2 as int),
            ));
            assert(res.deep_view() =~= acc.push(tv));
            assert(res.deep_view()[0] == t0v);
            assert(res.deep_view().skip(1) =~= acc.skip(1) + seq![tv]);
            if parse_more(s@, p2 as int) is Some {
                let (ts, q) = parse_more(s@, p2 as int)->Some_0;
                assert((acc.skip(1) + seq![tv]) + ts =~= acc.skip(1) + (seq![tv] + ts));
            }
        }
    }
}

// ---------------------------------------------------------------------------
// Round trip: parsing what the serializer wrote gives the list back
// ---------------------------------------------------------------------------

/// A match against a concatenation splits into matches of the parts.
proof fn lemma_peel(s: Seq<char>, pos: int, a: Seq<char>, b: Seq<char>)
    requires
        starts_with_at(s, pos, a + b),
    ensures
        starts_with_at(s, pos, a),
        starts_with_at(s, pos + a.len(), b),
{
    let ab = a + b;
    assert forall|i: int| 0 <= i < ab.len() implies s[pos + i] == ab[i] by {
        assert(s.subrange(pos, pos + ab.len())[i] == s[pos + i]);
    }
    assert(s.subrange(pos, pos + a.len()) =~= a);
    assert forall|i: int| 0 <= i < b.len() implies s[pos + a.len() + i] == b[i] by {
        assert(s[pos + (a.len() + i)] == ab[a.len() + i]);
    }
    assert(s.subrange(pos + a.len(), pos + a.len() + b.len()) =~= b);
}

/// A match gives the characters, one by one.
proof fn lemma_starts_index(s: Seq<char>, pos: int, pat: Seq<char>)
    requires
        starts_with_at(s, pos, pat),
    ensures
        forall|i: int| 0 <= i < pat.len() ==> s[pos + i] == pat[i],
{
    assert forall|i: int| 0 <= i < pat.len() implies s[pos + i] == pat[i] by {
        assert(s.subrange(pos, pos + pat.len())[i] == s[pos + i]);
    }
}

/// A single known character is a match.
proof fn lemma_starts_one(s: Seq<char>, q: int, c: char)
    requires
        0 <= q < s.len(),
        s[q] == c,
    ensures
        starts_with_at(s, q, seq![c]),
{
    assert(s.subrange(q, q + 1) =~= seq![c]);
}

/// Skipping a run of `k` whitespace characters that ends at a non-whitespace
/// character or at the end of the input.
proof fn lemma_skip_ws_run(s: Seq<char>, pos: int, k: int)
    requires
        0 <= pos,
        0 <= k,
        pos + k <= s.len(),
        forall|i: int| 0 <= i < k ==> is_ws(#[trigger] s[pos + i]),
        pos + k == s.len() || !is_ws(s[pos + k]),
    ensures
        skip_ws(s, pos) == pos + k,
    decreases k,
{
    if k > 0 {
        assert(is_ws(s[pos + 0]));
        assert forall|i: int| 0 <= i < k - 1 implies is_ws(#[trigger] s[pos + 1 + i]) by {
            assert(is_ws(s[pos + (i + 1)]));
        }
        lemma_skip_ws_run(s, pos + 1, k - 1);
    }
}

/// A token preceded by a run of `k` whitespace characters is consumed.
proof fn lemma_tok_at(s: Seq<char>, pos: int, k: int, pat: Seq<char>)
    requires
        0 <= pos,
        0 <= k,
        pos + k <= s.len(),
        forall|i: int| 0 <= i < k ==> is_ws(#[trigger] s[pos + i]),
        pat.len() > 0,
        !is_ws(pat[0]),
        starts_with_at(s, pos + k, pat),
    ensures
        tok(s, pos, pat) == Some(pos + k + pat.len()),
{
    lemma_starts_index(s, pos + k, pat);
    lemma_skip_ws_run(s, pos, k);
}

/// A token whose first character does not stand after the whitespace fails.
proof fn lemma_tok_fail(s: Seq<char>, pos: int, k: int, pat: Seq<char>)
    requires
        0 <= pos,
        0 <= k,
        pos + k < s.len(),
        forall|i: int| 0 <= i < k ==> is_ws(#[trigger] s[pos + i]),
        !is_ws(s[pos + k]),
        pat.len() > 0,
        s[pos + k] != pat[0],
    ensures
        tok(s, pos, pat) is None,
{
    lemma_skip_ws_run(s, pos, k);
    if starts_with_at(s, pos + k, pat) {
        lemma_starts_index(s, pos + k, pat);
    }
}

/// A hexadecimal digit decodes to the value it was written from.
proof fn lemma_hex_round(n: int)
    requires
        0 <= n < 16,
    ensures
        hex_val(hex_digit(n)) == n,
{
}

/// Parsing the escaped text followed by a closing quote gives the text back.
proof fn lemma_parse_string_at(s: Seq<char>, pos: int, body: Seq<char>)
    requires
        0 <= pos,
        starts_with_at(s, pos, esc_str(body)),
        starts_with_at(s, pos + esc_str(body).len(), seq!['"']),
    ensures
        parse_string_body(s, pos) == Some((body, pos + esc_str(body).len() + 1)),
    decreases body.len(),
{
    if body.len() == 0 {
        let q = pos + esc_str(body).len();
        assert(q == pos);
        assert(s.subrange(q, q + 1)[0] == s[q]);
        assert(s[q] == '"');
        assert(body =~= Seq::<char>::empty());
    } else {
        let c = body[0];
        let rest = body.drop_first();
        assert(esc_str(body) == esc_char(c) + esc_str(rest));
        lemma_peel(s, pos, esc_char(c), esc_str(rest));
        let k = esc_char(c).len();
        assert(esc_str(body).len() == k + esc_str(rest).len());
        lemma_parse_string_at(s, pos + k, rest);
        lemma_starts_index(s, pos, esc_char(c));
        let endp = pos + esc_str(body).len() + 1;
        assert(seq![c] + rest =~= body);
        if c == '"' || c == '\\' || c == '\u{8}' || c == '\t' || c == '\n' || c == '\u{c}' || c
            == '\r' {
            assert(s[pos] == '\\');
            assert(unesc_short(s[pos + 1]) == Some(c));
            assert(parse_string_body(s, pos) == Some((seq![c] + rest, endp)));
        } else if (c as u32) < 32 {
            assert(s[pos] == '\\');
            assert(s[pos + 1] == 'u');
            assert(s[pos + 2] == '0');
            assert(s[pos + 3] == '0');
            assert(s[pos + 4] == hex_digit((c as u32) as int / 16));
            assert(s[pos + 5] == hex_digit((c as u32) as int % 16));
            lemma_hex_round((c as u32) as int / 16);
            lemma_hex_round((c as u32) as int % 16);
            assert(hex_val(s[pos + 2]) == 0);
            assert(hex_val(s[pos + 3]) == 0);
            let v = hex_val(s[pos + 2]) * 4096 + hex_val(s[pos + 3]) * 256 + hex_val(s[pos + 4])
                * 16 + hex_val(s[pos + 5]);
            assert(v == (c as u32) as int);
            vstd::utf8::char_u32_cast(c, c as u32);
            assert(char_of(v) == c);
            assert(parse_string_body(s, pos) == Some((seq![c] + rest, endp)));
        } else {
            assert(s[pos] == c);
            assert(parse_string_body(s, pos) == Some((seq![c] + rest, endp)));
        }
    }
}


/// The indented `"name": ` prefix that opens each field.
pub open spec fn key_of(name: Seq<char>) -> Seq<char> {
    seq![' ', ' ', ' ', ' '] + quoted(name) + seq![':', ' ']
}

/// Parsing a serialized string field, entered at the newline before it.
proof fn lemma_parse_field_string_at(s: Seq<char>, pos: int, name: Seq<char>, v: Seq<char>)
    requires
        0 <= pos < s.len(),
        s[pos] == '\n',
        starts_with_at(s, pos + 1, key_of(name)),
        starts_with_at(s, pos + 1 + key_of(name).len(), ser_string(v)),
    ensures
        parse_field_string(s, pos, name) == Some(
            (v, pos + 1 + key_of(name).len() + ser_string(v).len()),
        ),
{
    reveal(parse_field_string);
    reveal(parse_field_bool);
    let nl = name.len();
    assert(quoted(name).len() == nl + 2);
    assert(key_of(name).len() == nl + 8);
    lemma_peel(s, pos + 1, seq![' ', ' ', ' ', ' '] + quoted(name), seq![':', ' ']);
    lemma_peel(s, pos + 1, seq![' ', ' ', ' ', ' '], quoted(name));
    lemma_starts_index(s, pos + 1, seq![' ', ' ', ' ', ' ']);
    lemma_starts_index(s, pos + 5 + nl + 2, seq![':', ' ']);
    assert(quoted(name)[0] == '"');
    assert forall|i: int| 0 <= i < 5 implies is_ws(#[trigger] s[pos + i]) by {
        if i > 0 {
            assert(s[pos + 1 + (i - 1)] == seq![' ', ' ', ' ', ' '][i - 1]);
        }
    }
    lemma_tok_at(s, pos, 5, quoted(name));
    assert(s[pos + 7 + nl + 0] == ':');
    assert(s[pos + 7 + nl + 1] == ' ');
    lemma_starts_one(s, pos + 7 + nl, ':');
    lemma_tok_at(s, pos + 7 + nl, 0, seq![':']);
    lemma_peel(s, pos + 9 + nl, seq!['"'] + esc_str(v), seq!['"']);
    lemma_peel(s, pos + 9 + nl, seq!['"'], esc_str(v));
    assert forall|i: int| 0 <= i < 1 implies is_ws(#[trigger] s[pos + 8 + nl + i]) by {
        assert(s[pos + 7 + nl + 1] == ' ');
    }
    lemma_tok_at(s, pos + 8 + nl, 1, seq!['"']);
    lemma_parse_string_at(s, pos + 10 + nl, v);
}

/// Parsing a serialized boolean field, entered at the newline before it.
proof fn lemma_parse_field_bool_at(s: Seq<char>, pos: int, name: Seq<char>, b: bool)
    requires
        0 <= pos < s.len(),
        s[pos] == '\n',
        starts_with_at(s, pos + 1, key_of(name)),
        starts_with_at(s, pos + 1 + key_of(name).len(), ser_bool(b)),
    ensures
        parse_field_bool(s, pos, name) == Some(
            (b, pos + 1 + key_of(name).len() + ser_bool(b).len()),
        ),
{
    reveal(parse_field_string);
    reveal(parse_field_bool);
    let nl = name.len();
    assert(quoted(name).len() == nl + 2);
    assert(key_of(name).len() == nl + 8);
    lemma_peel(s, pos + 1, seq![' ', ' ', ' ', ' '] + quoted(name), seq![':', ' ']);
    lemma_peel(s, pos + 1, seq![' ', ' ', ' ', ' '], quoted(name));
    lemma_starts_index(s, pos + 1, seq![' ', ' ', ' ', ' ']);
    lemma_starts_index(s, pos + 5 + nl + 2, seq![':', ' ']);
    assert(quoted(name)[0] == '"');
    assert forall|i: int| 0 <= i < 5 implies is_ws(#[trigger] s[pos + i]) by {
        if i > 0 {
            assert(s[pos + 1 + (i - 1)] == seq![' ', ' ', ' ', ' '][i - 1]);
        }
    }
    lemma_tok_at(s, pos, 5, quoted(name));
    assert(s[pos + 7 + nl + 0] == ':');
    assert(s[pos + 7 + nl + 1] == ' ');
    lemma_starts_one(s, pos + 7 + nl, ':');
    lemma_tok_at(s, pos + 7 + nl, 0, seq![':']);
    lemma_starts_index(s, pos + 9 + nl, ser_bool(b));
    assert forall|i: int| 0 <= i < 1 implies is_ws(#[trigger] s[pos + 8 + nl + i]) by {
        assert(s[pos + 7 + nl + 1] == ' ');
    }
    if b {
        assert(ser_bool(b) =~= seq!['t', 'r', 'u', 'e']);
        lemma_tok_at(s, pos + 8 + nl, 1, seq!['t', 'r', 'u', 'e']);
    } else {
        assert(ser_bool(b) =~= seq!['f', 'a', 'l', 's', 'e']);
        assert(s[pos + 9 + nl] == 'f');
        lemma_tok_fail(s, pos + 8 + nl, 1, seq!['t', 'r', 'u', 'e']);
        lemma_tok_at(s, pos + 8 + nl, 1, seq!['f', 'a', 'l', 's', 'e']);
    }
}


/// Where each serialized piece of a task stands, relative to the start of the
/// task object.
#[verifier::rlimit(100)]
proof fn lemma_ser_task_pieces(s: Seq<char>, base: int, t: TaskView)
    requires
        starts_with_at(s, base, ser_task(t)),
    ensures
        starts_with_at(s, base, obj_open()),
        starts_with_at(s, base + 4, key_todo()),
        starts_with_at(s, base + 16, ser_string(t.todo)),
        starts_with_at(s, base + 16 + ser_string(t.todo).len(), comma_nl()),
        starts_with_at(s, base + 18 + ser_string(t.todo).len(), key_isdone()),
        starts_with_at(s, base + 32 + ser_string(t.todo).len(), ser_bool(t.isdone)),
        starts_with_at(
            s,
            base + 32 + ser_string(t.todo).len() + ser_bool(t.isdone).len(),
            comma_nl(),
        ),
        starts_with_at(
            s,
            base + 34 + ser_string(t.todo).len() + ser_bool(t.isdone).len(),
            key_ispriority(),
        ),
        starts_with_at(
            s,
            base + 52 + ser_string(t.todo).len() + ser_bool(t.isdone).len(),
            ser_bool(t.ispriority),
        ),
        starts_with_at(
            s,
            base + 52 + ser_string(t.todo).len() + ser_bool(t.isdone).len() + ser_bool(
                t.ispriority,
            ).len(),
            comma_nl(),
        ),
        starts_with_at(
            s,
            base + 54 + ser_string(t.todo).len() + ser_bool(t.isdone).len() + ser_bool(
                t.ispriority,
            ).len(),
            key_created_at(),
        ),
        starts_with_at(
            s,
            base + 72 + ser_string(t.todo).len() + ser_bool(t.isdone).len() + ser_bool(
                t.ispriority,
            ).len(),
            ser_string(t.created_at),
        ),
        starts_with_at(
            s,
            base + 72 + ser_string(t.todo).len() + ser_bool(t.isdone).len() + ser_bool(
                t.ispriority,
            ).len() + ser_string(t.created_at).len(),
            comma_nl(),
        ),
        starts_with_at(
            s,
            base + 74 + ser_string(t.todo).len() + ser_bool(t.isdone).len() + ser_bool(
                t.ispriority,
            ).len() + ser_string(t.created_at).len(),
            key_updated_at(),
        ),
        starts_with_at(
            s,
            base + 92 + ser_string(t.todo).len() + ser_bool(t.isdone).len() + ser_bool(
                t.ispriority,
            ).len() + ser_string(t.created_at).len(),
            ser_string(t.updated_at),
        ),
        starts_with_at(
            s,
            base + 92 + ser_string(t.todo).len() + ser_bool(t.isdone).len() + ser_bool(
                t.ispriority,
            ).len() + ser_string(t.created_at).len() + ser_string(t.updated_at).len(),
            obj_close(),
        ),
        ser_task(t).len() == 96 + ser_string(t.todo).len() + ser_bool(t.isdone).len() + ser_bool(
            t.ispriority,
        ).len() + ser_string(t.created_at).len() + ser_string(t.updated_at).len(),
{
    lemma_peel(s, base, obj_open() + key_todo() + ser_string(t.todo) + comma_nl() + key_isdone() + ser_bool(t.isdone) + comma_nl() + key_ispriority() + ser_bool(t.ispriority) + comma_nl() + key_created_at() + ser_string(t.created_at) + comma_nl() + key_updated_at() + ser_string(t.updated_at), obj_close());
    lemma_peel(s, base, obj_open() + key_todo() + ser_string(t.todo) + comma_nl() + key_isdone() + ser_bool(t.isdone) + comma_nl() + key_ispriority() + ser_bool(t.ispriority) + comma_nl() + key_created_at() + ser_string(t.created_at) + comma_nl() + key_updated_at(), ser_string(t.updated_at));
    lemma_peel(s, base, obj_open() + key_todo() + ser_string(t.todo) + comma_nl() + key_isdone() + ser_bool(t.isdone) + comma_nl() + key_ispriority() + ser_bool(t.ispriority) + comma_nl() + key_created_at() + ser_string(t.created_at) + comma_nl(), key_updated_at());
    lemma_peel(s, base, obj_open() + key_todo() + ser_string(t.todo) + comma_nl() + key_isdone() + ser_bool(t.isdone) + comma_nl() + key_ispriority() + ser_bool(t.ispriority) + comma_nl() + key_created_at() + ser_string(t.created_at), comma_nl());
    lemma_peel(s, base, obj_open() + key_todo() + ser_string(t.todo) + comma_nl() + key_isdone() + ser_bool(t.isdone) + comma_nl() + key_ispriority() + ser_bool(t.ispriority) + comma_nl() + key_created_at(), ser_string(t.created_at));
    lemma_peel(s, base, obj_open() + key_todo() + ser_string(t.todo) + comma_nl() + key_isdone() + ser_bool(t.isdone) + comma_nl() + key_ispriority() + ser_bool(t.ispriority) + comma_nl(), key_created_at());
    lemma_peel(s, base, obj_open() + key_todo() + ser_string(t.todo) + comma_nl() + key_isdone() + ser_bool(t.isdone) + comma_nl() + key_ispriority() + ser_bool(t.ispriority), comma_nl());
    lemma_peel(s, base, obj_open() + key_todo() + ser_string(t.todo) + comma_nl() + key_isdone() + ser_bool(t.isdone) + comma_nl() + key_ispriority(), ser_bool(t.ispriority));
    lemma_peel(s, base, obj_open() + key_todo() + ser_string(t.todo) + comma_nl() + key_isdone() + ser_bool(t.isdone) + comma_nl(), key_ispriority());
    lemma_peel(s, base, obj_open() + key_todo() + ser_string(t.todo) + comma_nl() + key_isdone() + ser_bool(t.isdone), comma_nl());
    lemma_peel(s, base, obj_open() + key_todo() + ser_string(t.todo) + comma_nl() + key_isdone(), ser_bool(t.isdone));
    lemma_peel(s, base, obj_open() + key_todo() + ser_string(t.todo) + comma_nl(), key_isdone());
    lemma_peel(s, base, obj_open() + key_todo() + ser_string(t.todo), comma_nl());
    lemma_peel(s, base, obj_open() + key_todo(), ser_string(t.todo));
    lemma_peel(s, base, obj_open(), key_todo());
}

/// Parsing a serialized task, entered at the newline before its brace.
#[verifier::rlimit(100)]
proof fn lemma_parse_task_at(s: Seq<char>, pos: int, t: TaskView)
    requires
        0 <= pos < s.len(),
        s[pos] == '\n',
        starts_with_at(s, pos + 1, ser_task(t)),
    ensures
        parse_task(s, pos) == Some((t, pos + 1 + ser_task(t).len())),
        tok(s, pos, seq![']']) is None,
{
    reveal(parse_task);
    let base = pos + 1;
    lemma_ser_task_pieces(s, base, t);
    lemma_starts_index(s, base, obj_open());
    assert(s[base + 0] == ' ');
    assert(s[base + 1] == ' ');
    assert(s[base + 2] == '{');
    assert(s[base + 3] == '\n');
    assert forall|i: int| 0 <= i < 3 implies is_ws(#[trigger] s[pos + i]) by {
        if i > 0 {
            assert(s[base + (i - 1)] == obj_open()[i - 1]);
        }
    }
    lemma_starts_one(s, pos + 3, '{');
    lemma_tok_at(s, pos, 3, seq!['{']);
    lemma_tok_fail(s, pos, 3, seq![']']);
    let e1 = ser_string(t.todo).len();
    let ld = ser_bool(t.isdone).len();
    let lp = ser_bool(t.ispriority).len();
    let e2 = ser_string(t.created_at).len();
    let e3 = ser_string(t.updated_at).len();
    assert(key_todo() =~= key_of(name_todo()));
    assert(key_isdone() =~= key_of(name_isdone()));
    assert(key_ispriority() =~= key_of(name_ispriority()));
    assert(key_created_at() =~= key_of(name_created_at()));
    assert(key_updated_at() =~= key_of(name_updated_at()));
    lemma_parse_field_string_at(s, pos + 4, name_todo(), t.todo);
    let b3 = pos + 17 + e1;
    lemma_starts_index(s, b3, comma_nl());
    assert(s[b3 + 0] == ',');
    assert(s[b3 + 1] == '\n');
    lemma_starts_one(s, b3, ',');
    lemma_tok_at(s, b3, 0, seq![',']);
    lemma_parse_field_bool_at(s, b3 + 1, name_isdone(), t.isdone);
    let b6 = b3 + 16 + ld;
    lemma_starts_index(s, b6, comma_nl());
    assert(s[b6 + 0] == ',');
    assert(s[b6 + 1] == '\n');
    lemma_starts_one(s, b6, ',');
    lemma_tok_at(s, b6, 0, seq![',']);
    lemma_parse_field_bool_at(s, b6 + 1, name_ispriority(), t.ispriority);
    let b9 = b6 + 20 + lp;
    lemma_starts_index(s, b9, comma_nl());
    assert(s[b9 + 0] == ',');
    assert(s[b9 + 1] == '\n');
    lemma_starts_one(s, b9, ',');
    lemma_tok_at(s, b9, 0, seq![',']);
    lemma_parse_field_string_at(s, b9 + 1, name_created_at(), t.created_at);
    let b12 = b9 + 20 + e2;
    lemma_starts_index(s, b12, comma_nl());
    assert(s[b12 + 0] == ',');
    assert(s[b12 + 1] == '\n');
    lemma_starts_one(s, b12, ',');
    lemma_tok_at(s, b12, 0, seq![',']);
    lemma_parse_field_string_at(s, b12 + 1, name_updated_at(), t.updated_at);
    let b15 = b12 + 20 + e3;
    lemma_starts_index(s, b15, obj_close());
    assert(s[b15 + 0] == '\n');
    assert(s[b15 + 1] == ' ');
    assert(s[b15 + 2] == ' ');
    assert(s[b15 + 3] == '}');
    assert forall|i: int| 0 <= i < 3 implies is_ws(#[trigger] s[b15 + i]) by {
        assert(s[b15 + 0] == '\n');
        assert(s[b15 + 1] == ' ');
        assert(s[b15 + 2] == ' ');
    }
    lemma_starts_one(s, b15 + 3, '}');
    lemma_tok_at(s, b15, 3, seq!['}']);
    assert(ser_task(t).len() == 4 + 12 + e1 + 2 + 14 + ld + 2 + 18 + lp + 2 + 18 + e2 + 2 + 18
        + e3 + 4);
}


/// Parsing the serialized tail of the list: zero or more `, task` groups and
/// the closing bracket.
proof fn lemma_parse_more_at(s: Seq<char>, pos: int, ts: Seq<TaskView>)
    requires
        0 <= pos,
        starts_with_at(s, pos, ser_tasks_rest(ts)),
        starts_with_at(s, pos + ser_tasks_rest(ts).len(), arr_close()),
    ensures
        parse_more(s, pos) == Some((ts, pos + ser_tasks_rest(ts).len() + 2)),
    decreases ts.len(),
{
    if ts.len() == 0 {
        assert(ser_tasks_rest(ts).len() == 0);
        lemma_starts_index(s, pos, arr_close());
        assert(s[pos + 0] == '\n');
        assert(s[pos + 1] == ']');
        lemma_starts_one(s, pos + 1, ']');
        assert forall|i: int| 0 <= i < 1 implies is_ws(#[trigger] s[pos + i]) by {
            assert(s[pos + 0] == '\n');
        }
        lemma_tok_at(s, pos, 1, seq![']']);
        assert(ts =~= Seq::<TaskView>::empty());
    } else {
        let t0 = ts[0];
        let rest = ts.drop_first();
        assert(ser_tasks_rest(ts) == comma_nl() + ser_task(t0) + ser_tasks_rest(rest));
        lemma_peel(s, pos, comma_nl() + ser_task(t0), ser_tasks_rest(rest));
        lemma_peel(s, pos, comma_nl(), ser_task(t0));
        lemma_starts_index(s, pos, comma_nl());
        assert(s[pos + 0] == ',');
        assert(s[pos + 1] == '\n');
        lemma_tok_fail(s, pos, 0, seq![']']);
        lemma_starts_one(s, pos, ',');
        lemma_tok_at(s, pos, 0, seq![',']);
        lemma_parse_task_at(s, pos + 1, t0);
        let p2 = pos + 2 + ser_task(t0).len() as int;
        assert(starts_with_at(s, p2, ser_tasks_rest(rest)));
        lemma_parse_more_at(s, p2, rest);
        assert(seq![t0] + rest =~= ts);
    }
}

/// The round trip: the serialized form of any task list parses back to
/// exactly that list, so a freshly loaded store reproduces the state that
/// was persisted.
#[verifier::rlimit(100)]
pub proof fn lemma_serialize_parse_round_trip(ts: Seq<TaskView>)
    ensures
        parse_tasks(ser_tasks(ts)) == Some(ts),
        spec_load(ser_tasks(ts)) == ts,
{
    let s = ser_tasks(ts);
    assert(s.subrange(0, s.len() as int) =~= s);
    assert(starts_with_at(s, 0, s));
    if ts.len() == 0 {
        lemma_starts_index(s, 0, s);
        assert(s[0] == '[');
        assert(s[1] == ']');
        lemma_starts_one(s, 0, '[');
        lemma_tok_at(s, 0, 0, seq!['[']);
        lemma_starts_one(s, 1, ']');
        lemma_tok_at(s, 1, 0, seq![']']);
        lemma_skip_ws_run(s, 2, 0);
        assert(ts =~= Seq::<TaskView>::empty());
    } else {
        let t0 = ts[0];
        let rest = ts.drop_first();
        lemma_peel(s, 0, arr_open() + ser_task(t0) + ser_tasks_rest(rest), arr_close());
        lemma_peel(s, 0, arr_open() + ser_task(t0), ser_tasks_rest(rest));
        lemma_peel(s, 0, arr_open(), ser_task(t0));
        lemma_starts_index(s, 0, arr_open());
        assert(s[0int + 0] == '[');
        assert(s[0int + 1] == '\n');
        lemma_starts_one(s, 0, '[');
        lemma_tok_at(s, 0, 0, seq!['[']);
        lemma_parse_task_at(s, 1, t0);
        let p2 = 2 + ser_task(t0).len() as int;
        lemma_parse_more_at(s, p2, rest);
        let p3 = p2 + ser_tasks_rest(rest).len() as int + 2;
        assert(p3 == s.len());
        lemma_skip_ws_run(s, p3, 0);
        assert(seq![t0] + rest =~= ts);
    }
}

} // verus!

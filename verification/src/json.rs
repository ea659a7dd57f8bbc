//! The wire format: JSON encoding of todos, todo lists, and the greeting.
//!
//! The encoding is fixed: objects carry the fields `id`, `title`, `completed`
//! in that order with no interior whitespace; titles are JSON strings whose
//! quote, backslash and control characters are escaped.

use vstd::prelude::*;
use vstd::string::StringExecFns;

use crate::strings::string_push;
use crate::todo::Todo;
use crate::todo::TodoView;

verus! {

/// The hexadecimal digit character for a value below 16, lower case.
pub open spec fn hex_char(d: int) -> char {
    if d == 0 {
        '0'
    } else if d == 1 {
        '1'
    } else if d == 2 {
        '2'
    } else if d == 3 {
        '3'
    } else if d == 4 {
        '4'
    } else if d == 5 {
        '5'
    } else if d == 6 {
        '6'
    } else if d == 7 {
        '7'
    } else if d == 8 {
        '8'
    } else if d == 9 {
        '9'
    } else if d == 10 {
        'a'
    } else if d == 11 {
        'b'
    } else if d == 12 {
        'c'
    } else if d == 13 {
        'd'
    } else if d == 14 {
        'e'
    } else {
        'f'
    }
}

/// The decimal digit character for a value below 10.
pub open spec fn digit_char(d: int) -> char {
    hex_char(if 0 <= d < 10 {
        d
    } else {
        0
    })
}

/// The decimal digits of a number, most significant first, no leading zeros
/// (a single `'0'` for zero).
pub open spec fn dec_digits(n: nat) -> Seq<char>
    decreases n,
{
    if n < 10 {
        seq![digit_char(n as int)]
    } else {
        dec_digits(n / 10).push(digit_char((n % 10) as int))
    }
}

/// How one character appears inside a JSON string: quote and backslash get a
/// backslash escape, the common control characters get their short escapes,
/// the remaining control characters a `\u00XX` escape, and every other
/// character stands for itself.
pub open spec fn escape_char(c: char) -> Seq<char> {
    if c == '"' {
        seq!['\\', '"']
    } else if c == '\\' {
        seq!['\\', '\\']
    } else if c == '\u{8}' {
        seq!['\\', 'b']
    } else if c == '\u{c}' {
        seq!['\\', 'f']
    } else if c == '\n' {
        seq!['\\', 'n']
    } else if c == '\r' {
        seq!['\\', 'r']
    } else if c == '\t' {
        seq!['\\', 't']
    } else if (c as u32) < 32 {
        seq!['\\', 'u', '0', '0', hex_char((c as u32) as int / 16), hex_char((c as u32) as int % 16)]
    } else {
        seq![c]
    }
}

/// The body of a JSON string: each character escaped as [`escape_char`] says.
pub open spec fn escape_string(s: Seq<char>) -> Seq<char>
    decreases s.len(),
{
    if s.len() == 0 {
        Seq::empty()
    } else {
        escape_char(s[0]) + escape_string(s.drop_first())
    }
}

/// A JSON string: the escaped body between quotes.
pub open spec fn json_of_string(s: Seq<char>) -> Seq<char> {
    seq!['"'] + escape_string(s) + seq!['"']
}

/// A JSON boolean.
pub open spec fn json_of_bool(b: bool) -> Seq<char> {
    if b {
        "true"@
    } else {
        "false"@
    }
}

/// The JSON object for one todo.
pub open spec fn json_of_todo(t: TodoView) -> Seq<char> {
    "{\"id\":"@ + dec_digits(t.id as nat) + ",\"title\":"@ + json_of_string(t.title)
        + ",\"completed\":"@ + json_of_bool(t.completed) + "}"@
}

/// The comma-separated todo objects inside a JSON array.
pub open spec fn json_of_todos_inner(ts: Seq<TodoView>) -> Seq<char>
    decreases ts.len(),
{
    if ts.len() == 0 {
        Seq::empty()
    } else if ts.len() == 1 {
        json_of_todo(ts[0])
    } else {
        json_of_todo(ts[0]) + seq![','] + json_of_todos_inner(ts.drop_first())
    }
}

/// The JSON array for a list of todos, in order.
pub open spec fn json_of_todos(ts: Seq<TodoView>) -> Seq<char> {
    seq!['['] + json_of_todos_inner(ts) + seq![']']
}

/// The greeting served at the root route.
pub open spec fn greeting_json() -> Seq<char> {
    "{\"message\":\"Hi\"}"@
}

/// Escaping a string one character longer appends that character's escape.
pub proof fn lemma_escape_string_snoc(s: Seq<char>, c: char)
    ensures
        escape_string(s.push(c)) == escape_string(s) + escape_char(c),
    decreases s.len(),
{
    if s.len() == 0 {
        assert(s.push(c).drop_first() =~= Seq::<char>::empty());
        assert(s.push(c)[0] == c);
        assert(escape_string(s.push(c)) == escape_char(c) + escape_string(
            Seq::<char>::empty(),
        ));
        assert(escape_char(c) + escape_string(Seq::<char>::empty()) =~= escape_char(c));
        assert(escape_string(s) + escape_char(c) =~= escape_char(c));
    } else {
        assert(s.push(c).drop_first() =~= s.drop_first().push(c));
        lemma_escape_string_snoc(s.drop_first(), c);
        assert(escape_string(s.push(c)) =~= escape_string(s) + escape_char(c));
    }
}

/// Appending a todo to a list appends its object (after a comma, when the
/// list was not empty) inside the array.
pub proof fn lemma_json_of_todos_inner_snoc(ts: Seq<TodoView>, t: TodoView)
    ensures
        json_of_todos_inner(ts.push(t)) == if ts.len() == 0 {
            json_of_todo(t)
        } else {
            json_of_todos_inner(ts) + seq![','] + json_of_todo(t)
        },
    decreases ts.len(),
{
    if ts.len() == 0 {
        assert(ts.push(t)[0] == t);
        assert(json_of_todos_inner(ts.push(t)) =~= json_of_todo(t));
    } else {
        assert(ts.push(t).drop_first() =~= ts.drop_first().push(t));
        lemma_json_of_todos_inner_snoc(ts.drop_first(), t);
        if ts.len() == 1 {
            assert(json_of_todos_inner(ts.push(t)) =~= json_of_todos_inner(ts) + seq![',']
                + json_of_todo(t));
        } else {
            assert(json_of_todos_inner(ts.push(t)) =~= json_of_todos_inner(ts) + seq![',']
                + json_of_todo(t));
        }
    }
}

/// An empty list encodes as the empty JSON array.
pub proof fn lemma_json_of_todos_empty()
    ensures
        json_of_todos(Seq::<TodoView>::empty()) == "[]"@,
{
    reveal_strlit("[]");
    assert(json_of_todos(Seq::<TodoView>::empty()) =~= "[]"@);
}

/// A sequence reversed after a push starts with the pushed element.
proof fn lemma_reverse_push(s: Seq<char>, c: char)
    ensures
        s.push(c).reverse() == seq![c] + s.reverse(),
{
    assert(s.push(c).reverse() =~= seq![c] + s.reverse());
}

/// Appends the escape of one character.
fn push_escaped_char(out: &mut String, c: char)
    ensures
        final(out)@ == old(out)@ + escape_char(c),
{
    if c == '"' {
        string_push(out, '\\');
        string_push(out, '"');
    } else if c == '\\' {
        string_push(out, '\\');
        string_push(out, '\\');
    } else if c == '\u{8}' {
        string_push(out, '\\');
        string_push(out, 'b');
    } else if c == '\u{c}' {
        string_push(out, '\\');
        string_push(out, 'f');
    } else if c == '\n' {
        string_push(out, '\\');
        string_push(out, 'n');
    } else if c == '\r' {
        string_push(out, '\\');
        string_push(out, 'r');
    } else if c == '\t' {
        string_push(out, '\\');
        string_push(out, 't');
    } else if (c as u32) < 32 {
        let v = c as u32;
        string_push(out, '\\');
        string_push(out, 'u');
        string_push(out, '0');
        string_push(out, '0');
        push_hex_char(out, (v / 16) as u8);
        push_hex_char(out, (v % 16) as u8);
    } else {
        string_push(out, c);
    }
    proof {
        assert(final(out)@ =~= old(out)@ + escape_char(c));
    }
}

/// Appends one hexadecimal digit character.
fn push_hex_char(out: &mut String, d: u8)
    requires
        d < 16,
    ensures
        final(out)@ == old(out)@.push(hex_char(d as int)),
{
    let c: char = if d == 0 {
        '0'
    } else if d == 1 {
        '1'
    } else if d == 2 {
        '2'
    } else if d == 3 {
        '3'
    } else if d == 4 {
        '4'
    } else if d == 5 {
        '5'
    } else if d == 6 {
        '6'
    } else if d == 7 {
        '7'
    } else if d == 8 {
        '8'
    } else if d == 9 {
        '9'
    } else if d == 10 {
        'a'
    } else if d == 11 {
        'b'
    } else if d == 12 {
        'c'
    } else if d == 13 {
        'd'
    } else if d == 14 {
        'e'
    } else {
        'f'
    };
    string_push(out, c);
}

/// Appends a string in its JSON form: quoted, with the body escaped.
pub fn encode_string_into(out: &mut String, s: &str)
    ensures
        final(out)@ == old(out)@ + json_of_string(s@),
{
    string_push(out, '"');
    let chars = crate::strings::str_to_chars(s);
    let n = chars.len();
    for i in 0..n
        invariant
            n == chars.len(),
            chars@ == s@,
            out@ == old(out)@ + seq!['"'] + escape_string(s@.take(i as int)),
    {
        push_escaped_char(out, chars[i]);
        proof {
            assert(s@.take(i + 1).drop_last() =~= s@.take(i as int));
            assert(s@.take(i + 1) =~= s@.take(i as int).push(s@[i as int]));
            lemma_escape_string_snoc(s@.take(i as int), s@[i as int]);
        }
    }
    string_push(out, '"');
    proof {
        assert(s@.take(n as int) =~= s@);
        assert(final(out)@ =~= old(out)@ + json_of_string(s@));
    }
}

/// Appends a number in decimal, most significant digit first.
pub fn encode_u64_into(out: &mut String, n: u64)
    ensures
        final(out)@ == old(out)@ + dec_digits(n as nat),
{
    let mut digits: Vec<char> = Vec::new();
    let mut m: u64 = n;
    let d0: u8 = (m % 10) as u8;
    push_digit(&mut digits, d0);
    proof {
        assert(digits@.reverse() =~= seq![digit_char((n as nat % 10) as int)]);
    }
    m = m / 10;
    while m > 0
        invariant
            digits@.len() >= 1,
            m == 0 ==> dec_digits(n as nat) == digits@.reverse(),
            m > 0 ==> dec_digits(n as nat) == dec_digits(m as nat) + digits@.reverse(),
        decreases m,
    {
        let ghost pre_m = m as nat;
        let ghost pre_digits = digits@;
        let d: u8 = (m % 10) as u8;
        push_digit(&mut digits, d);
        m = m / 10;
        proof {
            lemma_reverse_push(pre_digits, digit_char((pre_m % 10) as int));
            if pre_m < 10 {
                assert(dec_digits(pre_m) =~= seq![digit_char(pre_m as int)]);
                assert(dec_digits(n as nat) =~= digits@.reverse());
            } else {
                assert(dec_digits(pre_m) == dec_digits(pre_m / 10).push(
                    digit_char((pre_m % 10) as int),
                ));
                assert(dec_digits(m as nat) + digits@.reverse() =~= dec_digits(pre_m)
                    + pre_digits.reverse());
                assert(dec_digits(n as nat) =~= dec_digits(m as nat) + digits@.reverse());
            }
        }
    }
    let len = digits.len();
    for i in 0..len
        invariant
            len == digits@.len(),
            dec_digits(n as nat) == digits@.reverse(),
            out@ == old(out)@ + digits@.reverse().take(i as int),
    {
        string_push(out, digits[len - 1 - i]);
        proof {
            assert(digits@.reverse()[i as int] == digits@[len - 1 - i]);
            assert(digits@.reverse().take(i + 1) =~= digits@.reverse().take(i as int).push(
                digits@.reverse()[i as int],
            ));
            assert(out@ =~= old(out)@ + digits@.reverse().take(i + 1));
        }
    }
    proof {
        assert(digits@.reverse().take(len as int) =~= digits@.reverse());
    }
}

/// Appends one decimal digit character.
fn push_digit(digits: &mut Vec<char>, d: u8)
    requires
        d < 10,
    ensures
        final(digits)@ == old(digits)@.push(digit_char(d as int)),
{
    let c: char = if d == 0 {
        '0'
    } else if d == 1 {
        '1'
    } else if d == 2 {
        '2'
    } else if d == 3 {
        '3'
    } else if d == 4 {
        '4'
    } else if d == 5 {
        '5'
    } else if d == 6 {
        '6'
    } else if d == 7 {
        '7'
    } else if d == 8 {
        '8'
    } else {
        '9'
    };
    digits.push(c);
}

/// Appends the JSON object for one todo.
pub fn encode_todo_into(out: &mut String, t: &Todo)
    ensures
        final(out)@ == old(out)@ + json_of_todo(t@),
{
    out.append("{\"id\":");
    encode_u64_into(out, t.id);
    out.append(",\"title\":");
    encode_string_into(out, t.title.as_str());
    out.append(",\"completed\":");
    if t.completed {
        out.append("true");
    } else {
        out.append("false");
    }
    out.append("}");
    proof {
        assert(final(out)@ =~= old(out)@ + json_of_todo(t@));
    }
}

/// The JSON object for one todo.
pub fn encode_todo(t: &Todo) -> (r: String)
    ensures
        r@ == json_of_todo(t@),
{
    let mut out = String::new();
    encode_todo_into(&mut out, t);
    proof {
        assert(out@ =~= json_of_todo(t@));
    }
    out
}

/// The JSON array for a list of todos, in order.
pub fn encode_todos(ts: &Vec<Todo>) -> (r: String)
    ensures
        r@ == json_of_todos(ts@.map_values(|t: Todo| t@)),
{
    let mut out = String::new();
    string_push(&mut out, '[');
    let n = ts.len();
    for i in 0..n
        invariant
            n == ts@.len(),
            out@ == seq!['['] + json_of_todos_inner(ts@.map_values(|t: Todo| t@).take(i as int)),
    {
        if i > 0 {
            string_push(&mut out, ',');
        }
        encode_todo_into(&mut out, &ts[i]);
        proof {
            let views = ts@.map_values(|t: Todo| t@);
            assert(views.take(i + 1) =~= views.take(i as int).push(views[i as int]));
            lemma_json_of_todos_inner_snoc(views.take(i as int), views[i as int]);
            assert(views[i as int] == ts@[i as int]@);
            assert(out@ =~= seq!['['] + json_of_todos_inner(views.take(i + 1)));
        }
    }
    string_push(&mut out, ']');
    proof {
        let views = ts@.map_values(|t: Todo| t@);
        assert(views.take(n as int) =~= views);
        assert(out@ =~= json_of_todos(views));
    }
    out
}

/// The greeting body served at the root route.
pub fn encode_greeting() -> (r: String)
    ensures
        r@ == greeting_json(),
{
    let mut out = String::new();
    out.append("{\"message\":\"Hi\"}");
    proof {
        assert(out@ =~= greeting_json());
    }
    out
}

} // verus!

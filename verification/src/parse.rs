//! The wire-format grammar, reading side: a JSON parser sufficient for the
//! create request `{"title": <string>}` (other members are parsed and
//! ignored) and for the canonical todo object the encoder produces.
//!
//! The grammar is stated as spec functions that consume a character sequence
//! from the front; executable parsers are proved to return exactly what these
//! functions say. Object and array parsing carries a fuel bound that falls
//! only after a completed member or element; since every member or element
//! occupies at least one character, a starting fuel of the input length never
//! runs out, whatever the input.

use vstd::prelude::*;

use crate::strings::char_from_u32;
use crate::strings::string_push;

verus! {

/// JSON whitespace.
pub open spec fn is_ws(c: char) -> bool {
    c == ' ' || c == '\t' || c == '\n' || c == '\r'
}

/// The given sequence without its leading whitespace.
pub open spec fn skip_ws(s: Seq<char>) -> Seq<char>
    decreases s.len(),
{
    if s.len() > 0 && is_ws(s[0]) {
        skip_ws(s.drop_first())
    } else {
        s
    }
}

/// Skipping whitespace never lengthens the input.
pub proof fn lemma_skip_ws_len(s: Seq<char>)
    ensures
        skip_ws(s).len() <= s.len(),
    decreases s.len(),
{
    if s.len() > 0 && is_ws(s[0]) {
        lemma_skip_ws_len(s.drop_first());
    }
}

/// A decimal digit character.
pub open spec fn is_digit(c: char) -> bool {
    48 <= c as u32 <= 57
}

/// The value of a decimal digit character.
pub open spec fn digit_val(c: char) -> int {
    c as u32 - 48
}

/// The value of a hexadecimal digit character, or -1 for any other character.
pub open spec fn hex_val(c: char) -> int {
    if is_digit(c) {
        digit_val(c)
    } else if 97 <= c as u32 <= 102 {  // 'a' ..= 'f'
        c as u32 - 87
    } else if 65 <= c as u32 <= 70 {  // 'A' ..= 'F'
        c as u32 - 55
    } else {
        -1
    }
}

/// The value of four hexadecimal digit characters, or -1 when one is not a
/// hexadecimal digit.
pub open spec fn hex4_val(s: Seq<char>) -> int {
    if s.len() >= 4 && hex_val(s[0]) >= 0 && hex_val(s[1]) >= 0 && hex_val(s[2]) >= 0 && hex_val(
        s[3],
    ) >= 0 {
        hex_val(s[0]) * 4096 + hex_val(s[1]) * 256 + hex_val(s[2]) * 16 + hex_val(s[3])
    } else {
        -1
    }
}

/// A Unicode scalar value: what a `char` can hold.
pub open spec fn is_unicode_scalar(v: int) -> bool {
    0 <= v < 0xD800 || 0xE000 <= v <= 0x10FFFF
}

/// The character a single-character string escape stands for.
pub open spec fn simple_unescape(c: char) -> Option<char> {
    if c == '"' {
        Some('"')
    } else if c == '\\' {
        Some('\\')
    } else if c == '/' {
        Some('/')
    } else if c == 'b' {
        Some('\u{8}')
    } else if c == 'f' {
        Some('\u{c}')
    } else if c == 'n' {
        Some('\n')
    } else if c == 'r' {
        Some('\r')
    } else if c == 't' {
        Some('\t')
    } else {
        None
    }
}

/// Parses the body of a JSON string, after its opening quote: the decoded
/// characters up to the closing quote, and what follows the closing quote.
/// Unescaped control characters and bad escapes are rejected; a `\uXXXX`
/// escape must denote a Unicode scalar value (surrogate pairs are not
/// accepted).
pub open spec fn parse_string_body(s: Seq<char>) -> Option<(Seq<char>, Seq<char>)>
    decreases s.len(),
{
    if s.len() == 0 {
        None
    } else if s[0] == '"' {
        Some((Seq::empty(), s.drop_first()))
    } else if s[0] == '\\' {
        if s.len() >= 2 && s[1] == 'u' {
            if s.len() >= 6 && hex4_val(s.subrange(2, 6)) >= 0 && is_unicode_scalar(
                hex4_val(s.subrange(2, 6)),
            ) {
                match parse_string_body(s.skip(6)) {
                    Some((t, rest)) => Some(
                        (seq![(hex4_val(s.subrange(2, 6)) as u32) as char] + t, rest),
                    ),
                    None => None,
                }
            } else {
                None
            }
        } else if s.len() >= 2 {
            match simple_unescape(s[1]) {
                Some(c) => match parse_string_body(s.skip(2)) {
                    Some((t, rest)) => Some((seq![c] + t, rest)),
                    None => None,
                },
                None => None,
            }
        } else {
            None
        }
    } else if (s[0] as u32) < 32 {
        None
    } else {
        match parse_string_body(s.drop_first()) {
            Some((t, rest)) => Some((seq![s[0]] + t, rest)),
            None => None,
        }
    }
}

/// What a successful string-body parse leaves behind is strictly shorter than
/// its input: at least the closing quote is consumed.
pub proof fn lemma_parse_string_body_len(s: Seq<char>)
    ensures
        parse_string_body(s) matches Some((t, rest)) ==> rest.len() < s.len(),
    decreases s.len(),
{
    if s.len() == 0 {
    } else if s[0] == '"' {
    } else if s[0] == '\\' {
        if s.len() >= 2 && s[1] == 'u' {
            if s.len() >= 6 && hex4_val(s.subrange(2, 6)) >= 0 && is_unicode_scalar(
                hex4_val(s.subrange(2, 6)),
            ) {
                lemma_parse_string_body_len(s.skip(6));
            }
        } else if s.len() >= 2 {
            lemma_parse_string_body_len(s.skip(2));
        }
    } else {
        lemma_parse_string_body_len(s.drop_first());
    }
}

/// The length of the leading run of decimal digit characters.
pub open spec fn digit_run(s: Seq<char>) -> int
    decreases s.len(),
{
    if s.len() > 0 && is_digit(s[0]) {
        1 + digit_run(s.drop_first())
    } else {
        0
    }
}

/// The digit run is an initial segment of the input, and is nonempty exactly
/// when the input starts with a digit.
pub proof fn lemma_digit_run_len(s: Seq<char>)
    ensures
        0 <= digit_run(s) <= s.len(),
        s.len() > 0 && is_digit(s[0]) ==> digit_run(s) >= 1,
    decreases s.len(),
{
    if s.len() > 0 && is_digit(s[0]) {
        lemma_digit_run_len(s.drop_first());
    }
}

/// Parses the integer part of a JSON number: a single `0`, or a nonzero
/// digit followed by more digits. Returns what follows.
pub open spec fn parse_int_part(s: Seq<char>) -> Option<Seq<char>> {
    if s.len() > 0 && s[0] == '0' {
        Some(s.drop_first())
    } else if s.len() > 0 && is_digit(s[0]) {
        Some(s.skip(digit_run(s)))
    } else {
        None
    }
}

/// Parses an optional fraction part: a dot must be followed by at least one
/// digit; without a dot nothing is consumed.
pub open spec fn parse_frac(s: Seq<char>) -> Option<Seq<char>> {
    if s.len() > 0 && s[0] == '.' {
        if s.len() >= 2 && is_digit(s[1]) {
            Some(s.drop_first().skip(digit_run(s.drop_first())))
        } else {
            None
        }
    } else {
        Some(s)
    }
}

/// Parses an optional exponent part: `e` or `E`, an optional sign, then at
/// least one digit; without an exponent marker nothing is consumed.
pub open spec fn parse_exp(s: Seq<char>) -> Option<Seq<char>> {
    if s.len() > 0 && (s[0] == 'e' || s[0] == 'E') {
        let t = if s.len() >= 2 && (s[1] == '+' || s[1] == '-') {
            s.skip(2)
        } else {
            s.drop_first()
        };
        if t.len() > 0 && is_digit(t[0]) {
            Some(t.skip(digit_run(t)))
        } else {
            None
        }
    } else {
        Some(s)
    }
}

/// Parses a JSON number: optional minus sign, integer part, optional
/// fraction, optional exponent. Returns what follows.
pub open spec fn parse_number(s: Seq<char>) -> Option<Seq<char>> {
    let s1 = if s.len() > 0 && s[0] == '-' {
        s.drop_first()
    } else {
        s
    };
    match parse_int_part(s1) {
        Some(s2) => match parse_frac(s2) {
            Some(s3) => parse_exp(s3),
            None => None,
        },
        None => None,
    }
}

/// A successful number parse consumes at least one character.
pub proof fn lemma_parse_number_len(s: Seq<char>)
    ensures
        parse_number(s) matches Some(rest) ==> rest.len() < s.len(),
{
    let s1 = if s.len() > 0 && s[0] == '-' {
        s.drop_first()
    } else {
        s
    };
    lemma_digit_run_len(s1);
    match parse_int_part(s1) {
        Some(s2) => {
            assert(s2.len() < s1.len());
            if s2.len() > 0 {
                lemma_digit_run_len(s2.drop_first());
            }
            match parse_frac(s2) {
                Some(s3) => {
                    assert(s3.len() <= s2.len());
                    if s3.len() > 0 && (s3[0] == 'e' || s3[0] == 'E') {
                        let t = if s3.len() >= 2 && (s3[1] == '+' || s3[1] == '-') {
                            s3.skip(2)
                        } else {
                            s3.drop_first()
                        };
                        lemma_digit_run_len(t);
                    }
                },
                None => {},
            }
        },
        None => {},
    }
}

/// Parses one JSON value starting at the first character of the input
/// (callers skip leading whitespace): a string, number, literal, object or
/// array. Returns what follows the value. The fuel falls by one for each
/// completed object member or array element; parsing fails if it reaches
/// zero.
pub open spec fn parse_value(s: Seq<char>, fuel: nat) -> Option<Seq<char>>
    decreases fuel, s.len(), 0int,
{
    if s.len() == 0 {
        None
    } else if s[0] == '"' {
        match parse_string_body(s.drop_first()) {
            Some((t, rest)) => Some(rest),
            None => None,
        }
    } else if s[0] == '-' || is_digit(s[0]) {
        parse_number(s)
    } else if s[0] == 't' {
        if s.len() >= 4 && s[1] == 'r' && s[2] == 'u' && s[3] == 'e' {
            Some(s.skip(4))
        } else {
            None
        }
    } else if s[0] == 'f' {
        if s.len() >= 5 && s[1] == 'a' && s[2] == 'l' && s[3] == 's' && s[4] == 'e' {
            Some(s.skip(5))
        } else {
            None
        }
    } else if s[0] == 'n' {
        if s.len() >= 4 && s[1] == 'u' && s[2] == 'l' && s[3] == 'l' {
            Some(s.skip(4))
        } else {
            None
        }
    } else if s[0] == '{' {
        match parse_members(s.drop_first(), true, None, fuel) {
            Some((acc, rest)) => Some(rest),
            None => None,
        }
    } else if s[0] == '[' {
        parse_elements(s.drop_first(), true, fuel)
    } else {
        None
    }
}

/// Parses the members of an object, after the opening brace (`first` true) or
/// after a comma (`first` false). `acc` carries the title found so far: the
/// value under a `"title"` key must be a string and may come only once; other
/// members are parsed and ignored. Returns the title and what follows the
/// closing brace.
pub open spec fn parse_members(s: Seq<char>, first: bool, acc: Option<Seq<char>>, fuel: nat) -> Option<
    (Option<Seq<char>>, Seq<char>),
>
    decreases fuel, s.len(), 1int,
    via parse_members_dec
{
    let s1 = skip_ws(s);
    if s1.len() == 0 {
        None
    } else if first && s1[0] == '}' {
        Some((acc, s1.drop_first()))
    } else if s1[0] != '"' {
        None
    } else {
        match parse_string_body(s1.drop_first()) {
            None => None,
            Some((key, s2)) => {
                let s3 = skip_ws(s2);
                if s3.len() == 0 || s3[0] != ':' {
                    None
                } else {
                    let s4 = skip_ws(s3.drop_first());
                    if key == "title"@ {
                        if acc is Some {
                            None
                        } else if s4.len() > 0 && s4[0] == '"' {
                            match parse_string_body(s4.drop_first()) {
                                None => None,
                                Some((val, s5)) => if fuel == 0 {
                                    None
                                } else {
                                    parse_members_tail(s5, Some(val), (fuel - 1) as nat)
                                },
                            }
                        } else {
                            None
                        }
                    } else {
                        match parse_value(s4, fuel) {
                            None => None,
                            Some(s5) => if fuel == 0 {
                                None
                            } else {
                                parse_members_tail(s5, acc, (fuel - 1) as nat)
                            },
                        }
                    }
                }
            },
        }
    }
}

#[via_fn]
proof fn parse_members_dec(s: Seq<char>, first: bool, acc: Option<Seq<char>>, fuel: nat) {
    lemma_skip_ws_len(s);
    let s1 = skip_ws(s);
    if s1.len() > 0 {
        lemma_parse_string_body_len(s1.drop_first());
        match parse_string_body(s1.drop_first()) {
            None => {},
            Some((key, s2)) => {
                lemma_skip_ws_len(s2);
                let s3 = skip_ws(s2);
                if s3.len() > 0 {
                    lemma_skip_ws_len(s3.drop_first());
                }
            },
        }
    }
}

/// Parses what follows a completed object member: the closing brace ends the
/// object, a comma starts the next member.
pub open spec fn parse_members_tail(s: Seq<char>, acc: Option<Seq<char>>, fuel: nat) -> Option<
    (Option<Seq<char>>, Seq<char>),
>
    decreases fuel, s.len(), 0int,
    via parse_members_tail_dec
{
    let s1 = skip_ws(s);
    if s1.len() == 0 {
        None
    } else if s1[0] == '}' {
        Some((acc, s1.drop_first()))
    } else if s1[0] == ',' {
        parse_members(s1.drop_first(), false, acc, fuel)
    } else {
        None
    }
}

#[via_fn]
proof fn parse_members_tail_dec(s: Seq<char>, acc: Option<Seq<char>>, fuel: nat) {
    lemma_skip_ws_len(s);
}

/// Parses the elements of an array, after the opening bracket (`first` true)
/// or after a comma (`first` false). Elements are parsed and ignored. Returns
/// what follows the closing bracket.
pub open spec fn parse_elements(s: Seq<char>, first: bool, fuel: nat) -> Option<Seq<char>>
    decreases fuel, s.len(), 1int,
    via parse_elements_dec
{
    let s1 = skip_ws(s);
    if s1.len() == 0 {
        None
    } else if first && s1[0] == ']' {
        Some(s1.drop_first())
    } else {
        match parse_value(s1, fuel) {
            None => None,
            Some(s2) => if fuel == 0 {
                None
            } else {
                parse_elements_tail(s2, (fuel - 1) as nat)
            },
        }
    }
}

#[via_fn]
proof fn parse_elements_dec(s: Seq<char>, first: bool, fuel: nat) {
    lemma_skip_ws_len(s);
}

/// Parses what follows a completed array element: the closing bracket ends
/// the array, a comma starts the next element.
pub open spec fn parse_elements_tail(s: Seq<char>, fuel: nat) -> Option<Seq<char>>
    decreases fuel, s.len(), 0int,
    via parse_elements_tail_dec
{
    let s1 = skip_ws(s);
    if s1.len() == 0 {
        None
    } else if s1[0] == ']' {
        Some(s1.drop_first())
    } else if s1[0] == ',' {
        parse_elements(s1.drop_first(), false, fuel)
    } else {
        None
    }
}

#[via_fn]
proof fn parse_elements_tail_dec(s: Seq<char>, fuel: nat) {
    lemma_skip_ws_len(s);
}

/// Decodes a create request: the input must be one JSON object, surrounded
/// only by whitespace, holding a `"title"` member with a string value; other
/// members are ignored. Returns the decoded title, or `None` when the input
/// is not such an object.
pub open spec fn parse_create_spec(s: Seq<char>) -> Option<Seq<char>> {
    let s1 = skip_ws(s);
    if s1.len() == 0 || s1[0] != '{' {
        None
    } else {
        match parse_members(s1.drop_first(), true, None, s.len()) {
            None => None,
            Some((acc, rest)) => if skip_ws(rest).len() == 0 {
                acc
            } else {
                None
            },
        }
    }
}

/// Advances past leading whitespace.
fn skip_ws_exec(cs: &Vec<char>, i: usize) -> (j: usize)
    requires
        i <= cs@.len(),
    ensures
        i <= j <= cs@.len(),
        cs@.skip(j as int) == skip_ws(cs@.skip(i as int)),
{
    let len = cs.len();
    let mut j = i;
    loop
        invariant
            i <= j <= len,
            len == cs@.len(),
            skip_ws(cs@.skip(i as int)) == skip_ws(cs@.skip(j as int)),
        decreases len - j,
    {
        if j == len {
            proof {
                assert(skip_ws(cs@.skip(j as int)) == cs@.skip(j as int));
            }
            return j;
        }
        let c = cs[j];
        proof {
            assert(cs@.skip(j as int)[0] == cs@[j as int]);
        }
        if !(c == ' ' || c == '\t' || c == '\n' || c == '\r') {
            proof {
                assert(skip_ws(cs@.skip(j as int)) == cs@.skip(j as int));
            }
            return j;
        }
        proof {
            assert(cs@.skip(j as int).drop_first() =~= cs@.skip(j + 1));
        }
        j = j + 1;
    }
}

/// The value of a hexadecimal digit character, or -1.
fn hex_val_exec(c: char) -> (v: i8)
    ensures
        v as int == hex_val(c),
{
    let u = c as u32;
    if 48 <= u && u <= 57 {
        (u - 48) as i8
    } else if 97 <= u && u <= 102 {
        (u - 87) as i8
    } else if 65 <= u && u <= 70 {
        (u - 55) as i8
    } else {
        -1
    }
}

/// The character a single-character string escape stands for.
fn simple_unescape_exec(c: char) -> (r: Option<char>)
    ensures
        r == simple_unescape(c),
{
    if c == '"' {
        Some('"')
    } else if c == '\\' {
        Some('\\')
    } else if c == '/' {
        Some('/')
    } else if c == 'b' {
        Some('\u{8}')
    } else if c == 'f' {
        Some('\u{c}')
    } else if c == 'n' {
        Some('\n')
    } else if c == 'r' {
        Some('\r')
    } else if c == 't' {
        Some('\t')
    } else {
        None
    }
}

/// Reads a string body from the given position (just past the opening
/// quote), returning the decoded string and the position just past the
/// closing quote.
pub(crate) fn parse_string_body_exec(cs: &Vec<char>, i: usize) -> (r: Option<(String, usize)>)
    requires
        i <= cs@.len(),
    ensures
        match r {
            Some((t, j)) => i <= j <= cs@.len() && parse_string_body(cs@.skip(i as int)) == Some(
                (t@, cs@.skip(j as int)),
            ),
            None => parse_string_body(cs@.skip(i as int)) is None,
        },
{
    let len = cs.len();
    let mut acc = String::new();
    let mut k = i;
    loop
        invariant
            i <= k <= len,
            len == cs@.len(),
            parse_string_body(cs@.skip(i as int)) == (match parse_string_body(
                cs@.skip(k as int),
            ) {
                Some((t, rest)) => Some((acc@ + t, rest)),
                None => None::<(Seq<char>, Seq<char>)>,
            }),
        decreases len - k,
    {
        let ghost s = cs@.skip(k as int);
        proof {
            assert(s.len() == len - k);
            if s.len() > 0 {
                assert(s[0] == cs@[k as int]);
            }
        }
        if k == len {
            return None;
        }
        let c = cs[k];
        if c == '"' {
            proof {
                assert(s.drop_first() =~= cs@.skip(k + 1));
                assert(acc@ + Seq::<char>::empty() =~= acc@);
            }
            return Some((acc, k + 1));
        } else if c == '\\' {
            proof {
                if s.len() >= 2 {
                    assert(s[1] == cs@[k + 1]);
                }
            }
            if k + 1 == len {
                return None;
            }
            let c1 = cs[k + 1];
            if c1 == 'u' {
                proof {
                    if s.len() >= 6 {
                        assert(s.subrange(2, 6) =~= seq![
                            cs@[k + 2],
                            cs@[k + 3],
                            cs@[k + 4],
                            cs@[k + 5],
                        ]);
                    }
                }
                if len - k < 6 {
                    return None;
                }
                let h0 = hex_val_exec(cs[k + 2]);
                let h1 = hex_val_exec(cs[k + 3]);
                let h2 = hex_val_exec(cs[k + 4]);
                let h3 = hex_val_exec(cs[k + 5]);
                if h0 < 0 || h1 < 0 || h2 < 0 || h3 < 0 {
                    return None;
                }
                let v: u32 = (h0 as u32) * 4096 + (h1 as u32) * 256 + (h2 as u32) * 16 + (
                h3 as u32);
                proof {
                    assert(v as int == hex4_val(s.subrange(2, 6)));
                }
                match char_from_u32(v) {
                    None => {
                        return None;
                    },
                    Some(e) => {
                        let ghost pre_acc = acc@;
                        string_push(&mut acc, e);
                        proof {
                            assert(s.skip(6) =~= cs@.skip(k + 6));
                            assert forall|t: Seq<char>|
                                #[trigger] (pre_acc.push(e) + t) =~= pre_acc + (seq![e] + t) by {}
                        }
                        k = k + 6;
                    },
                }
            } else {
                match simple_unescape_exec(c1) {
                    None => {
                        return None;
                    },
                    Some(e) => {
                        let ghost pre_acc = acc@;
                        string_push(&mut acc, e);
                        proof {
                            assert(s.skip(2) =~= cs@.skip(k + 2));
                            assert forall|t: Seq<char>|
                                #[trigger] (pre_acc.push(e) + t) =~= pre_acc + (seq![e] + t) by {}
                        }
                        k = k + 2;
                    },
                }
            }
        } else if (c as u32) < 32 {
            return None;
        } else {
            let ghost pre_acc = acc@;
            string_push(&mut acc, c);
            proof {
                assert(s.drop_first() =~= cs@.skip(k + 1));
                assert forall|t: Seq<char>|
                    #[trigger] (pre_acc.push(c) + t) =~= pre_acc + (seq![c] + t) by {}
            }
            k = k + 1;
        }
    }
}

/// Whether a character is a decimal digit.
fn is_digit_exec(c: char) -> (r: bool)
    ensures
        r == is_digit(c),
{
    let u = c as u32;
    48 <= u && u <= 57
}

/// Advances past the leading run of decimal digits.
pub(crate) fn digit_run_exec(cs: &Vec<char>, i: usize) -> (j: usize)
    requires
        i <= cs@.len(),
    ensures
        i <= j <= cs@.len(),
        j - i == digit_run(cs@.skip(i as int)),
{
    let len = cs.len();
    let mut j = i;
    loop
        invariant
            i <= j <= len,
            len == cs@.len(),
            digit_run(cs@.skip(i as int)) == (j - i) + digit_run(cs@.skip(j as int)),
        decreases len - j,
    {
        if j == len {
            return j;
        }
        let c = cs[j];
        proof {
            assert(cs@.skip(j as int)[0] == cs@[j as int]);
        }
        if !is_digit_exec(c) {
            return j;
        }
        proof {
            assert(cs@.skip(j as int).drop_first() =~= cs@.skip(j + 1));
        }
        j = j + 1;
    }
}

/// Reads a JSON number from the given position, returning the position just
/// past it.
#[verifier::rlimit(60)]
fn parse_number_exec(cs: &Vec<char>, i: usize) -> (r: Option<usize>)
    requires
        i <= cs@.len(),
    ensures
        match r {
            Some(j) => i <= j <= cs@.len() && parse_number(cs@.skip(i as int)) == Some(
                cs@.skip(j as int),
            ),
            None => parse_number(cs@.skip(i as int)) is None,
        },
{
    let len = cs.len();
    let ghost s = cs@.skip(i as int);
    proof {
        if s.len() > 0 {
            assert(s[0] == cs@[i as int]);
        }
    }
    let p1 = if i < len && cs[i] == '-' {
        proof {
            assert(s.drop_first() =~= cs@.skip(i + 1));
        }
        i + 1
    } else {
        i
    };
    let ghost s1 = cs@.skip(p1 as int);
    proof {
        if s1.len() > 0 {
            assert(s1[0] == cs@[p1 as int]);
        }
    }
    if p1 == len {
        return None;
    }
    let c1 = cs[p1];
    let p2: usize = if c1 == '0' {
        proof {
            assert(s1.drop_first() =~= cs@.skip(p1 + 1));
        }
        p1 + 1
    } else if is_digit_exec(c1) {
        let j = digit_run_exec(cs, p1);
        proof {
            assert(s1.skip(digit_run(s1)) =~= cs@.skip(j as int));
        }
        j
    } else {
        return None;
    };
    let ghost s2 = cs@.skip(p2 as int);
    proof {
        assert(parse_int_part(s1) == Some(s2));
        if s2.len() > 0 {
            assert(s2[0] == cs@[p2 as int]);
        }
        if s2.len() >= 2 {
            assert(s2[1] == cs@[p2 + 1]);
        }
    }
    let p3: usize = if p2 < len && cs[p2] == '.' {
        if p2 + 1 < len && is_digit_exec(cs[p2 + 1]) {
            proof {
                assert(s2.drop_first() =~= cs@.skip(p2 + 1));
            }
            let j = digit_run_exec(cs, p2 + 1);
            proof {
                assert(s2.drop_first().skip(digit_run(s2.drop_first())) =~= cs@.skip(j as int));
            }
            j
        } else {
            return None;
        }
    } else {
        p2
    };
    let ghost s3 = cs@.skip(p3 as int);
    proof {
        assert(parse_frac(s2) == Some(s3));
        if s3.len() > 0 {
            assert(s3[0] == cs@[p3 as int]);
        }
        if s3.len() >= 2 {
            assert(s3[1] == cs@[p3 + 1]);
        }
    }
    if p3 < len && (cs[p3] == 'e' || cs[p3] == 'E') {
        let q: usize = if p3 + 1 < len && (cs[p3 + 1] == '+' || cs[p3 + 1] == '-') {
            proof {
                assert(s3.skip(2) =~= cs@.skip(p3 + 2));
            }
            p3 + 2
        } else {
            proof {
                assert(s3.drop_first() =~= cs@.skip(p3 + 1));
            }
            p3 + 1
        };
        let ghost t = cs@.skip(q as int);
        proof {
            if t.len() > 0 {
                assert(t[0] == cs@[q as int]);
            }
        }
        if q < len && is_digit_exec(cs[q]) {
            let j = digit_run_exec(cs, q);
            proof {
                assert(t.skip(digit_run(t)) =~= cs@.skip(j as int));
            }
            Some(j)
        } else {
            None
        }
    } else {
        Some(p3)
    }
}

/// The character sequence an optional string holds.
pub open spec fn view_opt(o: Option<String>) -> Option<Seq<char>> {
    match o {
        Some(s) => Some(s@),
        None => None,
    }
}

/// Reads one JSON value from the given position (no leading whitespace),
/// returning the position just past it.
fn parse_value_exec(cs: &Vec<char>, i: usize, fuel: usize) -> (r: Option<usize>)
    requires
        i <= cs@.len(),
    ensures
        match r {
            Some(j) => i <= j <= cs@.len() && parse_value(cs@.skip(i as int), fuel as nat) == Some(
                cs@.skip(j as int),
            ),
            None => parse_value(cs@.skip(i as int), fuel as nat) is None,
        },
    decreases fuel, cs@.len() - i, 0int,
{
    let len = cs.len();
    let ghost s = cs@.skip(i as int);
    proof {
        assert(s.len() == len - i);
        if s.len() > 0 {
            assert(s[0] == cs@[i as int]);
        }
        if s.len() >= 2 {
            assert(s[1] == cs@[i + 1]);
        }
        if s.len() >= 3 {
            assert(s[2] == cs@[i + 2]);
        }
        if s.len() >= 4 {
            assert(s[3] == cs@[i + 3]);
        }
        if s.len() >= 5 {
            assert(s[4] == cs@[i + 4]);
        }
    }
    if i == len {
        return None;
    }
    let c = cs[i];
    if c == '"' {
        proof {
            assert(s.drop_first() =~= cs@.skip(i + 1));
        }
        match parse_string_body_exec(cs, i + 1) {
            Some((t, j)) => Some(j),
            None => None,
        }
    } else if c == '-' || is_digit_exec(c) {
        parse_number_exec(cs, i)
    } else if c == 't' {
        if len - i >= 4 && cs[i + 1] == 'r' && cs[i + 2] == 'u' && cs[i + 3] == 'e' {
            proof {
                assert(s.skip(4) =~= cs@.skip(i + 4));
            }
            Some(i + 4)
        } else {
            None
        }
    } else if c == 'f' {
        if len - i >= 5 && cs[i + 1] == 'a' && cs[i + 2] == 'l' && cs[i + 3] == 's' && cs[i + 4]
            == 'e' {
            proof {
                assert(s.skip(5) =~= cs@.skip(i + 5));
            }
            Some(i + 5)
        } else {
            None
        }
    } else if c == 'n' {
        if len - i >= 4 && cs[i + 1] == 'u' && cs[i + 2] == 'l' && cs[i + 3] == 'l' {
            proof {
                assert(s.skip(4) =~= cs@.skip(i + 4));
            }
            Some(i + 4)
        } else {
            None
        }
    } else if c == '{' {
        proof {
            assert(s.drop_first() =~= cs@.skip(i + 1));
        }
        match parse_members_exec(cs, i + 1, true, None, fuel) {
            Some((acc, j)) => Some(j),
            None => None,
        }
    } else if c == '[' {
        proof {
            assert(s.drop_first() =~= cs@.skip(i + 1));
        }
        parse_elements_exec(cs, i + 1, true, fuel)
    } else {
        None
    }
}

/// Reads the members of an object from the given position, carrying the
/// title decoded so far.
fn parse_members_exec(cs: &Vec<char>, i: usize, first: bool, acc: Option<String>, fuel: usize) -> (r:
    Option<(Option<String>, usize)>)
    requires
        i <= cs@.len(),
    ensures
        match r {
            Some((acc2, j)) => i <= j <= cs@.len() && parse_members(
                cs@.skip(i as int),
                first,
                view_opt(acc),
                fuel as nat,
            ) == Some((view_opt(acc2), cs@.skip(j as int))),
            None => parse_members(cs@.skip(i as int), first, view_opt(acc), fuel as nat) is None,
        },
    decreases fuel, cs@.len() - i, 1int,
{
    let len = cs.len();
    let ghost s = cs@.skip(i as int);
    let j1 = skip_ws_exec(cs, i);
    let ghost s1 = cs@.skip(j1 as int);
    proof {
        if s1.len() > 0 {
            assert(s1[0] == cs@[j1 as int]);
        }
    }
    if j1 == len {
        return None;
    }
    let c = cs[j1];
    if first && c == '}' {
        proof {
            assert(s1.drop_first() =~= cs@.skip(j1 + 1));
        }
        return Some((acc, j1 + 1));
    }
    if c != '"' {
        return None;
    }
    proof {
        assert(s1.drop_first() =~= cs@.skip(j1 + 1));
    }
    match parse_string_body_exec(cs, j1 + 1) {
        None => None,
        Some((key, j2)) => {
            let j3 = skip_ws_exec(cs, j2);
            let ghost s3 = cs@.skip(j3 as int);
            proof {
                if s3.len() > 0 {
                    assert(s3[0] == cs@[j3 as int]);
                }
            }
            if j3 == len || cs[j3] != ':' {
                return None;
            }
            proof {
                assert(s3.drop_first() =~= cs@.skip(j3 + 1));
            }
            let j4 = skip_ws_exec(cs, j3 + 1);
            let ghost s4 = cs@.skip(j4 as int);
            proof {
                if s4.len() > 0 {
                    assert(s4[0] == cs@[j4 as int]);
                }
                reveal_strlit("title");
            }
            let title_key = String::from_str("title");
            if key.eq(&title_key) {
                if acc.is_some() {
                    return None;
                }
                if j4 == len || cs[j4] != '"' {
                    return None;
                }
                proof {
                    assert(s4.drop_first() =~= cs@.skip(j4 + 1));
                }
                match parse_string_body_exec(cs, j4 + 1) {
                    None => None,
                    Some((val, j5)) => {
                        if fuel == 0 {
                            None
                        } else {
                            parse_members_tail_exec(cs, j5, Some(val), fuel - 1)
                        }
                    },
                }
            } else {
                match parse_value_exec(cs, j4, fuel) {
                    None => None,
                    Some(j5) => {
                        if fuel == 0 {
                            None
                        } else {
                            parse_members_tail_exec(cs, j5, acc, fuel - 1)
                        }
                    },
                }
            }
        },
    }
}

/// Reads what follows a completed object member.
fn parse_members_tail_exec(cs: &Vec<char>, i: usize, acc: Option<String>, fuel: usize) -> (r:
    Option<(Option<String>, usize)>)
    requires
        i <= cs@.len(),
    ensures
        match r {
            Some((acc2, j)) => i <= j <= cs@.len() && parse_members_tail(
                cs@.skip(i as int),
                view_opt(acc),
                fuel as nat,
            ) == Some((view_opt(acc2), cs@.skip(j as int))),
            None => parse_members_tail(cs@.skip(i as int), view_opt(acc), fuel as nat) is None,
        },
    decreases fuel, cs@.len() - i, 0int,
{
    let len = cs.len();
    let j1 = skip_ws_exec(cs, i);
    let ghost s1 = cs@.skip(j1 as int);
    proof {
        if s1.len() > 0 {
            assert(s1[0] == cs@[j1 as int]);
        }
    }
    if j1 == len {
        return None;
    }
    let c = cs[j1];
    proof {
        assert(s1.drop_first() =~= cs@.skip(j1 + 1));
    }
    if c == '}' {
        Some((acc, j1 + 1))
    } else if c == ',' {
        parse_members_exec(cs, j1 + 1, false, acc, fuel)
    } else {
        None
    }
}

/// Reads the elements of an array from the given position.
fn parse_elements_exec(cs: &Vec<char>, i: usize, first: bool, fuel: usize) -> (r: Option<usize>)
    requires
        i <= cs@.len(),
    ensures
        match r {
            Some(j) => i <= j <= cs@.len() && parse_elements(cs@.skip(i as int), first, fuel as nat)
                == Some(cs@.skip(j as int)),
            None => parse_elements(cs@.skip(i as int), first, fuel as nat) is None,
        },
    decreases fuel, cs@.len() - i, 1int,
{
    let len = cs.len();
    let j1 = skip_ws_exec(cs, i);
    let ghost s1 = cs@.skip(j1 as int);
    proof {
        if s1.len() > 0 {
            assert(s1[0] == cs@[j1 as int]);
        }
    }
    if j1 == len {
        return None;
    }
    let c = cs[j1];
    if first && c == ']' {
        proof {
            assert(s1.drop_first() =~= cs@.skip(j1 + 1));
        }
        return Some(j1 + 1);
    }
    match parse_value_exec(cs, j1, fuel) {
        None => None,
        Some(j2) => {
            if fuel == 0 {
                None
            } else {
                parse_elements_tail_exec(cs, j2, fuel - 1)
            }
        },
    }
}

/// Reads what follows a completed array element.
fn parse_elements_tail_exec(cs: &Vec<char>, i: usize, fuel: usize) -> (r: Option<usize>)
    requires
        i <= cs@.len(),
    ensures
        match r {
            Some(j) => i <= j <= cs@.len() && parse_elements_tail(cs@.skip(i as int), fuel as nat)
                == Some(cs@.skip(j as int)),
            None => parse_elements_tail(cs@.skip(i as int), fuel as nat) is None,
        },
    decreases fuel, cs@.len() - i, 0int,
{
    let len = cs.len();
    let j1 = skip_ws_exec(cs, i);
    let ghost s1 = cs@.skip(j1 as int);
    proof {
        if s1.len() > 0 {
            assert(s1[0] == cs@[j1 as int]);
        }
    }
    if j1 == len {
        return None;
    }
    let c = cs[j1];
    proof {
        assert(s1.drop_first() =~= cs@.skip(j1 + 1));
    }
    if c == ']' {
        Some(j1 + 1)
    } else if c == ',' {
        parse_elements_exec(cs, j1 + 1, false, fuel)
    } else {
        None
    }
}

/// Decodes a create request body, returning the title exactly when
/// [`parse_create_spec`] accepts the input.
pub fn parse_create(body: &str) -> (r: Option<String>)
    ensures
        r is Some <==> parse_create_spec(body@) is Some,
        r matches Some(t) ==> parse_create_spec(body@) == Some(t@),
{
    let cs = crate::strings::str_to_chars(body);
    let len = cs.len();
    proof {
        assert(cs@.skip(0) =~= body@);
    }
    let j1 = skip_ws_exec(&cs, 0);
    let ghost s1 = cs@.skip(j1 as int);
    proof {
        if s1.len() > 0 {
            assert(s1[0] == cs@[j1 as int]);
        }
    }
    if j1 == len {
        return None;
    }
    if cs[j1] != '{' {
        return None;
    }
    proof {
        assert(s1.drop_first() =~= cs@.skip(j1 + 1));
    }
    match parse_members_exec(&cs, j1 + 1, true, None, len) {
        None => None,
        Some((acc, j2)) => {
            let j3 = skip_ws_exec(&cs, j2);
            if j3 == len {
                acc
            } else {
                None
            }
        },
    }
}

} // verus!

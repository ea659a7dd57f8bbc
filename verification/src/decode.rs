//! Decoding of the canonical todo object the encoder produces, and the
//! round-trip law: every encoded todo decodes back to the same record.

use vstd::prelude::*;

use crate::json::dec_digits;
use crate::json::digit_char;
use crate::json::escape_char;
use crate::json::escape_string;
use crate::json::hex_char;
use crate::json::json_of_todo;
use crate::parse::digit_run;
use crate::parse::digit_run_exec;
use crate::parse::digit_val;
use crate::parse::hex_val;
use crate::parse::is_digit;
use crate::parse::parse_string_body;
use crate::parse::parse_string_body_exec;
use crate::todo::Todo;
use crate::todo::TodoView;

verus! {

/// Whether a sequence starts with the given prefix.
pub open spec fn starts_with(s: Seq<char>, p: Seq<char>) -> bool {
    s.len() >= p.len() && s.take(p.len() as int) == p
}

/// The value of a sequence of decimal digit characters, most significant
/// first.
pub open spec fn val_of_digits(s: Seq<char>) -> int
    decreases s.len(),
{
    if s.len() == 0 {
        0
    } else {
        val_of_digits(s.drop_last()) * 10 + digit_val(s.last())
    }
}

/// Decodes the canonical todo object: `{"id":` digits `,"title":` string
/// `,"completed":` boolean `}` with nothing around it, exactly as
/// [`json_of_todo`] lays it out.
pub open spec fn decode_todo_spec(s: Seq<char>) -> Option<TodoView> {
    if !starts_with(s, "{\"id\":"@) {
        None
    } else {
        let s1 = s.skip("{\"id\":"@.len() as int);
        let n = digit_run(s1);
        if n < 1 || val_of_digits(s1.take(n)) > u64::MAX {
            None
        } else {
            let id = val_of_digits(s1.take(n)) as u64;
            let s2 = s1.skip(n);
            if !(starts_with(s2, ",\"title\":"@) && s2.len() > ",\"title\":"@.len() && s2[
                ",\"title\":"@.len() as int
            ] == '"') {
                None
            } else {
                match parse_string_body(s2.skip(",\"title\":"@.len() as int + 1)) {
                    None => None,
                    Some((title, s3)) => {
                        if !starts_with(s3, ",\"completed\":"@) {
                            None
                        } else {
                            let s4 = s3.skip(",\"completed\":"@.len() as int);
                            let completed: Option<bool> = if starts_with(s4, "true"@) && s4.skip(
                                "true"@.len() as int,
                            ) == "}"@ {
                                Some(true)
                            } else if starts_with(s4, "false"@) && s4.skip("false"@.len() as int)
                                == "}"@ {
                                Some(false)
                            } else {
                                None
                            };
                            match completed {
                                Some(completed) => Some(TodoView { id, title, completed }),
                                None => None,
                            }
                        }
                    },
                }
            }
        }
    }
}

/// Every decimal digit character the encoder writes is a digit.
proof fn lemma_dec_digits_are_digits(n: nat)
    ensures
        forall|i: int| 0 <= i < dec_digits(n).len() ==> is_digit(#[trigger] dec_digits(n)[i]),
        dec_digits(n).len() >= 1,
    decreases n,
{
    if n < 10 {
    } else {
        lemma_dec_digits_are_digits(n / 10);
    }
}

/// The digit run of digits followed by a non-digit is exactly the digits.
proof fn lemma_digit_run_of_digits(d: Seq<char>, r: Seq<char>)
    requires
        forall|i: int| 0 <= i < d.len() ==> is_digit(#[trigger] d[i]),
        r.len() > 0,
        !is_digit(r[0]),
    ensures
        digit_run(d + r) == d.len(),
    decreases d.len(),
{
    if d.len() == 0 {
        assert(d + r =~= r);
    } else {
        assert((d + r)[0] == d[0]);
        assert((d + r).drop_first() =~= d.drop_first() + r);
        lemma_digit_run_of_digits(d.drop_first(), r);
    }
}

/// Decoding the digits of a number gives the number back.
proof fn lemma_val_of_dec_digits(n: nat)
    ensures
        val_of_digits(dec_digits(n)) == n,
    decreases n,
{
    if n < 10 {
        assert(dec_digits(n) == seq![digit_char(n as int)]);
        assert(dec_digits(n).drop_last() =~= Seq::<char>::empty());
        assert(dec_digits(n).last() == digit_char(n as int));
        assert(digit_val(digit_char(n as int)) == n);
        assert(val_of_digits(dec_digits(n)) == val_of_digits(Seq::<char>::empty()) * 10
            + digit_val(digit_char(n as int)));
    } else {
        lemma_val_of_dec_digits(n / 10);
        assert(dec_digits(n) == dec_digits(n / 10).push(digit_char((n % 10) as int)));
        assert(dec_digits(n).drop_last() =~= dec_digits(n / 10));
        assert(dec_digits(n).last() == digit_char((n % 10) as int));
        assert(digit_val(digit_char((n % 10) as int)) == n % 10);
        assert(val_of_digits(dec_digits(n)) == val_of_digits(dec_digits(n / 10)) * 10 + digit_val(
            digit_char((n % 10) as int),
        ));
        assert(val_of_digits(dec_digits(n)) == (n / 10) * 10 + (n % 10));
    }
}

/// A hexadecimal digit character decodes to its value.
proof fn lemma_hex_val_of_hex_char(d: int)
    requires
        0 <= d < 16,
    ensures
        hex_val(hex_char(d)) == d,
{
}

/// Reading an escaped string body gives the original characters back, and
/// leaves exactly what follows the closing quote.
pub proof fn lemma_unescape_escape(x: Seq<char>, rest: Seq<char>)
    ensures
        parse_string_body(escape_string(x) + seq!['"'] + rest) == Some((x, rest)),
    decreases x.len(),
{
    let s = escape_string(x) + seq!['"'] + rest;
    if x.len() == 0 {
        assert(s[0] == '"');
        assert(s.drop_first() =~= rest);
    } else {
        let c = x[0];
        let tail = escape_string(x.drop_first()) + seq!['"'] + rest;
        assert(s =~= escape_char(c) + tail);
        lemma_unescape_escape(x.drop_first(), rest);
        assert(seq![c] + x.drop_first() =~= x);
        if c == '"' || c == '\\' || c == '\u{8}' || c == '\u{c}' || c == '\n' || c == '\r' || c
            == '\t' {
            assert(s[0] == '\\' && s[1] == escape_char(c)[1]);
            assert(s.skip(2) =~= tail);
        } else if (c as u32) < 32 {
            let v = c as u32;
            assert(s[0] == '\\' && s[1] == 'u');
            assert(s.len() >= 6);
            assert(s.subrange(2, 6) =~= seq![
                '0',
                '0',
                hex_char(v as int / 16),
                hex_char(v as int % 16),
            ]);
            lemma_hex_val_of_hex_char(v as int / 16);
            lemma_hex_val_of_hex_char(v as int % 16);
            assert(hex_val('0') == 0);
            assert(crate::parse::hex4_val(s.subrange(2, 6)) == v as int);
            assert(s.skip(6) =~= tail);
            assert((v as char) == c) by {
                vstd::utf8::char_u32_cast(c, v);
            }
        } else {
            assert(s[0] == c);
            assert(s.drop_first() =~= tail);
        }
    }
}

/// The characters inside the digit run are digits.
proof fn lemma_digit_run_chars(s: Seq<char>)
    ensures
        forall|i: int| 0 <= i < digit_run(s) ==> is_digit(#[trigger] s[i]),
    decreases s.len(),
{
    crate::parse::lemma_digit_run_len(s);
    if s.len() > 0 && is_digit(s[0]) {
        crate::parse::lemma_digit_run_len(s.drop_first());
        lemma_digit_run_chars(s.drop_first());
        assert forall|i: int| 0 <= i < digit_run(s) implies is_digit(#[trigger] s[i]) by {
            if i > 0 {
                assert(s.drop_first()[i - 1] == s[i]);
            }
        }
    }
}

/// The value of a digit prefix never falls as the prefix grows.
proof fn lemma_val_of_digits_prefix_le(s: Seq<char>, a: int, b: int)
    requires
        0 <= a <= b <= s.len(),
        forall|i: int| 0 <= i < b ==> is_digit(#[trigger] s[i]),
    ensures
        0 <= val_of_digits(s.take(a)) <= val_of_digits(s.take(b)),
    decreases b - a,
{
    if a == b {
        lemma_val_of_digits_nonneg(s.take(a));
    } else {
        lemma_val_of_digits_prefix_le(s, a, b - 1);
        assert(s.take(b).drop_last() =~= s.take(b - 1));
        assert(s.take(b).last() == s[b - 1]);
        assert(digit_val(s[b - 1]) >= 0);
        lemma_val_of_digits_nonneg(s.take(b - 1));
    }
}

/// The value of a sequence of digits is not negative.
proof fn lemma_val_of_digits_nonneg(s: Seq<char>)
    requires
        forall|i: int| 0 <= i < s.len() ==> is_digit(#[trigger] s[i]),
    ensures
        val_of_digits(s) >= 0,
    decreases s.len(),
{
    if s.len() > 0 {
        assert(s.drop_last() =~= s.take(s.len() - 1));
        assert(forall|i: int|
            0 <= i < s.drop_last().len() ==> is_digit(#[trigger] s.drop_last()[i]));
        lemma_val_of_digits_nonneg(s.drop_last());
        assert(digit_val(s.last()) >= 0);
    }
}

/// Advances past the given literal, or reports that the input does not start
/// with it.
fn expect_lit(cs: &Vec<char>, i: usize, lit: &str) -> (r: Option<usize>)
    requires
        i <= cs@.len(),
    ensures
        match r {
            Some(j) => j == i + lit@.len() && j <= cs@.len() && starts_with(
                cs@.skip(i as int),
                lit@,
            ),
            None => !starts_with(cs@.skip(i as int), lit@),
        },
{
    let n = lit.unicode_len();
    let len = cs.len();
    if len - i < n {
        return None;
    }
    for k in 0..n
        invariant
            n == lit@.len(),
            len == cs@.len(),
            i + n <= len,
            forall|m: int| 0 <= m < k ==> cs@[i + m] == lit@[m],
    {
        if cs[i + k] != lit.get_char(k) {
            proof {
                assert(cs@.skip(i as int)[k as int] == cs@[i + k]);
                assert(!starts_with(cs@.skip(i as int), lit@));
            }
            return None;
        }
    }
    proof {
        assert(cs@.skip(i as int).take(n as int) =~= lit@);
    }
    Some(i + n)
}

/// Reads a leading digit run as a number: its value and the position just
/// past it, or `None` when there is no digit or the value does not fit.
fn parse_u64_digits(cs: &Vec<char>, i: usize) -> (r: Option<(u64, usize)>)
    requires
        i <= cs@.len(),
    ensures
        ({
            let s = cs@.skip(i as int);
            let n = digit_run(s);
            match r {
                Some((v, j)) => n >= 1 && j == i + n && j <= cs@.len() && v == val_of_digits(
                    s.take(n),
                ),
                None => n < 1 || val_of_digits(s.take(n)) > u64::MAX,
            }
        }),
{
    let ghost s1 = cs@.skip(i as int);
    let j = digit_run_exec(cs, i);
    proof {
        lemma_digit_run_chars(s1);
    }
    if j == i {
        return None;
    }
    let ghost n = digit_run(s1);
    let mut v: u64 = 0;
    let mut k = i;
    while k < j
        invariant
            i <= k <= j <= cs@.len(),
            s1 == cs@.skip(i as int),
            n == digit_run(s1),
            j - i == n,
            forall|m: int| 0 <= m < n ==> is_digit(#[trigger] s1[m]),
            v == val_of_digits(s1.take(k - i)),
        decreases j - k,
    {
        let c = cs[k];
        proof {
            assert(s1[k - i] == cs@[k as int]);
            assert(s1.take(k - i + 1).drop_last() =~= s1.take(k - i));
            assert(s1.take(k - i + 1).last() == s1[k - i]);
        }
        let d = (c as u32 - 48) as u64;
        if v > (u64::MAX - d) / 10 {
            proof {
                assert(val_of_digits(s1.take(k - i + 1)) > u64::MAX);
                lemma_val_of_digits_prefix_le(s1, k - i + 1, n);
            }
            return None;
        }
        v = v * 10 + d;
        k = k + 1;
    }
    proof {
        assert(s1.take(j - i) =~= s1.take(n));
    }
    Some((v, j))
}

/// Decodes the canonical todo object, returning a record exactly when
/// [`decode_todo_spec`] accepts the input.
#[verifier::rlimit(100)]
pub fn decode_todo(s: &str) -> (r: Option<Todo>)
    ensures
        r is Some <==> decode_todo_spec(s@) is Some,
        r matches Some(t) ==> decode_todo_spec(s@) == Some(t@),
{
    let cs = crate::strings::str_to_chars(s);
    let len = cs.len();
    proof {
        assert(cs@.skip(0) =~= s@);
    }
    let p1 = match expect_lit(&cs, 0, "{\"id\":") {
        Some(p) => p,
        None => {
            return None;
        },
    };
    let ghost s1 = s@.skip("{\"id\":"@.len() as int);
    proof {
        assert(s1 =~= cs@.skip(p1 as int));
    }
    let (v, j) = match parse_u64_digits(&cs, p1) {
        Some(x) => x,
        None => {
            return None;
        },
    };
    let ghost n = digit_run(s1);
    let ghost s2 = s1.skip(n);
    proof {
        assert(s2 =~= cs@.skip(j as int));
    }
    let p2 = match expect_lit(&cs, j, ",\"title\":") {
        Some(p) => p,
        None => {
            return None;
        },
    };
    proof {
        assert(p2 == j + ",\"title\":"@.len());
        if p2 < len {
            assert(s2[",\"title\":"@.len() as int] == cs@[p2 as int]);
        }
    }
    if p2 == len {
        return None;
    }
    if cs[p2] != '"' {
        return None;
    }
    proof {
        assert(s2.skip(",\"title\":"@.len() as int + 1) =~= cs@.skip(p2 + 1));
    }
    let (title, p3) = match parse_string_body_exec(&cs, p2 + 1) {
        Some(x) => x,
        None => {
            return None;
        },
    };
    let ghost s3 = cs@.skip(p3 as int);
    let p4 = match expect_lit(&cs, p3, ",\"completed\":") {
        Some(p) => p,
        None => {
            return None;
        },
    };
    let ghost s4 = s3.skip(",\"completed\":"@.len() as int);
    proof {
        assert(s4 =~= cs@.skip(p4 as int));
        reveal_strlit("true");
        reveal_strlit("false");
        reveal_strlit("}");
    }
    let completed: bool = match expect_lit(&cs, p4, "true") {
        Some(p5) => {
            proof {
                assert(s4.skip("true"@.len() as int) =~= cs@.skip(p5 as int));
                if p5 < len {
                    assert(cs@.skip(p5 as int)[0] == cs@[p5 as int]);
                }
                assert(s4.take("true"@.len() as int) == "true"@);
                assert(s4[0] == s4.take("true"@.len() as int)[0]);
                assert(s4[0] == 't');
                if starts_with(s4, "false"@) {
                    assert(s4[0] == s4.take("false"@.len() as int)[0]);
                    assert(s4[0] == 'f');
                }
                assert(!starts_with(s4, "false"@));
            }
            if len - p5 == 1 && cs[p5] == '}' {
                proof {
                    assert(cs@.skip(p5 as int) =~= "}"@);
                }
                true
            } else {
                proof {
                    assert(cs@.skip(p5 as int) != "}"@);
                }
                return None;
            }
        },
        None => {
            match expect_lit(&cs, p4, "false") {
                Some(p5) => {
                    proof {
                        assert(s4.skip("false"@.len() as int) =~= cs@.skip(p5 as int));
                        if p5 < len {
                            assert(cs@.skip(p5 as int)[0] == cs@[p5 as int]);
                        }
                    }
                    if len - p5 == 1 && cs[p5] == '}' {
                        proof {
                            assert(cs@.skip(p5 as int) =~= "}"@);
                        }
                        false
                    } else {
                        proof {
                            assert(cs@.skip(p5 as int) != "}"@);
                        }
                        return None;
                    }
                },
                None => {
                    return None;
                },
            }
        },
    };
    Some(Todo { id: v, title, completed })
}

/// The round trip: a todo encoded by the library decodes back to the same
/// record — the id, the title (whatever characters it holds) and the
/// completion flag all survive. In particular a todo returned by create
/// decodes back into the title sent, the id assigned, and a false flag.
#[verifier::rlimit(60)]
pub proof fn lemma_todo_round_trip(t: TodoView)
    ensures
        decode_todo_spec(json_of_todo(t)) == Some(t),
{
    reveal_strlit("{\"id\":");
    reveal_strlit(",\"title\":");
    reveal_strlit(",\"completed\":");
    reveal_strlit("true");
    reveal_strlit("false");
    reveal_strlit("}");
    let a = "{\"id\":"@;
    let b = ",\"title\":"@;
    let c = ",\"completed\":"@;
    let d = "}"@;
    let dec = dec_digits(t.id as nat);
    let jstr = seq!['"'] + escape_string(t.title) + seq!['"'];
    let boolpart = if t.completed {
        "true"@
    } else {
        "false"@
    };
    let s = json_of_todo(t);
    assert(s =~= a + (dec + (b + (jstr + (c + (boolpart + d))))));
    let s1 = dec + (b + (jstr + (c + (boolpart + d))));
    assert(s.take(a.len() as int) =~= a);
    assert(s.skip(a.len() as int) =~= s1);
    lemma_dec_digits_are_digits(t.id as nat);
    let r1 = b + (jstr + (c + (boolpart + d)));
    assert(s1 =~= dec + r1);
    assert(!is_digit(r1[0]));
    lemma_digit_run_of_digits(dec, r1);
    assert(digit_run(s1) == dec.len());
    assert(s1.take(dec.len() as int) =~= dec);
    lemma_val_of_dec_digits(t.id as nat);
    assert(val_of_digits(s1.take(dec.len() as int)) == t.id);
    let s2 = s1.skip(dec.len() as int);
    assert(s2 =~= r1);
    assert(s2.take(b.len() as int) =~= b);
    assert(s2[b.len() as int] == '"');
    let after_quote = escape_string(t.title) + seq!['"'] + (c + (boolpart + d));
    assert(s2.skip(b.len() as int + 1) =~= after_quote);
    lemma_unescape_escape(t.title, c + (boolpart + d));
    let s3 = c + (boolpart + d);
    assert(s3.take(c.len() as int) =~= c);
    let s4 = s3.skip(c.len() as int);
    assert(s4 =~= boolpart + d);
    if t.completed {
        assert(s4.take(4) =~= "true"@);
        assert(s4.skip(4) =~= d);
    } else {
        assert(s4.take(5) =~= "false"@);
        assert(s4.skip(5) =~= d);
    }
}

} // verus!

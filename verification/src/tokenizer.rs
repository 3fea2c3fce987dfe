//! Tokenization: raw text to a sequence of normalized terms.
//!
//! A term is a maximal run of ASCII alphanumeric characters, with ASCII
//! uppercase letters folded to lowercase. Every other character — including
//! any non-ASCII character — separates terms and is discarded.

use vstd::prelude::*;
use vstd::string::StrSliceExecFns;

verus! {

/// After lowercasing, a character extends the current term exactly when it
/// is an ASCII digit or lowercase letter.
pub open spec fn is_token_char(c: char) -> bool {
    let u = c as int;
    (48 <= u && u <= 57) || (97 <= u && u <= 122)
}

/// ASCII lowercasing: `'A'..='Z'` shift down by 32; all else unchanged.
pub open spec fn lower_char(c: char) -> char {
    let u = c as int;
    if 65 <= u && u <= 90 {
        (u + 32) as char
    } else {
        c
    }
}

/// The terms of `s`, given a partially accumulated term `cur`.
pub open spec fn tokens_from(s: Seq<char>, cur: Seq<char>) -> Seq<Seq<char>>
    decreases s.len(),
{
    if s.len() == 0 {
        if cur.len() == 0 {
            Seq::empty()
        } else {
            seq![cur]
        }
    } else {
        let c = lower_char(s[0]);
        let rest = s.subrange(1, s.len() as int);
        if is_token_char(c) {
            tokens_from(rest, cur.push(c))
        } else if cur.len() > 0 {
            seq![cur] + tokens_from(rest, Seq::empty())
        } else {
            tokens_from(rest, Seq::empty())
        }
    }
}

/// The token sequence of a text: ordered, duplicates kept.
pub open spec fn spec_tokenize(s: Seq<char>) -> Seq<Seq<char>> {
    tokens_from(s, Seq::empty())
}

/// The views of a vector of strings.
pub open spec fn views(v: Seq<String>) -> Seq<Seq<char>> {
    v.map_values(|t: String| t@)
}

/// How often term `t` occurs in the token sequence `toks`.
pub open spec fn term_count(toks: Seq<Seq<char>>, t: Seq<char>) -> nat
    decreases toks.len(),
{
    if toks.len() == 0 {
        0
    } else {
        term_count(toks.drop_last(), t) + (if toks.last() == t {
            1nat
        } else {
            0nat
        })
    }
}

/// Relies on `String::push`: appends one character at the end of the string.
#[verifier::external_body]
fn push_char(s: &mut String, c: char)
    ensures
        final(s)@ == old(s)@.push(c),
{
    s.push(c);
}

fn lower_ascii(c: char) -> (r: char)
    ensures
        r == lower_char(c),
{
    let u = c as u32;
    if 65 <= u && u <= 90 {
        ((u + 32) as u8) as char
    } else {
        c
    }
}

/// Splits `text` into normalized terms: lowercased maximal ASCII
/// alphanumeric runs, in order of appearance, duplicates kept.
pub fn tokenize(text: &str) -> (r: Vec<String>)
    ensures
        views(r@) == spec_tokenize(text@),
{
    let n = text.unicode_len();
    let mut out: Vec<String> = Vec::new();
    let mut cur: String = String::new();
    let mut i: usize = 0;
    proof {
        assert(text@.subrange(0, n as int) =~= text@);
        assert(views(out@) + tokens_from(text@, cur@) =~= spec_tokenize(text@));
    }
    while i < n
        invariant
            n == text@.len(),
            i <= n,
            spec_tokenize(text@) == views(out@) + tokens_from(
                text@.subrange(i as int, n as int),
                cur@,
            ),
        decreases n - i,
    {
        let ghost pre = text@.subrange(i as int, n as int);
        let ghost cur0 = cur@;
        proof {
            assert(pre.subrange(1, pre.len() as int) =~= text@.subrange(i + 1, n as int));
            assert(pre[0] == text@[i as int]);
        }
        let c = lower_ascii(text.get_char(i));
        let u = c as u32;
        if (48 <= u && u <= 57) || (97 <= u && u <= 122) {
            push_char(&mut cur, c);
            proof {
                assert(is_token_char(c));
                assert(tokens_from(pre, cur0) == tokens_from(
                    text@.subrange(i + 1, n as int),
                    cur@,
                ));
            }
        } else {
            proof {
                assert(!is_token_char(c));
            }
            if cur.as_str().unicode_len() > 0 {
                let finished = cur;
                cur = String::new();
                let ghost out0 = out@;
                out.push(finished);
                proof {
                    assert(views(out@) =~= views(out0).push(finished@));
                    assert(tokens_from(pre, cur0) == seq![cur0] + tokens_from(
                        text@.subrange(i + 1, n as int),
                        Seq::empty(),
                    ));
                    assert(views(out@) + tokens_from(text@.subrange(i + 1, n as int), cur@)
                        =~= views(out0) + tokens_from(pre, cur0));
                }
            } else {
                proof {
                    assert(cur@ =~= Seq::<char>::empty());
                    assert(tokens_from(pre, cur@) == tokens_from(
                        text@.subrange(i + 1, n as int),
                        cur@,
                    ));
                }
            }
        }
        i = i + 1;
    }
    proof {
        assert(text@.subrange(i as int, n as int) =~= Seq::<char>::empty());
    }
    if cur.as_str().unicode_len() > 0 {
        let finished = cur;
        let ghost out0 = out@;
        out.push(finished);
        proof {
            assert(views(out@) =~= views(out0).push(finished@));
            assert(views(out@) =~= views(out0) + seq![finished@]);
        }
    } else {
        proof {
            assert(cur@ =~= Seq::<char>::empty());
            assert(views(out@) + Seq::<Seq<char>>::empty() =~= views(out@));
        }
    }
    out
}

} // verus!

//! The external text-service client's decision core. All transport runs
//! outside the library; here live the verified decisions: classifying a
//! response by status, parsing a wait-time hint out of rate-limit error
//! text (millisecond and second units), counting retry attempts against
//! the fixed ceiling, sanitizing successful responses, and scheduling the
//! post-success cooldown.

use vstd::prelude::*;
use crate::errors::ProviderError;
use crate::respond::sanitize_response;
use crate::respond::sanitized;
use crate::text::chars_string;
use crate::text::decimal_of;
use crate::text::matches_at;
use crate::text::starts_with_chars_at;
use crate::text::starts_with_seq;
use crate::text::str_chars;
use crate::text::usize_decimal;

verus! {

/// Retry ceiling: a rate-limited call is attempted at most this many times.
pub const RETRY_LIMIT: u8 = 5;

/// `n` capped at the largest representable wait.
pub open spec fn sat64(n: nat) -> nat {
    if n > u64::MAX as nat {
        u64::MAX as nat
    } else {
        n
    }
}

/// The marker that precedes a wait-time hint in rate-limit error text.
pub open spec fn hint_marker() -> Seq<char> {
    "try again in "@
}

pub open spec fn is_digit(c: char) -> bool {
    '0' <= c && c <= '9'
}

/// The longest digit prefix of `t`.
pub open spec fn take_digits(t: Seq<char>) -> Seq<char>
    decreases t.len(),
{
    if t.len() > 0 && is_digit(t[0]) {
        seq![t[0]] + take_digits(t.drop_first())
    } else {
        Seq::<char>::empty()
    }
}

/// The value of a digit string, most significant digit first.
pub open spec fn digits_val(ds: Seq<char>) -> nat
    decreases ds.len(),
{
    if ds.len() == 0 {
        0
    } else {
        digits_val(ds.drop_last()) * 10 + (if ds.last() as int >= 48 {
            (ds.last() as int - 48) as nat
        } else {
            0
        })
    }
}

/// The millisecond value of a decimal fraction of a second: its first
/// three digits, scaled; further digits are cut off.
pub open spec fn frac_ms(fr: Seq<char>) -> nat {
    if fr.len() == 0 {
        0
    } else if fr.len() == 1 {
        digits_val(fr) * 100
    } else if fr.len() == 2 {
        digits_val(fr) * 10
    } else {
        digits_val(fr.subrange(0, 3))
    }
}

/// Whether `c` can stand in a captured numeral: a digit or a dot.
pub open spec fn is_num_char(c: char) -> bool {
    is_digit(c) || c == '.'
}

/// The longest digit-or-dot prefix of `t`: the captured numeral.
pub open spec fn take_num(t: Seq<char>) -> Seq<char>
    decreases t.len(),
{
    if t.len() > 0 && is_num_char(t[0]) {
        seq![t[0]] + take_num(t.drop_first())
    } else {
        Seq::<char>::empty()
    }
}

/// The fraction digits of a captured numeral: what follows its dot.
pub open spec fn frac_of(tok: Seq<char>) -> Seq<char> {
    let d = take_digits(tok);
    if d.len() == tok.len() {
        Seq::<char>::empty()
    } else {
        take_digits(tok.skip(d.len() as int + 1))
    }
}

/// Whether a captured numeral parses as a decimal number: at least one
/// digit, and at most one dot.
pub open spec fn well_formed_num(tok: Seq<char>) -> bool {
    let d = take_digits(tok);
    if d.len() == tok.len() {
        tok.len() >= 1
    } else {
        &&& tok[d.len() as int] == '.'
        &&& d.len() + 1 + frac_of(tok).len() == tok.len()
        &&& d.len() + frac_of(tok).len() >= 1
    }
}

/// The hint value of a captured numeral and what follows it: `ms` takes
/// the integer part in milliseconds; `s` takes the number in seconds, to
/// millisecond precision, truncated. A numeral that does not parse
/// defaults to one millisecond or one second.
pub open spec fn token_hint(tok: Seq<char>, rest: Seq<char>) -> Option<nat> {
    if starts_with_seq(rest, "ms"@) {
        Some(
            if well_formed_num(tok) {
                digits_val(take_digits(tok))
            } else {
                1
            },
        )
    } else if starts_with_seq(rest, "s"@) {
        Some(
            if well_formed_num(tok) {
                digits_val(take_digits(tok)) * 1000 + frac_ms(frac_of(tok))
            } else {
                1000
            },
        )
    } else {
        None
    }
}

/// The hint value of a numeral right at the start of `t`, with its unit.
pub open spec fn number_hint(t: Seq<char>) -> Option<nat> {
    let tok = take_num(t);
    if tok.len() == 0 {
        None
    } else {
        token_hint(tok, t.skip(tok.len() as int))
    }
}

/// The wait-time hint found at or after position `at`: the first place
/// where the marker is followed by a well-formed number and unit.
pub open spec fn wait_hint_from(s: Seq<char>, at: int) -> Option<nat>
    decreases s.len() - at,
{
    if at < 0 || at >= s.len() {
        None
    } else if matches_at(s, hint_marker(), at) && number_hint(
        s.skip(at + hint_marker().len()),
    ) is Some {
        number_hint(s.skip(at + hint_marker().len()))
    } else {
        wait_hint_from(s, at + 1)
    }
}

/// The wait-time hint in a rate-limit error body, if any.
pub open spec fn wait_hint(s: Seq<char>) -> Option<nat> {
    wait_hint_from(s, 0)
}

proof fn lemma_take_digits_run(t: Seq<char>, c: int)
    requires
        0 <= c <= t.len(),
        forall|k: int| 0 <= k < c ==> is_digit(#[trigger] t[k]),
        c == t.len() || !is_digit(t[c]),
    ensures
        take_digits(t) == t.subrange(0, c),
    decreases c,
{
    if c == 0 {
        if t.len() > 0 {
            assert(!is_digit(t[0]));
        }
        assert(take_digits(t) =~= t.subrange(0, 0));
    } else {
        assert(is_digit(t[0]));
        let tail = t.drop_first();
        assert(forall|k: int| 0 <= k < c - 1 ==> is_digit(#[trigger] tail[k]));
        assert(c - 1 == tail.len() || !is_digit(tail[c - 1]));
        lemma_take_digits_run(tail, c - 1);
        assert(take_digits(t) == seq![t[0]] + tail.subrange(0, c - 1));
        assert(seq![t[0]] + tail.subrange(0, c - 1) =~= t.subrange(0, c));
    }
}

proof fn lemma_take_num_run(t: Seq<char>, c: int)
    requires
        0 <= c <= t.len(),
        forall|k: int| 0 <= k < c ==> is_num_char(#[trigger] t[k]),
        c == t.len() || !is_num_char(t[c]),
    ensures
        take_num(t) == t.subrange(0, c),
    decreases c,
{
    if c == 0 {
        if t.len() > 0 {
            assert(!is_num_char(t[0]));
        }
        assert(take_num(t) =~= t.subrange(0, 0));
    } else {
        assert(is_num_char(t[0]));
        let tail = t.drop_first();
        assert(forall|k: int| 0 <= k < c - 1 ==> is_num_char(#[trigger] tail[k]));
        assert(c - 1 == tail.len() || !is_num_char(tail[c - 1]));
        lemma_take_num_run(tail, c - 1);
        assert(take_num(t) == seq![t[0]] + tail.subrange(0, c - 1));
        assert(seq![t[0]] + tail.subrange(0, c - 1) =~= t.subrange(0, c));
    }
}

/// The length of the digit-or-dot run starting at `p`: the captured
/// numeral.
fn scan_num(v: &Vec<char>, p: usize) -> (r: usize)
    requires
        p <= v@.len(),
    ensures
        p + r <= v@.len(),
        take_num(v@.skip(p as int)) == v@.subrange(p as int, p + r),
        forall|k: int| p <= k < p + r ==> is_num_char(#[trigger] v@[k]),
        p + r == v@.len() || !is_num_char(v@[p + r]),
{
    let n: usize = v.len();
    let mut j: usize = p;
    while j < n && (v[j] == '.' || (v[j] >= '0' && v[j] <= '9'))
        invariant
            p <= j <= n,
            n == v@.len(),
            forall|k: int| p <= k < j ==> is_num_char(#[trigger] v@[k]),
        decreases n - j,
    {
        j += 1;
    }
    proof {
        if j < n {
            assert(!is_num_char(v@[j as int]));
        }
        lemma_take_num_run(v@.skip(p as int), j - p);
        assert(v@.skip(p as int).subrange(0, j - p) =~= v@.subrange(p as int, j as int));
    }
    j - p
}

/// Reads the digit run starting at `p`, returning its length and its
/// value saturated at `u64::MAX`.
fn scan_digits(v: &Vec<char>, p: usize) -> (r: (usize, u64))
    requires
        p <= v@.len(),
    ensures
        p + r.0 <= v@.len(),
        take_digits(v@.skip(p as int)) == v@.subrange(p as int, p + r.0),
        forall|k: int| p <= k < p + r.0 ==> is_digit(#[trigger] v@[k]),
        p + r.0 == v@.len() || !is_digit(v@[p + r.0]),
        r.1 as nat == sat64(digits_val(take_digits(v@.skip(p as int)))),
{
    let n: usize = v.len();
    let mut j: usize = p;
    let mut acc: u64 = 0;
    proof {
        assert(v@.subrange(p as int, p as int) =~= Seq::<char>::empty());
    }
    while j < n && v[j] >= '0' && v[j] <= '9'
        invariant
            p <= j <= n,
            n == v@.len(),
            forall|k: int| p <= k < j ==> is_digit(#[trigger] v@[k]),
            acc as nat == sat64(digits_val(v@.subrange(p as int, j as int))),
        decreases n - j,
    {
        let ghost pre = v@.subrange(p as int, j as int);
        let ghost post = v@.subrange(p as int, j + 1 as int);
        proof {
            assert(post.drop_last() =~= pre);
            assert(post.last() == v@[j as int]);
        }
        let d: u64 = (v[j] as u32 as u64) - 48;
        proof {
            assert(is_digit(v@[j as int]));
            assert(d <= 9);
            assert(v@[j as int] as nat - 48 == d as nat);
            assert(digits_val(post) == digits_val(pre) * 10 + (d as nat));
        }
        if acc > (u64::MAX - d) / 10 {
            proof {
                let valpre = digits_val(pre);
                if valpre > u64::MAX as nat {
                    assert(digits_val(post) > u64::MAX as nat) by (nonlinear_arith)
                        requires
                            digits_val(post) == valpre * 10 + (d as nat),
                            valpre > u64::MAX as nat,
                    {}
                } else {
                    assert(acc as nat == valpre);
                    assert(acc * 10 + d > u64::MAX) by (nonlinear_arith)
                        requires
                            acc > (u64::MAX - d) / 10,
                            d <= 9,
                            acc <= u64::MAX,
                    {}
                    assert(digits_val(post) > u64::MAX as nat);
                }
                assert(u64::MAX as nat == sat64(digits_val(post)));
            }
            acc = u64::MAX;
        } else {
            proof {
                let valpre = digits_val(pre);
                assert(acc * 10 + d <= u64::MAX) by (nonlinear_arith)
                    requires
                        acc <= (u64::MAX - d) / 10,
                        d <= 9,
                {}
                if valpre > u64::MAX as nat {
                    assert(acc as nat == u64::MAX as nat);
                    assert(acc * 10 + d >= acc) by (nonlinear_arith)
                        requires
                            d >= 0,
                            acc >= 0,
                    {}
                    assert(false);
                }
                assert(acc as nat == valpre);
                assert((acc * 10 + d) as nat == digits_val(post));
            }
            acc = acc * 10 + d;
        }
        j += 1;
    }
    proof {
        if j < n {
            assert(!is_digit(v@[j as int]));
        }
        lemma_take_digits_run(v@.skip(p as int), j - p);
        assert(v@.skip(p as int).subrange(0, j - p) =~= v@.subrange(p as int, j as int));
    }
    (j - p, acc)
}

/// The value of the first up-to-three fraction digits, scaled to
/// milliseconds.
fn frac3(v: &Vec<char>, p: usize, flen: usize) -> (r: u64)
    requires
        p + flen <= v@.len(),
        take_digits(v@.skip(p as int)) == v@.subrange(p as int, p + flen as int),
        forall|k: int| p <= k < p + flen ==> is_digit(#[trigger] v@[k]),
    ensures
        r as nat == frac_ms(take_digits(v@.skip(p as int))),
        r <= 999,
{
    let n: usize = v.len();
    let ghost fr = take_digits(v@.skip(p as int));
    if flen == 0 {
        proof {
            assert(fr.len() == 0);
        }
        0
    } else if flen == 1 {
        let d0: u64 = (v[p] as u32 as u64) - 48;
        proof {
            assert(fr.len() == 1);
            assert(fr.drop_last() =~= Seq::<char>::empty());
            assert(fr.last() == v@[p as int]);
            assert(is_digit(v@[p as int]));
            assert(d0 <= 9);
            assert(v@[p as int] as nat - 48 == d0 as nat);
            assert(digits_val(Seq::<char>::empty()) == 0);
            assert(digits_val(fr) == d0 as nat);
            assert(frac_ms(fr) == digits_val(fr) * 100);
        }
        d0 * 100
    } else if flen == 2 {
        let d0: u64 = (v[p] as u32 as u64) - 48;
        let d1: u64 = (v[p + 1] as u32 as u64) - 48;
        proof {
            assert(fr.len() == 2);
            assert(fr.drop_last() =~= fr.subrange(0, 1));
            assert(fr.subrange(0, 1).drop_last() =~= Seq::<char>::empty());
            assert(fr.last() == v@[p + 1]);
            assert(fr.subrange(0, 1).last() == v@[p as int]);
            assert(is_digit(v@[p as int]) && is_digit(v@[p + 1]));
            assert(d0 <= 9 && d1 <= 9);
            assert(v@[p as int] as nat - 48 == d0 as nat);
            assert(v@[p + 1] as nat - 48 == d1 as nat);
            assert(digits_val(Seq::<char>::empty()) == 0);
            assert(digits_val(fr.subrange(0, 1)) == d0 as nat);
            assert(digits_val(fr) == (d0 * 10 + d1) as nat);
            assert(frac_ms(fr) == digits_val(fr) * 10);
        }
        (d0 * 10 + d1) * 10
    } else {
        let d0: u64 = (v[p] as u32 as u64) - 48;
        let d1: u64 = (v[p + 1] as u32 as u64) - 48;
        let d2: u64 = (v[p + 2] as u32 as u64) - 48;
        proof {
            assert(fr.len() >= 3);
            let f3 = fr.subrange(0, 3);
            assert(f3.drop_last() =~= fr.subrange(0, 2));
            assert(fr.subrange(0, 2).drop_last() =~= fr.subrange(0, 1));
            assert(fr.subrange(0, 1).drop_last() =~= Seq::<char>::empty());
            assert(f3.last() == v@[p + 2]);
            assert(fr.subrange(0, 2).last() == v@[p + 1]);
            assert(fr.subrange(0, 1).last() == v@[p as int]);
            assert(is_digit(v@[p as int]) && is_digit(v@[p + 1]) && is_digit(v@[p + 2]));
            assert(d0 <= 9 && d1 <= 9 && d2 <= 9);
            assert(v@[p as int] as nat - 48 == d0 as nat);
            assert(v@[p + 1] as nat - 48 == d1 as nat);
            assert(v@[p + 2] as nat - 48 == d2 as nat);
            assert(digits_val(Seq::<char>::empty()) == 0);
            assert(digits_val(fr.subrange(0, 1)) == d0 as nat);
            assert(digits_val(fr.subrange(0, 2)) == (d0 * 10 + d1) as nat);
            assert(digits_val(f3) == ((d0 * 10 + d1) * 10 + d2) as nat);
            assert(frac_ms(fr) == digits_val(f3));
        }
        (d0 * 10 + d1) * 10 + d2
    }
}

/// Reads the unit at position `q` and produces the hint value of the
/// captured numeral, saturating at `u64::MAX`. A numeral that does not
/// parse defaults to one millisecond or one second.
fn read_unit(
    v: &Vec<char>,
    q: usize,
    well: bool,
    ival: u64,
    f3: u64,
    Ghost(tok): Ghost<Seq<char>>,
) -> (r: Option<u64>)
    requires
        q <= v@.len(),
        well == well_formed_num(tok),
        well ==> ival as nat == sat64(digits_val(take_digits(tok))),
        well ==> f3 as nat == frac_ms(frac_of(tok)),
        f3 <= 999,
    ensures
        ({
            match token_hint(tok, v@.skip(q as int)) {
                Some(h) => r is Some && r.unwrap() as nat == sat64(h),
                None => r is None,
            }
        }),
{
    let ghost rest = v@.skip(q as int);
    let n: usize = v.len();
    if q < n && v[q] == 'm' && q + 1 < n && v[q + 1] == 's' {
        proof {
            reveal_strlit("ms");
            assert("ms"@.len() == 2 && "ms"@[0] == 'm' && "ms"@[1] == 's');
            assert(rest[0] == 'm' && rest[1] == 's');
            assert(starts_with_seq(rest, "ms"@));
        }
        if well {
            Some(ival)
        } else {
            Some(1)
        }
    } else if q < n && v[q] == 's' {
        proof {
            reveal_strlit("ms");
            reveal_strlit("s");
            assert("ms"@.len() == 2 && "ms"@[0] == 'm' && "ms"@[1] == 's');
            assert("s"@.len() == 1 && "s"@[0] == 's');
            assert(rest[0] == 's');
            assert(starts_with_seq(rest, "s"@));
            if starts_with_seq(rest, "ms"@) {
                assert(rest[0] == "ms"@[0]);
                assert(false);
            }
        }
        if well {
            let total = if ival > (u64::MAX - f3) / 1000 {
                proof {
                    let dv = digits_val(take_digits(tok));
                    if dv > u64::MAX as nat {
                        assert(dv * 1000 + frac_ms(frac_of(tok)) > u64::MAX as nat)
                            by (nonlinear_arith)
                            requires
                                dv > u64::MAX as nat,
                                frac_ms(frac_of(tok)) >= 0,
                        {}
                    } else {
                        assert(ival as nat == dv);
                        assert(ival * 1000 + f3 > u64::MAX) by (nonlinear_arith)
                            requires
                                ival > (u64::MAX - f3) / 1000,
                                f3 <= 999,
                                ival <= u64::MAX,
                        {}
                        assert(dv * 1000 + frac_ms(frac_of(tok)) > u64::MAX as nat);
                    }
                }
                u64::MAX
            } else {
                proof {
                    let dv = digits_val(take_digits(tok));
                    assert(ival * 1000 + f3 <= u64::MAX) by (nonlinear_arith)
                        requires
                            ival <= (u64::MAX - f3) / 1000,
                            f3 <= 999,
                    {}
                    if dv > u64::MAX as nat {
                        assert(ival as nat == u64::MAX as nat);
                        assert(ival * 1000 + f3 >= ival) by (nonlinear_arith)
                            requires
                                ival >= 0,
                                f3 >= 0,
                        {}
                        assert(false);
                    }
                    assert((ival * 1000 + f3) as nat == dv * 1000 + frac_ms(frac_of(tok)));
                }
                ival * 1000 + f3
            };
            Some(total)
        } else {
            Some(1000)
        }
    } else {
        proof {
            reveal_strlit("ms");
            reveal_strlit("s");
            assert("ms"@.len() == 2 && "ms"@[0] == 'm' && "ms"@[1] == 's');
            assert("s"@.len() == 1 && "s"@[0] == 's');
            if starts_with_seq(rest, "ms"@) {
                assert(rest[0] == "ms"@[0] && rest[1] == "ms"@[1]);
                assert(v@[q as int] == 'm' && v@[q + 1] == 's');
                assert(q + 2 <= n);
                assert(false);
            }
            if starts_with_seq(rest, "s"@) {
                assert(rest[0] == "s"@[0]);
                assert(v@[q as int] == 's');
                assert(q < n);
                assert(false);
            }
        }
        None
    }
}

/// Reads the hint numeral that may start at position `p`.
fn hint_at(v: &Vec<char>, p: usize) -> (r: Option<u64>)
    requires
        p <= v@.len(),
    ensures
        ({
            match number_hint(v@.skip(p as int)) {
                Some(h) => r is Some && r.unwrap() as nat == sat64(h),
                None => r is None,
            }
        }),
{
    let n: usize = v.len();
    let ghost t = v@.skip(p as int);
    let tlen = scan_num(v, p);
    let ghost tok = take_num(t);
    proof {
        assert(tok == v@.subrange(p as int, p + tlen));
        assert(tok.len() == tlen);
    }
    if tlen == 0 {
        proof {
            assert(number_hint(t) is None);
        }
        return None;
    }
    let qend: usize = p + tlen;
    proof {
        assert(t.skip(tok.len() as int) =~= v@.skip(qend as int));
        assert(number_hint(t) == token_hint(tok, v@.skip(qend as int)));
    }
    let (dlen, ival) = scan_digits(v, p);
    let ghost d = take_digits(tok);
    proof {
        assert(take_digits(t) == v@.subrange(p as int, p + dlen));
        // the digit run cannot outrun the numeral: the char after the
        // numeral is no digit
        if dlen > tlen {
            assert(is_digit(v@[p + tlen]));
            assert(p + tlen == v@.len() || !is_num_char(v@[p + tlen]));
            assert(false);
        }
        assert(dlen <= tlen);
        if dlen < tlen {
            assert(p + dlen == v@.len() || !is_digit(v@[p + dlen]));
            assert(forall|k: int| 0 <= k < dlen ==> is_digit(#[trigger] tok[k]));
            assert(!is_digit(tok[dlen as int]));
        } else {
            assert(forall|k: int| 0 <= k < dlen ==> is_digit(#[trigger] tok[k]));
        }
        lemma_take_digits_run(tok, dlen as int);
        assert(d == tok.subrange(0, dlen as int));
        assert(take_digits(t) =~= d);
    }
    let mut well = false;
    let mut f3: u64 = 0;
    if dlen == tlen {
        well = true;
        proof {
            assert(d.len() == tok.len());
            assert(well_formed_num(tok));
            assert(frac_of(tok) =~= Seq::<char>::empty());
            assert(frac_ms(frac_of(tok)) == 0);
        }
    } else {
        proof {
            // within the numeral, the char after the digits is a dot
            assert(is_num_char(v@[p + dlen]));
            assert(!is_digit(v@[p + dlen]));
            assert(v@[p + dlen] == '.');
            assert(tok[dlen as int] == '.');
        }
        let (flen, _fval) = scan_digits(v, p + dlen + 1);
        proof {
            // the fraction run stays inside the numeral
            if dlen + 1 + flen > tlen {
                assert(is_digit(v@[p + tlen]));
                assert(p + tlen == v@.len() || !is_num_char(v@[p + tlen]));
                assert(false);
            }
            assert(dlen + 1 + flen <= tlen);
            assert(tok.skip(dlen + 1) =~= v@.subrange(p + dlen + 1, p + tlen as int));
        }
        if dlen + 1 + flen == tlen && dlen + flen >= 1 {
            f3 = frac3(v, p + dlen + 1, flen);
            well = true;
            proof {
                let frv = take_digits(v@.skip(p + dlen + 1));
                assert(frv == v@.subrange(p + dlen + 1, p + dlen + 1 + flen));
                assert(forall|k: int|
                    0 <= k < flen ==> is_digit(#[trigger] tok.skip(dlen + 1)[k]));
                lemma_take_digits_run(tok.skip(dlen + 1), flen as int);
                assert(take_digits(tok.skip(dlen + 1)) =~= frv);
                assert(frac_of(tok) == take_digits(tok.skip(d.len() as int + 1)));
                assert(frac_of(tok) =~= frv);
                assert(well_formed_num(tok));
                assert(f3 as nat == frac_ms(frac_of(tok)));
            }
        } else {
            proof {
                // the numeral holds a second dot, or no digit at all
                let rem = tok.skip(dlen + 1);
                if flen < tlen - dlen - 1 {
                    assert(p + dlen + 1 + flen == v@.len() || !is_digit(
                        v@[p + dlen + 1 + flen],
                    ));
                    assert(forall|k: int|
                        0 <= k < flen ==> is_digit(#[trigger] rem[k]));
                    assert(!is_digit(rem[flen as int]));
                    lemma_take_digits_run(rem, flen as int);
                    assert(frac_of(tok).len() == flen);
                    assert(dlen + 1 + frac_of(tok).len() < tok.len());
                } else {
                    assert(flen == tlen - dlen - 1);
                    assert(forall|k: int|
                        0 <= k < flen ==> is_digit(#[trigger] rem[k]));
                    lemma_take_digits_run(rem, flen as int);
                    assert(frac_of(tok).len() == flen);
                    assert(dlen + flen == 0);
                }
                assert(!well_formed_num(tok));
            }
        }
    }
    read_unit(v, qend, well, ival, f3, Ghost(tok))
}

/// Parses the wait-time hint out of rate-limit error text: the value in
/// milliseconds at the first well-formed hint, saturated at `u64::MAX`.
pub fn parse_wait_hint(body: &str) -> (r: Option<u64>)
    ensures
        ({
            match wait_hint(body@) {
                Some(h) => r is Some && r.unwrap() as nat == sat64(h),
                None => r is None,
            }
        }),
{
    let v = str_chars(body);
    let marker = str_chars("try again in ");
    let mlen: usize = marker.len();
    let n: usize = v.len();
    let mut at: usize = 0;
    while at < n
        invariant
            v@ == body@,
            marker@ == hint_marker(),
            mlen == hint_marker().len(),
            n == v@.len(),
            at <= n,
            wait_hint(body@) == wait_hint_from(v@, at as int),
        decreases n - at,
    {
        let mut is_marker = false;
        if mlen <= n && at <= n - mlen {
            is_marker = starts_with_chars_at(&v, &marker, at);
        }
        if is_marker {
            let p: usize = at + mlen;
            match hint_at(&v, p) {
                Some(w) => {
                    proof {
                        assert(matches_at(v@, hint_marker(), at as int));
                        assert(number_hint(v@.skip(p as int)) is Some);
                        assert(wait_hint_from(v@, at as int) == number_hint(v@.skip(p as int)));
                    }
                    return Some(w);
                },
                None => {
                    proof {
                        assert(number_hint(v@.skip(p as int)) is None);
                        assert(wait_hint_from(v@, at as int) == wait_hint_from(v@, at + 1));
                    }
                },
            }
        } else {
            proof {
                assert(!matches_at(v@, hint_marker(), at as int));
                assert(wait_hint_from(v@, at as int) == wait_hint_from(v@, at + 1));
            }
        }
        at += 1;
    }
    None
}

/// The state of the client across one logical call: how many attempts
/// have completed, and the configured post-success cooldown.
pub struct ClientState {
    pub attempts: u8,
    pub cooldown_ms: u64,
}

/// What the transport observed: a response with its status, body text and
/// (for successful statuses) the extracted completion string, or a failure
/// to send at all.
pub enum ClientEvent {
    Response { status: u16, body: String, completion: Option<String> },
    SendFailed { message: String },
}

/// What the client must do next: sleep and retry, return the sanitized
/// text after the cooldown, or surface an error.
pub enum ClientStep {
    RetryAfter { wait_ms: u64 },
    Succeed { text: String, cooldown_ms: u64 },
    Fail { error: ProviderError },
}

/// Decides the client's next move from one transport event. Every call to
/// the provider passes through this decision: a successful status with an
/// extracted completion succeeds with the sanitized text and the
/// configured cooldown; a missing completion is a malformed response; a
/// rate-limit status retries after the parsed wait hint, up to the retry
/// ceiling, and surfaces `RateLimited` beyond it or without a hint; an
/// oversized request, an authentication failure and an unavailable
/// service map to their own categories; anything else is `Other`.
pub fn client_step(state: &mut ClientState, event: ClientEvent) -> (r: ClientStep)
    ensures
        final(state).cooldown_ms == old(state).cooldown_ms,
        ({
            match event {
                ClientEvent::SendFailed { message } => {
                    &&& final(state).attempts == old(state).attempts
                    &&& r matches ClientStep::Fail { error: ProviderError::Other(m) } && m@
                        == "Failed to connect to AI service: "@ + message@
                },
                ClientEvent::Response { status, body, completion } => {
                    if 200 <= status < 300 {
                        &&& final(state).attempts == old(state).attempts
                        &&& match completion {
                            Some(text) => r matches ClientStep::Succeed {
                                text: t,
                                cooldown_ms: c,
                            } && t@ == sanitized(text@) && c == old(state).cooldown_ms,
                            None => r matches ClientStep::Fail {
                                error: ProviderError::MalformedResponse,
                            },
                        }
                    } else if status == 429 {
                        match wait_hint(body@) {
                            Some(h) => {
                                if old(state).attempts + 1 < RETRY_LIMIT {
                                    &&& final(state).attempts == old(state).attempts + 1
                                    &&& r matches ClientStep::RetryAfter { wait_ms } && wait_ms
                                        as nat == sat64(h)
                                } else {
                                    &&& final(state).attempts == old(state).attempts
                                    &&& r matches ClientStep::Fail {
                                        error: ProviderError::RateLimited,
                                    }
                                }
                            },
                            None => {
                                &&& final(state).attempts == old(state).attempts
                                &&& r matches ClientStep::Fail {
                                    error: ProviderError::RateLimited,
                                }
                            },
                        }
                    } else if status == 413 {
                        &&& final(state).attempts == old(state).attempts
                        &&& r matches ClientStep::Fail { error: ProviderError::Other(m) } && m@
                            == "AI request too large. Please reduce the size of your request."@
                    } else if status == 503 {
                        &&& final(state).attempts == old(state).attempts
                        &&& r matches ClientStep::Fail { error: ProviderError::Unavailable }
                    } else if status == 401 {
                        &&& final(state).attempts == old(state).attempts
                        &&& r matches ClientStep::Fail { error: ProviderError::AuthFailure }
                    } else {
                        &&& final(state).attempts == old(state).attempts
                        &&& r matches ClientStep::Fail { error: ProviderError::Other(m) } && m@
                            == "AI service error: "@ + decimal_of(status as nat) + " - "@
                            + body@
                    }
                },
            }
        }),
{
    match event {
        ClientEvent::SendFailed { message } => {
            let mut m = String::new();
            m.append("Failed to connect to AI service: ");
            m.append(message.as_str());
            ClientStep::Fail { error: ProviderError::Other(m) }
        },
        ClientEvent::Response { status, body, completion } => {
            if 200 <= status && status < 300 {
                match completion {
                    Some(text) => {
                        let clean = sanitize_response(text.as_str());
                        ClientStep::Succeed { text: clean, cooldown_ms: state.cooldown_ms }
                    },
                    None => ClientStep::Fail { error: ProviderError::MalformedResponse },
                }
            } else if status == 429 {
                match parse_wait_hint(body.as_str()) {
                    Some(w) => {
                        if state.attempts < RETRY_LIMIT - 1 {
                            state.attempts = state.attempts + 1;
                            ClientStep::RetryAfter { wait_ms: w }
                        } else {
                            ClientStep::Fail { error: ProviderError::RateLimited }
                        }
                    },
                    None => ClientStep::Fail { error: ProviderError::RateLimited },
                }
            } else if status == 413 {
                let mut m = String::new();
                m.append("AI request too large. Please reduce the size of your request.");
                ClientStep::Fail { error: ProviderError::Other(m) }
            } else if status == 503 {
                ClientStep::Fail { error: ProviderError::Unavailable }
            } else if status == 401 {
                ClientStep::Fail { error: ProviderError::AuthFailure }
            } else {
                let mut m = String::new();
                m.append("AI service error: ");
                let digits = usize_decimal(status as usize);
                let ds = chars_string(&digits);
                m.append(ds.as_str());
                m.append(" - ");
                m.append(body.as_str());
                ClientStep::Fail { error: ProviderError::Other(m) }
            }
        },
    }
}

} // verus!

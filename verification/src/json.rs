//! Byte-level helpers for the JSON record envelope: string escaping and
//! unescaping, and decimal formatting and parsing of `u64` values.
//!
//! The envelope is composed and parsed over bytes.  The escaping scheme
//! is the usual JSON one: `"` and `\` get a backslash escape, the common
//! control characters get their short escapes, and the remaining control
//! bytes are written as `\u00XX` with lowercase hex digits.  Non-ASCII
//! bytes pass through verbatim.

use vstd::prelude::*;
use vstd::arithmetic::div_mod::lemma_fundamental_div_mod;

verus! {

/// The lowercase hex digit for a value below 16.
pub open spec fn spec_hex_digit(n: u8) -> u8 {
    if n < 10 { (48 + n) as u8 } else { (87 + n) as u8 }
}

/// The escape sequence a byte contributes to a JSON string.
pub open spec fn esc_byte(b: u8) -> Seq<u8> {
    if b == 34 { seq![92u8, 34u8] }
    else if b == 92 { seq![92u8, 92u8] }
    else if b == 8 { seq![92u8, 98u8] }
    else if b == 9 { seq![92u8, 116u8] }
    else if b == 10 { seq![92u8, 110u8] }
    else if b == 12 { seq![92u8, 102u8] }
    else if b == 13 { seq![92u8, 114u8] }
    else if b < 32 {
        seq![92u8, 117u8, 48u8, 48u8, spec_hex_digit(b / 16), spec_hex_digit(b % 16)]
    }
    else { seq![b] }
}

/// The JSON-escaped form of a byte string (without surrounding quotes).
pub open spec fn esc(s: Seq<u8>) -> Seq<u8>
    decreases s.len(),
{
    if s.len() == 0 {
        Seq::<u8>::empty()
    } else {
        esc_byte(s[0]) + esc(s.skip(1))
    }
}

proof fn lemma_esc_take_snoc(s: Seq<u8>, i: int)
    requires
        0 <= i < s.len(),
    ensures
        esc(s.take(i + 1)) == esc(s.take(i)) + esc_byte(s[i]),
    decreases i,
{
    if i == 0 {
        assert(s.take(1) =~= seq![s[0]]);
        assert(s.take(1).skip(1) =~= Seq::<u8>::empty());
        assert(esc(Seq::<u8>::empty()) =~= Seq::<u8>::empty());
        assert(esc(s.take(1)) == esc_byte(s[0]) + esc(Seq::<u8>::empty()));
        assert(esc(s.take(1)) =~= esc_byte(s[0]));
        assert(s.take(0) =~= Seq::<u8>::empty());
        assert(esc(s.take(0)) + esc_byte(s[0]) =~= esc_byte(s[0]));
    } else {
        let t = s.skip(1);
        lemma_esc_take_snoc(t, i - 1);
        assert(s.take(i + 1).skip(1) =~= t.take(i));
        assert(s.take(i).skip(1) =~= t.take(i - 1));
        assert(s.take(i + 1)[0] == s[0]);
        assert(s.take(i)[0] == s[0]);
        assert(t[i - 1] == s[i]);
        assert(esc(s.take(i + 1)) == esc_byte(s[0]) + esc(t.take(i)));
        assert(esc(s.take(i)) == esc_byte(s[0]) + esc(t.take(i - 1)));
        assert(esc_byte(s[0]) + (esc(t.take(i - 1)) + esc_byte(s[i]))
            =~= (esc_byte(s[0]) + esc(t.take(i - 1))) + esc_byte(s[i]));
    }
}

/// The lowercase hex digit of a value below 16.
pub fn hex_digit(n: u8) -> (r: u8)
    requires
        n < 16,
    ensures
        r == spec_hex_digit(n),
{
    if n < 10 { 48 + n } else { 87 + n }
}

/// Appends the JSON-escaped form of `src` to `out`.
pub fn escape_into(src: &Vec<u8>, out: &mut Vec<u8>)
    ensures
        final(out)@ == old(out)@ + esc(src@),
{
    let ghost base = out@;
    let mut i: usize = 0;
    while i < src.len()
        invariant
            0 <= i <= src@.len(),
            out@ == base + esc(src@.take(i as int)),
        decreases src@.len() - i,
    {
        let b = src[i];
        proof {
            lemma_esc_take_snoc(src@, i as int);
        }
        if b == 34 {
            out.push(92); out.push(34);
        } else if b == 92 {
            out.push(92); out.push(92);
        } else if b == 8 {
            out.push(92); out.push(98);
        } else if b == 9 {
            out.push(92); out.push(116);
        } else if b == 10 {
            out.push(92); out.push(110);
        } else if b == 12 {
            out.push(92); out.push(102);
        } else if b == 13 {
            out.push(92); out.push(114);
        } else if b < 32 {
            out.push(92); out.push(117); out.push(48); out.push(48);
            out.push(hex_digit(b / 16));
            out.push(hex_digit(b % 16));
        } else {
            out.push(b);
        }
        assert(out@ =~= base + esc(src@.take(i as int)) + esc_byte(src@[i as int]));
        i = i + 1;
    }
    assert(src@.take(src@.len() as int) =~= src@);
}

/// The byte a short escape code stands for, if it is one.
pub open spec fn esc_code(e: u8) -> Option<u8> {
    if e == 34 { Some(34u8) }
    else if e == 92 { Some(92u8) }
    else if e == 47 { Some(47u8) }
    else if e == 98 { Some(8u8) }
    else if e == 116 { Some(9u8) }
    else if e == 110 { Some(10u8) }
    else if e == 102 { Some(12u8) }
    else if e == 114 { Some(13u8) }
    else { None }
}

/// The value of a hex digit byte, if it is one.
pub open spec fn spec_hex_val(c: u8) -> Option<u8> {
    if 48 <= c && c <= 57 { Some((c - 48) as u8) }
    else if 97 <= c && c <= 102 { Some((c - 87) as u8) }
    else if 65 <= c && c <= 70 { Some((c - 55) as u8) }
    else { None }
}

/// Reads a JSON string body up to and including its closing quote:
/// the decoded bytes and the number of input bytes consumed.  `None`
/// when the input is not a JSON string body (an unterminated string,
/// a bad escape, or a raw control byte).
pub open spec fn unesc(s: Seq<u8>) -> Option<(Seq<u8>, int)>
    decreases s.len(),
{
    if s.len() == 0 {
        None
    } else if s[0] == 34 {
        Some((Seq::<u8>::empty(), 1))
    } else if s[0] == 92 {
        if s.len() >= 2 && esc_code(s[1]) is Some {
            match unesc(s.skip(2)) {
                Some(pn) => Some((seq![esc_code(s[1]).unwrap()] + pn.0, 2 + pn.1)),
                None => None,
            }
        } else if s.len() >= 6 && s[1] == 117 && s[2] == 48 && s[3] == 48
            && spec_hex_val(s[4]) is Some && spec_hex_val(s[5]) is Some {
            match unesc(s.skip(6)) {
                Some(pn) => Some((
                    seq![(spec_hex_val(s[4]).unwrap() * 16 + spec_hex_val(s[5]).unwrap()) as u8] + pn.0,
                    6 + pn.1,
                )),
                None => None,
            }
        } else {
            None
        }
    } else if s[0] < 32 {
        None
    } else {
        match unesc(s.skip(1)) {
            Some(pn) => Some((seq![s[0]] + pn.0, 1 + pn.1)),
            None => None,
        }
    }
}

proof fn lemma_hex_val_of_digit(n: u8)
    requires
        n < 16,
    ensures
        spec_hex_val(spec_hex_digit(n)) == Some(n),
{
}

/// Unescaping inverts escaping: the escaped form of `p`, closed with a
/// quote and followed by anything, reads back as exactly `p`.
pub proof fn lemma_unesc_esc(p: Seq<u8>, rest: Seq<u8>)
    ensures
        unesc(esc(p) + seq![34u8] + rest) == Some((p, esc(p).len() as int + 1)),
    decreases p.len(),
{
    let s = esc(p) + seq![34u8] + rest;
    if p.len() == 0 {
        assert(esc(p) =~= Seq::<u8>::empty());
        assert(s[0] == 34);
        assert(unesc(s) == Some((Seq::<u8>::empty(), 1int)));
        assert(p =~= Seq::<u8>::empty());
    } else {
        let b = p[0];
        let e = esc_byte(b);
        let tail = esc(p.skip(1)) + seq![34u8] + rest;
        lemma_unesc_esc(p.skip(1), rest);
        assert(esc(p) == e + esc(p.skip(1)));
        assert(s =~= e + tail);
        let k = e.len();
        assert(s.skip(k as int) =~= tail);
        if b == 34 || b == 92 {
            assert(s[0] == 92 && esc_code(s[1]) == Some(b));
            assert(s.skip(2) =~= tail);
            assert(unesc(s) == Some((seq![b] + p.skip(1), 2 + esc(p.skip(1)).len() as int + 1)));
            assert(seq![b] + p.skip(1) =~= p);
        } else if b == 8 || b == 9 || b == 10 || b == 12 || b == 13 {
            assert(s[0] == 92 && esc_code(s[1]) == Some(b));
            assert(s.skip(2) =~= tail);
            assert(unesc(s) == Some((seq![b] + p.skip(1), 2 + esc(p.skip(1)).len() as int + 1)));
            assert(seq![b] + p.skip(1) =~= p);
        } else if b < 32 {
            assert(s[0] == 92 && s[1] == 117 && s[2] == 48 && s[3] == 48);
            assert(esc_code(117u8) is None);
            assert(s[4] == spec_hex_digit(b / 16) && s[5] == spec_hex_digit(b % 16));
            lemma_hex_val_of_digit(b / 16);
            lemma_hex_val_of_digit(b % 16);
            lemma_fundamental_div_mod(b as int, 16);
            assert((b / 16) * 16 + (b % 16) == b);
            assert(s.skip(6) =~= tail);
            assert(unesc(s) == Some((seq![b] + p.skip(1), 6 + esc(p.skip(1)).len() as int + 1)));
            assert(seq![b] + p.skip(1) =~= p);
        } else {
            assert(s[0] == b && b != 34 && b != 92 && b >= 32);
            assert(s.skip(1) =~= tail);
            assert(unesc(s) == Some((seq![b] + p.skip(1), 1 + esc(p.skip(1)).len() as int + 1)));
            assert(seq![b] + p.skip(1) =~= p);
        }
        assert(esc(p).len() == k + esc(p.skip(1)).len());
    }
}

/// The decimal digits of `n`, most significant first.
pub open spec fn spec_dec(n: u64) -> Seq<u8>
    decreases n,
{
    if n < 10 {
        seq![(48 + n) as u8]
    } else {
        spec_dec(n / 10) + seq![(48 + n % 10) as u8]
    }
}

/// Whether a byte is a decimal digit.
pub open spec fn is_digit(b: u8) -> bool {
    48 <= b && b <= 57
}

/// The number of leading decimal digits of `s`.
pub open spec fn leading_digits(s: Seq<u8>) -> int
    decreases s.len(),
{
    if s.len() > 0 && is_digit(s[0]) {
        1 + leading_digits(s.skip(1))
    } else {
        0
    }
}

/// The value of a digit string, as an unbounded integer.
pub open spec fn digits_val(s: Seq<u8>) -> int
    decreases s.len(),
{
    if s.len() == 0 {
        0
    } else {
        digits_val(s.take(s.len() - 1)) * 10 + (s[s.len() - 1] - 48)
    }
}

/// Reads a run of decimal digits as a `u64`: the value and the number of
/// bytes consumed.  `None` when no digit leads, or the value exceeds `u64`.
pub open spec fn parse_u64(s: Seq<u8>) -> Option<(u64, int)> {
    let k = leading_digits(s);
    if k == 0 {
        None
    } else if digits_val(s.take(k)) > u64::MAX {
        None
    } else {
        Some((digits_val(s.take(k)) as u64, k))
    }
}

proof fn lemma_spec_dec_digits(n: u64)
    ensures
        spec_dec(n).len() >= 1,
        forall|i: int| 0 <= i < spec_dec(n).len() ==> is_digit(#[trigger] spec_dec(n)[i]),
    decreases n,
{
    if n >= 10 {
        lemma_spec_dec_digits(n / 10);
    }
}

proof fn lemma_leading_digits_exact(d: Seq<u8>, rest: Seq<u8>)
    requires
        forall|i: int| 0 <= i < d.len() ==> is_digit(#[trigger] d[i]),
        rest.len() == 0 || !is_digit(rest[0]),
    ensures
        leading_digits(d + rest) == d.len(),
    decreases d.len(),
{
    let s = d + rest;
    if d.len() == 0 {
        assert(s =~= rest);
    } else {
        lemma_leading_digits_exact(d.skip(1), rest);
        assert(s.skip(1) =~= d.skip(1) + rest);
        assert(is_digit(s[0]));
    }
}

proof fn lemma_digits_val_spec_dec(n: u64)
    ensures
        digits_val(spec_dec(n)) == n,
    decreases n,
{
    if n < 10 {
        let s = spec_dec(n);
        assert(s.take(0) =~= Seq::<u8>::empty());
        assert(digits_val(Seq::<u8>::empty()) == 0);
        assert(digits_val(s) == 0 * 10 + (s[0] - 48));
    } else {
        lemma_digits_val_spec_dec(n / 10);
        let a = spec_dec(n / 10);
        let s = spec_dec(n);
        assert(s.take(s.len() - 1) =~= a);
        assert(s[s.len() - 1] == 48 + n % 10);
        lemma_fundamental_div_mod(n as int, 10);
    }
}

proof fn lemma_digits_val_take(s: Seq<u8>, j: int, k: int)
    requires
        0 <= j <= k <= s.len(),
        forall|i: int| 0 <= i < k ==> is_digit(#[trigger] s[i]),
    ensures
        0 <= digits_val(s.take(j)) <= digits_val(s.take(k)),
    decreases k - j,
{
    if j == k {
        lemma_digits_val_nonneg(s, j);
    } else {
        lemma_digits_val_take(s, j, k - 1);
        let t = s.take(k);
        assert(t.take(k - 1) =~= s.take(k - 1));
        assert(digits_val(t) == digits_val(s.take(k - 1)) * 10 + (t[k - 1] - 48));
        lemma_digits_val_nonneg(s, k - 1);
    }
}

proof fn lemma_digits_val_nonneg(s: Seq<u8>, j: int)
    requires
        0 <= j <= s.len(),
        forall|i: int| 0 <= i < j ==> is_digit(#[trigger] s[i]),
    ensures
        digits_val(s.take(j)) >= 0,
    decreases j,
{
    if j > 0 {
        lemma_digits_val_nonneg(s, j - 1);
        let t = s.take(j);
        assert(t.take(j - 1) =~= s.take(j - 1));
        assert(digits_val(t) == digits_val(s.take(j - 1)) * 10 + (t[j - 1] - 48));
    }
}

/// Decimal parsing inverts decimal formatting: the digits of `n` followed
/// by a non-digit (or nothing) read back as exactly `n`.
pub proof fn lemma_parse_spec_dec(n: u64, rest: Seq<u8>)
    requires
        rest.len() == 0 || !is_digit(rest[0]),
    ensures
        parse_u64(spec_dec(n) + rest) == Some((n, spec_dec(n).len() as int)),
{
    let d = spec_dec(n);
    let s = d + rest;
    lemma_spec_dec_digits(n);
    lemma_leading_digits_exact(d, rest);
    assert(s.take(d.len() as int) =~= d);
    lemma_digits_val_spec_dec(n);
}

/// Appends the decimal digits of `n` to `out`.
pub fn push_dec(n: u64, out: &mut Vec<u8>)
    ensures
        final(out)@ == old(out)@ + spec_dec(n),
    decreases n,
{
    if n >= 10 {
        push_dec(n / 10, out);
    }
    out.push((n % 10) as u8 + 48);
    assert(final(out)@ =~= old(out)@ + spec_dec(n));
}

/// The byte a short escape code stands for, if it is one.
pub fn esc_code_exec(e: u8) -> (r: Option<u8>)
    ensures
        r == esc_code(e),
{
    if e == 34 { Some(34) }
    else if e == 92 { Some(92) }
    else if e == 47 { Some(47) }
    else if e == 98 { Some(8) }
    else if e == 116 { Some(9) }
    else if e == 110 { Some(10) }
    else if e == 102 { Some(12) }
    else if e == 114 { Some(13) }
    else { None }
}

/// The value of a hex digit byte, if it is one.
pub fn hex_val_exec(c: u8) -> (r: Option<u8>)
    ensures
        r == spec_hex_val(c),
        r matches Some(n) ==> n < 16,
{
    if 48 <= c && c <= 57 { Some(c - 48) }
    else if 97 <= c && c <= 102 { Some(c - 87) }
    else if 65 <= c && c <= 70 { Some(c - 55) }
    else { None }
}

/// How far a partial scan has got: reading the rest of the input from
/// `rem` with `done` already decoded and `used` bytes already consumed
/// agrees with reading the whole of `full`.
pub open spec fn unesc_step_ok(full: Seq<u8>, done: Seq<u8>, rem: Seq<u8>, used: int) -> bool {
    match unesc(rem) {
        Some(pn) => unesc(full) == Some((done + pn.0, used + pn.1)),
        None => unesc(full) is None,
    }
}

/// Reads a JSON string body of `v` starting at `start`, up to and
/// including its closing quote.  Returns the decoded bytes and the index
/// just past the closing quote, or `None` where no well-formed string
/// body starts there.
pub fn unescape_at(v: &Vec<u8>, start: usize) -> (r: Option<(Vec<u8>, usize)>)
    requires
        start <= v@.len(),
    ensures
        match r {
            Some(pj) => start < pj.1 <= v@.len()
                && unesc(v@.skip(start as int)) == Some((pj.0@, pj.1 - start)),
            None => unesc(v@.skip(start as int)) is None,
        },
{
    let ghost full = v@.skip(start as int);
    let mut out: Vec<u8> = Vec::new();
    let mut i: usize = start;
    proof {
        match unesc(full) {
            Some(pn) => {
                assert(Seq::<u8>::empty() + pn.0 =~= pn.0);
            }
            None => {}
        }
    }
    loop
        invariant
            start <= i <= v@.len(),
            full == v@.skip(start as int),
            unesc_step_ok(full, out@, v@.skip(i as int), i - start),
        decreases v@.len() - i,
    {
        let ghost rem = v@.skip(i as int);
        if i == v.len() {
            assert(rem.len() == 0);
            return None;
        }
        let b = v[i];
        assert(rem[0] == b);
        if b == 34 {
            assert(unesc(rem) == Some((Seq::<u8>::empty(), 1int)));
            assert(out@ + Seq::<u8>::empty() =~= out@);
            return Some((out, i + 1));
        } else if b == 92 {
            if i + 1 == v.len() {
                assert(rem.len() == 1);
                assert(unesc(rem) is None);
                return None;
            }
            let e = v[i + 1];
            assert(rem[1] == e);
            match esc_code_exec(e) {
                Some(c) => {
                    let ghost done0 = out@;
                    proof {
                        assert(rem.skip(2) =~= v@.skip(i + 2));
                        match unesc(v@.skip(i + 2)) {
                            Some(pn) => {
                                assert(unesc(rem) == Some((seq![c] + pn.0, 2 + pn.1)));
                                assert(done0 + (seq![c] + pn.0) =~= done0.push(c) + pn.0);
                            }
                            None => {
                                assert(unesc(rem) is None);
                            }
                        }
                    }
                    out.push(c);
                    assert(out@ == done0.push(c));
                    i = i + 2;
                }
                None => {
                    if e == 117 {
                        if v.len() - i < 6 {
                            assert(rem.len() < 6);
                            assert(unesc(rem) is None);
                            return None;
                        }
                        assert(rem[2] == v@[i + 2] && rem[3] == v@[i + 3]
                            && rem[4] == v@[i + 4] && rem[5] == v@[i + 5]);
                        if v[i + 2] != 48 || v[i + 3] != 48 {
                            assert(unesc(rem) is None);
                            return None;
                        }
                        let h1 = hex_val_exec(v[i + 4]);
                        let h2 = hex_val_exec(v[i + 5]);
                        match (h1, h2) {
                            (Some(a), Some(bb)) => {
                                let c = a * 16 + bb;
                                let ghost done0 = out@;
                                proof {
                                    assert(rem.skip(6) =~= v@.skip(i + 6));
                                    match unesc(v@.skip(i + 6)) {
                                        Some(pn) => {
                                            assert(unesc(rem) == Some((seq![c] + pn.0, 6 + pn.1)));
                                            assert(done0 + (seq![c] + pn.0) =~= done0.push(c) + pn.0);
                                        }
                                        None => {
                                            assert(unesc(rem) is None);
                                        }
                                    }
                                }
                                out.push(c);
                                assert(out@ == done0.push(c));
                                i = i + 6;
                            }
                            _ => {
                                assert(unesc(rem) is None);
                                return None;
                            }
                        }
                    } else {
                        assert(unesc(rem) is None);
                        return None;
                    }
                }
            }
        } else if b < 32 {
            assert(unesc(rem) is None);
            return None;
        } else {
            let ghost done0 = out@;
            proof {
                assert(rem.skip(1) =~= v@.skip(i + 1));
                match unesc(v@.skip(i + 1)) {
                    Some(pn) => {
                        assert(unesc(rem) == Some((seq![b] + pn.0, 1 + pn.1)));
                        assert(done0 + (seq![b] + pn.0) =~= done0.push(b) + pn.0);
                    }
                    None => {
                        assert(unesc(rem) is None);
                    }
                }
            }
            out.push(b);
            assert(out@ == done0.push(b));
            i = i + 1;
        }
    }
}

proof fn lemma_leading_digits_from_index(s: Seq<u8>, m: int)
    requires
        0 <= m <= s.len(),
        forall|i: int| 0 <= i < m ==> is_digit(#[trigger] s[i]),
        m == s.len() || !is_digit(s[m]),
    ensures
        leading_digits(s) == m,
    decreases m,
{
    if m == 0 {
    } else {
        assert(is_digit(s[0]));
        lemma_leading_digits_from_index(s.skip(1), m - 1);
    }
}

/// Reads a run of decimal digits of `v` starting at `start` as a `u64`.
/// Returns the value and the index just past the digits, or `None` where
/// no digit leads or the value exceeds `u64`.
pub fn parse_u64_at(v: &Vec<u8>, start: usize) -> (r: Option<(u64, usize)>)
    requires
        start <= v@.len(),
    ensures
        match r {
            Some(nk) => start < nk.1 <= v@.len()
                && parse_u64(v@.skip(start as int)) == Some((nk.0, nk.1 - start)),
            None => parse_u64(v@.skip(start as int)) is None,
        },
{
    let ghost s = v@.skip(start as int);
    let mut j: usize = start;
    while j < v.len() && 48 <= v[j] && v[j] <= 57
        invariant
            start <= j <= v@.len(),
            forall|i: int| start <= i < j ==> is_digit(#[trigger] v@[i]),
        decreases v@.len() - j,
    {
        j = j + 1;
    }
    let ghost m = j - start;
    proof {
        assert(forall|i: int| 0 <= i < m ==> s[i] == v@[i + start] && is_digit(#[trigger] s[i]));
        assert(m == s.len() || !is_digit(s[m]));
        lemma_leading_digits_from_index(s, m);
    }
    if j == start {
        return None;
    }
    let mut acc: u64 = 0;
    let mut i: usize = start;
    proof {
        assert(s.take(0) =~= Seq::<u8>::empty());
    }
    while i < j
        invariant
            start <= i <= j <= v@.len(),
            s == v@.skip(start as int),
            m == j - start,
            leading_digits(s) == m,
            forall|k: int| 0 <= k < m ==> is_digit(#[trigger] s[k]),
            acc as int == digits_val(s.take(i - start)),
        decreases j - i,
    {
        assert(is_digit(s[i - start]) && s[i - start] == v@[i as int]);
        let d = v[i] - 48;
        let q = (u64::MAX - d as u64) / 10;
        proof {
            lemma_fundamental_div_mod(u64::MAX - d as u64, 10);
            assert(s.take(i - start + 1).take(i - start) =~= s.take(i - start));
            assert(s.take(i - start + 1)[i - start] == s[i - start]);
            assert(digits_val(s.take(i - start + 1)) == digits_val(s.take(i - start)) * 10 + d);
        }
        if acc > q {
            proof {
                assert(acc as int * 10 + d > u64::MAX);
                lemma_digits_val_take(s, i - start + 1, m);
                assert(digits_val(s.take(m)) > u64::MAX);
            }
            return None;
        }
        proof {
            assert(acc as int * 10 + d <= u64::MAX);
        }
        acc = acc * 10 + d as u64;
        i = i + 1;
    }
    assert(acc as int == digits_val(s.take(m)));
    Some((acc, j))
}

} // verus!

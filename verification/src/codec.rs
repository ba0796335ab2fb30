//! Byte-exact JSON codec for the archive's on-disk records.
//!
//! Each record kind has a spec-level encoding function, a spec-level
//! decoder, executable functions proved against them, and lemmas showing
//! the decoder inverts the encoder on every well-formed value.

use vstd::prelude::*;
use crate::bytes::ascii_bytes;

verus! {

/// The double-quote byte, which terminates every encoded string.
pub const QUOTE: u8 = 34;

/// An ASCII decimal digit.
pub open spec fn is_digit(b: u8) -> bool {
    48 <= b <= 57
}

/// Bytes that may stand inside a JSON string without escaping: anything
/// but the quote, the backslash, and the control bytes, which JSON
/// cannot carry raw. Bytes above 127 pass through: they are the interior
/// of multi-byte UTF-8 sequences, which never contain the quote byte.
pub open spec fn json_safe(s: Seq<u8>) -> bool {
    forall|i: int| 0 <= i < s.len() ==> 32 <= #[trigger] s[i] && s[i] != 34 && s[i] != 92
}

/// Decimal digits of `n`, most significant first.
pub open spec fn dec_of(n: u64) -> Seq<u8>
    decreases n,
{
    if n < 10 {
        seq![(48 + n) as u8]
    } else {
        dec_of(n / 10).push((48 + n % 10) as u8)
    }
}

/// Value of a digit string, interpreted in base ten.
pub open spec fn dec_val(s: Seq<u8>) -> int
    decreases s.len(),
{
    if s.len() == 0 {
        0
    } else {
        dec_val(s.drop_last()) * 10 + (s.last() - 48)
    }
}

/// A string body followed by its closing quote.
pub open spec fn enc_quoted(v: Seq<u8>) -> Seq<u8> {
    v + seq![34u8]
}

/// Decimal encoding of a signed value: a minus sign, then the magnitude.
pub open spec fn i64_dec(t: i64) -> Seq<u8> {
    if t >= 0 {
        dec_of(t as u64)
    } else {
        seq![45u8] + dec_of((-(t as int)) as u64)
    }
}

/// The digits of `dec_of` are digits, and there is at least one.
pub proof fn lemma_dec_of_digits(n: u64)
    ensures
        dec_of(n).len() >= 1,
        forall|i: int| 0 <= i < dec_of(n).len() ==> is_digit(#[trigger] dec_of(n)[i]),
    decreases n,
{
    if n >= 10 {
        lemma_dec_of_digits(n / 10);
        assert(forall|i: int|
            0 <= i < dec_of(n / 10).len() ==> dec_of(n)[i] == #[trigger] dec_of(n / 10)[i]);
    }
}

/// Reading the digits of `n` back gives `n`.
pub proof fn lemma_dec_val_of(n: u64)
    ensures
        dec_val(dec_of(n)) == n,
    decreases n,
{
    if n < 10 {
        assert(dec_of(n) =~= seq![(48 + n) as u8]);
        assert(dec_of(n).drop_last() =~= Seq::<u8>::empty());
        assert(dec_val(Seq::<u8>::empty()) == 0);
        assert(dec_val(dec_of(n).drop_last()) == 0);
    } else {
        lemma_dec_val_of(n / 10);
        assert(dec_of(n).drop_last() =~= dec_of(n / 10));
        assert(dec_of(n).last() == (48 + n % 10) as u8);
        assert(n == (n / 10) * 10 + n % 10) by {
            vstd::arithmetic::div_mod::lemma_fundamental_div_mod(n as int, 10);
        }
    }
}

/// A digit string's value only grows as more digits are appended.
pub proof fn lemma_dec_val_prefix(s: Seq<u8>, i: int)
    requires
        0 <= i <= s.len(),
        forall|j: int| 0 <= j < s.len() ==> is_digit(#[trigger] s[j]),
    ensures
        0 <= dec_val(s.take(i)) <= dec_val(s),
    decreases s.len(),
{
    if s.len() == 0 {
        assert(s.take(i) =~= s);
    } else if i == s.len() {
        assert(s.take(i) =~= s);
        lemma_dec_val_prefix(s.drop_last(), s.len() - 1);
        assert(s.drop_last().take(s.len() - 1) =~= s.drop_last());
    } else {
        assert(s.take(i) =~= s.drop_last().take(i));
        lemma_dec_val_prefix(s.drop_last(), i);
    }
}

/// Where a maximal digit run starting at `pos` ends.
pub open spec fn digit_run_end(s: Seq<u8>, pos: int) -> int
    decreases s.len() - pos,
{
    if pos < 0 || pos >= s.len() {
        pos
    } else if !is_digit(s[pos]) {
        pos
    } else {
        digit_run_end(s, pos + 1)
    }
}

/// A run of `k` digits followed by a non-digit (or the end) is maximal.
pub proof fn lemma_digit_run(s: Seq<u8>, pos: int, k: int)
    requires
        0 <= pos,
        0 <= k,
        pos + k <= s.len(),
        forall|j: int| pos <= j < pos + k ==> is_digit(#[trigger] s[j]),
        pos + k == s.len() || !is_digit(s[pos + k]),
    ensures
        digit_run_end(s, pos) == pos + k,
    decreases k,
{
    if k > 0 {
        lemma_digit_run(s, pos + 1, k - 1);
    }
}

/// Parse an unsigned decimal number: the value of the maximal digit run.
pub open spec fn sp_u64(s: Seq<u8>, pos: int) -> Option<(u64, int)> {
    let e = digit_run_end(s, pos);
    if e == pos {
        None
    } else if dec_val(s.subrange(pos, e)) <= u64::MAX {
        Some((dec_val(s.subrange(pos, e)) as u64, e))
    } else {
        None
    }
}

/// Parse a signed decimal number: an optional minus sign, then digits.
pub open spec fn sp_i64(s: Seq<u8>, pos: int) -> Option<(i64, int)> {
    if 0 <= pos < s.len() && s[pos] == 45 {
        match sp_u64(s, pos + 1) {
            Some((m, e)) => if m <= i64::MAX as u64 + 1 {
                Some(((-(m as int)) as i64, e))
            } else {
                None
            },
            None => None,
        }
    } else {
        match sp_u64(s, pos) {
            Some((m, e)) => if m <= i64::MAX as u64 {
                Some((m as i64, e))
            } else {
                None
            },
            None => None,
        }
    }
}

/// The decoder reads back exactly the digits the encoder wrote.
pub proof fn lemma_sp_u64_complete(s: Seq<u8>, pos: int, n: u64)
    requires
        0 <= pos,
        pos + dec_of(n).len() <= s.len(),
        s.subrange(pos, pos + dec_of(n).len() as int) == dec_of(n),
        pos + dec_of(n).len() == s.len() || !is_digit(s[pos + dec_of(n).len()]),
    ensures
        sp_u64(s, pos) == Some((n, pos + dec_of(n).len() as int)),
{
    lemma_dec_of_digits(n);
    lemma_dec_val_of(n);
    let k = dec_of(n).len() as int;
    assert forall|j: int| pos <= j < pos + k implies is_digit(#[trigger] s[j]) by {
        assert(s.subrange(pos, pos + k)[j - pos] == s[j]);
        assert(is_digit(dec_of(n)[j - pos]));
    }
    lemma_digit_run(s, pos, k);
}

/// Signed counterpart of `lemma_sp_u64_complete`.
pub proof fn lemma_sp_i64_complete(s: Seq<u8>, pos: int, t: i64)
    requires
        0 <= pos,
        pos + i64_dec(t).len() <= s.len(),
        s.subrange(pos, pos + i64_dec(t).len() as int) == i64_dec(t),
        pos + i64_dec(t).len() == s.len() || !is_digit(s[pos + i64_dec(t).len()]),
    ensures
        sp_i64(s, pos) == Some((t, pos + i64_dec(t).len() as int)),
{
    if t >= 0 {
        lemma_sp_u64_complete(s, pos, t as u64);
        lemma_dec_of_digits(t as u64);
        assert(s.subrange(pos, pos + dec_of(t as u64).len() as int)[0] == s[pos]);
        assert(s[pos] == dec_of(t as u64)[0]);
        assert(is_digit(dec_of(t as u64)[0]));
        assert(s[pos] != 45);
    } else {
        let m = (-(t as int)) as u64;
        let k = dec_of(m).len() as int;
        assert(s.subrange(pos, pos + 1 + k)[0] == s[pos]);
        assert(s[pos] == 45);
        assert forall|j: int| 0 <= j < k implies s.subrange(pos + 1, pos + 1 + k)[j] == dec_of(
            m,
        )[j] by {
            assert(s.subrange(pos + 1, pos + 1 + k)[j] == s[pos + 1 + j]);
            assert(s.subrange(pos, pos + 1 + k)[j + 1] == s[pos + 1 + j]);
            assert((seq![45u8] + dec_of(m))[j + 1] == dec_of(m)[j]);
        }
        assert(s.subrange(pos + 1, pos + 1 + k) =~= dec_of(m));
        lemma_sp_u64_complete(s, pos + 1, m);
    }
}

/// Parse a string body up to its closing quote.
pub open spec fn sp_quoted(s: Seq<u8>, pos: int) -> Option<(Seq<u8>, int)>
    decreases s.len() - pos,
{
    if pos < 0 || pos >= s.len() {
        None
    } else if s[pos] == 34 {
        Some((Seq::empty(), pos + 1))
    } else {
        match sp_quoted(s, pos + 1) {
            Some((t, e)) => Some((seq![s[pos]] + t, e)),
            None => None,
        }
    }
}

/// The decoder reads back exactly the quote-free bytes the encoder wrote.
pub proof fn lemma_sp_quoted_complete(s: Seq<u8>, pos: int, c: Seq<u8>)
    requires
        0 <= pos,
        pos + c.len() < s.len(),
        s.subrange(pos, pos + c.len() as int) == c,
        forall|i: int| 0 <= i < c.len() ==> #[trigger] c[i] != 34,
        s[pos + c.len()] == 34,
    ensures
        sp_quoted(s, pos) == Some((c, pos + c.len() + 1)),
    decreases c.len(),
{
    if c.len() == 0 {
        assert(s[pos] == 34);
        assert(sp_quoted(s, pos) == Some((Seq::<u8>::empty(), pos + 1)));
        assert(c =~= Seq::<u8>::empty());
    } else {
        assert(s[pos] == c[0]);
        assert(c[0] != 34);
        let c2 = c.skip(1);
        assert(s.subrange(pos + 1, pos + 1 + c2.len() as int) =~= c2) by {
            assert(forall|j: int|
                0 <= j < c2.len() ==> s.subrange(pos + 1, pos + 1 + c2.len() as int)[j]
                    == #[trigger] s.subrange(pos, pos + c.len() as int)[j + 1]);
        }
        assert(forall|i: int| 0 <= i < c2.len() ==> #[trigger] c2[i] != 34);
        lemma_sp_quoted_complete(s, pos + 1, c2);
        assert(seq![s[pos]] + c2 =~= c);
    }
}

/// A subrange equal to a concatenation splits into two subranges, one
/// per part.
pub proof fn lemma_split2(s: Seq<u8>, pos: int, x: Seq<u8>, y: Seq<u8>)
    requires
        0 <= pos,
        pos + x.len() + y.len() <= s.len(),
        s.subrange(pos, pos + x.len() + y.len()) == x + y,
    ensures
        s.subrange(pos, pos + x.len() as int) == x,
        s.subrange(pos + x.len() as int, pos + x.len() + y.len()) == y,
{
    let n = x.len() + y.len();
    assert forall|j: int| 0 <= j < x.len() implies s.subrange(pos, pos + x.len() as int)[j] == x[j]
        by {
        assert(s.subrange(pos, pos + x.len() as int)[j] == s[pos + j]);
        assert(s.subrange(pos, pos + n) =~= x + y);
        assert(s.subrange(pos, pos + n)[j] == s[pos + j]);
        assert((x + y)[j] == x[j]);
    }
    assert(s.subrange(pos, pos + x.len() as int) =~= x);
    assert forall|j: int|
        0 <= j < y.len() implies s.subrange(pos + x.len() as int, pos + n)[j] == y[j] by {
        assert(s.subrange(pos + x.len() as int, pos + n)[j] == s[pos + x.len() + j]);
        assert(s.subrange(pos, pos + n)[x.len() + j] == s[pos + x.len() + j]);
        assert((x + y)[x.len() + j] == y[j]);
    }
    assert(s.subrange(pos + x.len() as int, pos + n) =~= y);
}

/// A fixed literal at `pos`.
pub open spec fn sp_lit(s: Seq<u8>, pos: int, lit: Seq<u8>) -> Option<int> {
    if 0 <= pos && pos + lit.len() <= s.len() && s.subrange(pos, pos + lit.len() as int) == lit {
        Some(pos + lit.len() as int)
    } else {
        None
    }
}

/// Match a fixed literal against the input.
pub fn expect_lit(s: &Vec<u8>, pos: usize, lit: &Vec<u8>) -> (r: Option<usize>)
    ensures
        match r {
            Some(e) => sp_lit(s@, pos as int, lit@) == Some(e as int),
            None => sp_lit(s@, pos as int, lit@) is None,
        },
{
    if lit.len() > s.len() || pos > s.len() - lit.len() {
        return None;
    }
    let mut i: usize = 0;
    while i < lit.len()
        invariant
            pos + lit.len() <= s.len(),
            i <= lit.len(),
            s@.subrange(pos as int, pos + i as int) =~= lit@.take(i as int),
        decreases lit.len() - i,
    {
        let x = s[pos + i];
        let y = lit[i];
        if x != y {
            proof {
                assert(s@[pos + i] == x);
                assert(lit@[i as int] == y);
                assert(s@.subrange(pos as int, pos + lit.len()) != lit@) by {
                    assert(s@.subrange(pos as int, pos + lit.len())[i as int] == s@[pos + i]);
                }
            }
            return None;
        }
        proof {
            assert(s@.subrange(pos as int, pos + i + 1 as int) =~= lit@.take(i + 1 as int));
        }
        i = i + 1;
    }
    proof {
        assert(s@.subrange(pos as int, pos + lit.len()) =~= lit@);
    }
    Some(pos + lit.len())
}

/// Read a string body up to its closing quote.
pub fn read_quoted(s: &Vec<u8>, pos: usize) -> (r: Option<(Vec<u8>, usize)>)
    ensures
        match r {
            Some((c, e)) => sp_quoted(s@, pos as int) == Some((c@, e as int)),
            None => sp_quoted(s@, pos as int) is None,
        },
{
    if pos >= s.len() {
        return None;
    }
    let mut i: usize = pos;
    proof {
        assert(forall|t: Seq<u8>| #[trigger] (s@.subrange(pos as int, pos as int) + t) =~= t);
    }
    loop
        invariant
            pos <= i <= s.len(),
            sp_quoted(s@, pos as int) == (match sp_quoted(s@, i as int) {
                Some((t, e)) => Some::<(Seq<u8>, int)>((s@.subrange(pos as int, i as int) + t, e)),
                None => None::<(Seq<u8>, int)>,
            }),
        decreases s.len() - i,
    {
        if i == s.len() {
            return None;
        }
        if s[i] == QUOTE {
            let c = crate::bytes::bytes_slice(s, pos, i);
            proof {
                assert(s@.subrange(pos as int, i as int) + Seq::<u8>::empty() =~= c@);
            }
            return Some((c, i + 1));
        }
        proof {
            assert(forall|t: Seq<u8>|
                s@.subrange(pos as int, i as int) + (seq![s@[i as int]] + t) =~= #[trigger] (
                s@.subrange(pos as int, i + 1 as int) + t));
        }
        i = i + 1;
    }
}

/// Read an unsigned decimal number.
pub fn read_u64(s: &Vec<u8>, pos: usize) -> (r: Option<(u64, usize)>)
    ensures
        match r {
            Some((n, e)) => sp_u64(s@, pos as int) == Some((n, e as int)),
            None => sp_u64(s@, pos as int) is None,
        },
{
    if pos >= s.len() {
        return None;
    }
    // Find the end of the digit run.
    let mut e: usize = pos;
    while e < s.len() && s[e] >= 48 && s[e] <= 57
        invariant
            pos <= e <= s.len(),
            digit_run_end(s@, pos as int) == digit_run_end(s@, e as int),
            forall|j: int| pos <= j < e ==> is_digit(#[trigger] s@[j]),
        decreases s.len() - e,
    {
        e = e + 1;
    }
    proof {
        assert(digit_run_end(s@, e as int) == e);
    }
    if e == pos {
        return None;
    }
    // Accumulate the value, watching for overflow.
    let ghost run = s@.subrange(pos as int, e as int);
    proof {
        assert(forall|j: int| 0 <= j < run.len() ==> is_digit(#[trigger] run[j]));
    }
    let mut acc: u64 = 0;
    let mut i: usize = pos;
    while i < e
        invariant
            pos < e,
            pos <= i <= e <= s.len(),
            digit_run_end(s@, pos as int) == e as int,
            run == s@.subrange(pos as int, e as int),
            forall|j: int| 0 <= j < run.len() ==> is_digit(#[trigger] run[j]),
            acc == dec_val(run.take(i - pos as int)),
        decreases e - i,
    {
        let x = s[i];
        proof {
            assert(run[i - pos as int] == s@[i as int]);
            assert(is_digit(x));
            assert(run.take(i + 1 - pos as int).drop_last() =~= run.take(i - pos as int));
            assert(run.take(i + 1 - pos as int).last() == s@[i as int]);
        }
        let d = x - 48;
        if acc > (u64::MAX - d as u64) / 10 {
            proof {
                vstd::arithmetic::div_mod::lemma_fundamental_div_mod(
                    (u64::MAX - d as u64) as int,
                    10,
                );
                assert(dec_val(run.take(i + 1 - pos as int)) == acc * 10 + d);
                assert(acc * 10 + d > u64::MAX);
                lemma_dec_val_prefix(run, i + 1 - pos as int);
                assert(dec_val(run) > u64::MAX) by {
                    assert(dec_val(run.take(i + 1 - pos as int)) <= dec_val(run));
                }
            }
            return None;
        }
        acc = acc * 10 + d as u64;
        i = i + 1;
    }
    proof {
        assert(run.take(e - pos as int) =~= run);
    }
    Some((acc, e))
}

/// Read a signed decimal number.
pub fn read_i64(s: &Vec<u8>, pos: usize) -> (r: Option<(i64, usize)>)
    ensures
        match r {
            Some((t, e)) => sp_i64(s@, pos as int) == Some((t, e as int)),
            None => sp_i64(s@, pos as int) is None,
        },
{
    if pos < s.len() && s[pos] == 45 {
        match read_u64(s, pos + 1) {
            Some((m, e)) => {
                if m <= 9223372036854775808u64 {
                    let t: i64 = if m == 9223372036854775808u64 {
                        i64::MIN
                    } else {
                        -(m as i64)
                    };
                    Some((t, e))
                } else {
                    None
                }
            },
            None => None,
        }
    } else {
        match read_u64(s, pos) {
            Some((m, e)) => {
                if m <= i64::MAX as u64 {
                    Some((m as i64, e))
                } else {
                    None
                }
            },
            None => None,
        }
    }
}

/// Append the decimal digits of `n`.
pub fn push_u64(out: &mut Vec<u8>, n: u64)
    ensures
        final(out)@ == old(out)@ + dec_of(n),
{
    let mut rev: Vec<u8> = Vec::new();
    let mut m: u64 = n;
    loop
        invariant_except_break
            dec_of(n) == dec_of(m) + rev@.reverse(),
        ensures
            dec_of(n) == rev@.reverse(),
        decreases m,
    {
        let d = (m % 10) as u8;
        let m2 = m / 10;
        proof {
            vstd::arithmetic::div_mod::lemma_fundamental_div_mod(m as int, 10);
            assert((rev@.push((48 + m % 10) as u8)).reverse() =~= seq![(48 + m % 10) as u8]
                + rev@.reverse());
            if m >= 10 {
                assert(dec_of(m) == dec_of(m2).push((48 + m % 10) as u8));
                assert(dec_of(m2).push((48 + m % 10) as u8) =~= dec_of(m2) + seq![(48 + m
                    % 10) as u8]);
                assert(dec_of(m) + rev@.reverse() =~= dec_of(m2) + (rev@.push(
                    (48 + m % 10) as u8,
                )).reverse());
            } else {
                assert(dec_of(m) =~= seq![(48 + m % 10) as u8]);
                assert(dec_of(m) + rev@.reverse() =~= (rev@.push((48 + m % 10) as u8)).reverse());
            }
        }
        rev.push(48 + d);
        if m2 == 0 {
            proof {
                assert(m < 10);
                assert(dec_of(n) =~= rev@.reverse());
            }
            break;
        }
        m = m2;
    }
    // Emit in the right order.
    let mut i: usize = rev.len();
    proof {
        assert(rev@.reverse().take(rev@.len() - i) =~= Seq::<u8>::empty());
    }
    while i > 0
        invariant
            i <= rev.len(),
            dec_of(n) == rev@.reverse(),
            out@ =~= old(out)@ + rev@.reverse().take(rev@.len() - i),
        decreases i,
    {
        out.push(rev[i - 1]);
        proof {
            assert(rev@.reverse()[rev@.len() - i] == rev@[i - 1]);
            assert(old(out)@ + rev@.reverse().take(rev@.len() - (i - 1)) =~= (old(out)@
                + rev@.reverse().take(rev@.len() - i)).push(rev@[i - 1 as int]));
        }
        i = i - 1;
    }
    proof {
        assert(rev@.reverse().take(rev@.len() as int) =~= rev@.reverse());
        assert(out@ =~= old(out)@ + dec_of(n));
    }
}

/// Append the decimal digits of a signed value.
pub fn push_i64(out: &mut Vec<u8>, t: i64)
    ensures
        final(out)@ == old(out)@ + i64_dec(t),
{
    if t >= 0 {
        push_u64(out, t as u64);
    } else {
        out.push(45);
        let m: u64 = if t == i64::MIN {
            9223372036854775808u64
        } else {
            (-t) as u64
        };
        let ghost mid = out@;
        push_u64(out, m);
        proof {
            assert(out@ =~= old(out)@ + i64_dec(t));
        }
    }
}

} // verus!

//! Band identifiers: hierarchical, sortable names of backup generations.

use vstd::prelude::*;
use crate::codec::{
    dec_of, dec_val, digit_run_end, is_digit, lemma_dec_of_digits, lemma_dec_val_of,
    lemma_digit_run, read_u64, sp_u64, lemma_split2,
};
use crate::error::Error;

verus! {

/// A non-empty sequence of non-negative integers naming one band.
/// `b0000` is the first top-level band; `b0000-0001` would be a child.
#[derive(Debug)]
pub struct BandId {
    segments: Vec<u32>,
}

impl Clone for BandId {
    fn clone(&self) -> (r: BandId)
        ensures
            r@ == self@,
    {
        BandId { segments: self.segments.clone() }
    }
}

impl View for BandId {
    type V = Seq<u32>;

    closed spec fn view(&self) -> Seq<u32> {
        self.segments@
    }
}

impl PartialEq for BandId {
    fn eq(&self, other: &BandId) -> (r: bool) {
        if self.segments.len() != other.segments.len() {
            return false;
        }
        let mut i: usize = 0;
        while i < self.segments.len()
            invariant
                i <= self.segments.len(),
                self.segments.len() == other.segments.len(),
                forall|j: int| 0 <= j < i ==> self.segments@[j] == other.segments@[j],
            decreases self.segments.len() - i,
        {
            if self.segments[i] != other.segments[i] {
                return false;
            }
            i = i + 1;
        }
        proof {
            assert(self.segments@ =~= other.segments@);
        }
        true
    }
}

impl vstd::std_specs::cmp::PartialEqSpecImpl for BandId {
    open spec fn obeys_eq_spec() -> bool {
        true
    }

    open spec fn eq_spec(&self, other: &BandId) -> bool {
        self@ == other@
    }
}

/// Strict lexicographic order on segment sequences, comparing integers.
pub open spec fn id_lt(a: Seq<u32>, b: Seq<u32>) -> bool
    decreases a.len(),
{
    if b.len() == 0 {
        false
    } else if a.len() == 0 {
        true
    } else if a[0] < b[0] {
        true
    } else if a[0] > b[0] {
        false
    } else {
        id_lt(a.skip(1), b.skip(1))
    }
}

/// The order is total.
pub proof fn lemma_id_total(a: Seq<u32>, b: Seq<u32>)
    ensures
        id_lt(a, b) || id_lt(b, a) || a == b,
    decreases a.len(),
{
    if a.len() == 0 && b.len() == 0 {
        assert(a =~= b);
    } else if a.len() != 0 && b.len() != 0 && a[0] == b[0] {
        lemma_id_total(a.skip(1), b.skip(1));
        if !id_lt(a, b) && !id_lt(b, a) {
            assert(a.skip(1) == b.skip(1));
            assert forall|i: int| 0 <= i < a.len() implies a[i] == b[i] by {
                if i >= 1 {
                    assert(a[i] == a.skip(1)[i - 1]);
                    assert(b[i] == b.skip(1)[i - 1]);
                }
            }
            assert(a =~= b);
        }
    }
}

/// The order is irreflexive.
pub proof fn lemma_id_irrefl(a: Seq<u32>)
    ensures
        !id_lt(a, a),
    decreases a.len(),
{
    if a.len() != 0 {
        lemma_id_irrefl(a.skip(1));
    }
}

/// The order is transitive.
pub proof fn lemma_id_trans(a: Seq<u32>, b: Seq<u32>, c: Seq<u32>)
    requires
        id_lt(a, b),
        id_lt(b, c),
    ensures
        id_lt(a, c),
    decreases a.len(),
{
    if c.len() != 0 && a.len() != 0 && b.len() != 0 {
        if a[0] == b[0] && b[0] == c[0] {
            lemma_id_trans(a.skip(1), b.skip(1), c.skip(1));
        }
    }
}

/// A run of zeros.
pub open spec fn zeros(k: nat) -> Seq<u8> {
    Seq::new(k, |i: int| 48u8)
}

/// Decimal digits of one segment, padded to at least four digits.
pub open spec fn pad4(n: u32) -> Seq<u8> {
    if dec_of(n as u64).len() >= 4 {
        dec_of(n as u64)
    } else {
        zeros((4 - dec_of(n as u64).len()) as nat) + dec_of(n as u64)
    }
}

/// Name of a segment sequence: padded segments joined by dashes.
pub open spec fn segs_name(segs: Seq<u32>) -> Seq<u8>
    decreases segs.len(),
{
    if segs.len() == 0 {
        Seq::empty()
    } else if segs.len() == 1 {
        pad4(segs[0])
    } else {
        pad4(segs[0]) + seq![45u8] + segs_name(segs.skip(1))
    }
}

/// The full band name: a `b`, then the segments.
pub open spec fn name_of(segs: Seq<u32>) -> Seq<u8> {
    seq![98u8] + segs_name(segs)
}

/// Parse the segments of a band name.
pub open spec fn sp_segs(s: Seq<u8>, pos: int) -> Option<Seq<u32>>
    decreases s.len() - pos,
    via sp_segs_dec
{
    match sp_u64(s, pos) {
        None => None,
        Some((v, e)) => if v > u32::MAX as u64 {
            None
        } else if e == s.len() {
            Some(seq![v as u32])
        } else if s[e] == 45 {
            match sp_segs(s, e + 1) {
                None => None,
                Some(rest) => Some(seq![v as u32] + rest),
            }
        } else {
            None
        },
    }
}

#[via_fn]
proof fn sp_segs_dec(s: Seq<u8>, pos: int) {
    crate::index::lemma_run_end_bounds(s, if 0 <= pos <= s.len() {
        pos
    } else {
        0
    });
    if pos < 0 {
        assert(digit_run_end(s, pos) == pos);
    }
}

/// Parse a whole band name.
pub open spec fn sp_band_name(s: Seq<u8>) -> Option<Seq<u32>> {
    if s.len() >= 1 && s[0] == 98 {
        sp_segs(s, 1)
    } else {
        None
    }
}

/// A zero prefixed to a digit string does not change its value.
pub proof fn lemma_dec_val_zero_prefix(x: Seq<u8>)
    ensures
        dec_val(seq![48u8] + x) == dec_val(x),
    decreases x.len(),
{
    if x.len() == 0 {
        assert(seq![48u8] + x =~= seq![48u8]);
        assert((seq![48u8]).drop_last() =~= Seq::<u8>::empty());
        assert(dec_val(Seq::<u8>::empty()) == 0);
    } else {
        assert((seq![48u8] + x).drop_last() =~= seq![48u8] + x.drop_last());
        assert((seq![48u8] + x).last() == x.last());
        lemma_dec_val_zero_prefix(x.drop_last());
    }
}

/// The padded digits of a segment read back as its value.
pub proof fn lemma_pad4(n: u32)
    ensures
        pad4(n).len() >= 1,
        forall|i: int| 0 <= i < pad4(n).len() ==> is_digit(#[trigger] pad4(n)[i]),
        dec_val(pad4(n)) == n,
    decreases (if dec_of(n as u64).len() >= 4 {
        0int
    } else {
        4 - dec_of(n as u64).len()
    }),
{
    lemma_dec_of_digits(n as u64);
    lemma_dec_val_of(n as u64);
    let d = dec_of(n as u64);
    if d.len() >= 4 {
    } else {
        let k = (4 - d.len()) as nat;
        assert forall|i: int| 0 <= i < pad4(n).len() implies is_digit(#[trigger] pad4(n)[i]) by {
            if i < k {
                assert(pad4(n)[i] == 48);
            } else {
                assert(pad4(n)[i] == d[i - k]);
            }
        }
        assert(dec_val(pad4(n)) == n) by {
            lemma_zeros_prefix_val(k, d);
        }
    }
}

/// Any number of zeros prefixed to a digit string keep its value.
pub proof fn lemma_zeros_prefix_val(k: nat, x: Seq<u8>)
    ensures
        dec_val(zeros(k) + x) == dec_val(x),
    decreases k,
{
    if k == 0 {
        assert(zeros(0) + x =~= x);
    } else {
        assert(zeros(k) + x =~= seq![48u8] + (zeros((k - 1) as nat) + x));
        lemma_dec_val_zero_prefix(zeros((k - 1) as nat) + x);
        lemma_zeros_prefix_val((k - 1) as nat, x);
    }
}

/// Parsing a written band name gives back its segments.
pub proof fn lemma_band_name_roundtrip(segs: Seq<u32>)
    requires
        segs.len() >= 1,
    ensures
        sp_band_name(name_of(segs)) == Some(segs),
{
    let s = name_of(segs);
    assert(s[0] == 98);
    assert(s.subrange(1, s.len() as int) =~= segs_name(segs));
    lemma_segs_roundtrip(segs, s, 1);
}

/// Parsing written segments at a position gives them back, provided the
/// name runs to the end of the input.
pub proof fn lemma_segs_roundtrip(segs: Seq<u32>, s: Seq<u8>, pos: int)
    requires
        segs.len() >= 1,
        0 <= pos,
        pos + segs_name(segs).len() == s.len(),
        s.subrange(pos, s.len() as int) == segs_name(segs),
    ensures
        sp_segs(s, pos) == Some(segs),
    decreases segs.len(),
{
    let n0 = segs[0];
    lemma_pad4(n0);
    let k = pad4(n0).len() as int;
    if segs.len() == 1 {
        assert(segs_name(segs) == pad4(n0));
        assert(pos + k == s.len());
        assert(s.subrange(pos, pos + k) =~= pad4(n0));
        lemma_sp_u64_padded(s, pos, n0);
        assert(seq![n0] =~= segs);
    } else {
        let rest = segs.skip(1);
        lemma_split2(s, pos, pad4(n0) + seq![45u8], segs_name(rest));
        lemma_split2(s, pos, pad4(n0), seq![45u8]);
        assert(s[pos + k] == 45) by {
            assert(s.subrange(pos + k, pos + k + 1)[0] == s[pos + k]);
        }
        assert(!is_digit(s[pos + k]));
        lemma_sp_u64_padded(s, pos, n0);
        assert(s.subrange(pos + k + 1, s.len() as int) =~= segs_name(rest));
        lemma_segs_roundtrip(rest, s, pos + k + 1);
        assert(seq![n0] + rest =~= segs);
    }
}

/// The padded digits of a segment, embedded in a larger string, parse as
/// that segment.
pub proof fn lemma_sp_u64_padded(s: Seq<u8>, pos: int, n: u32)
    requires
        0 <= pos,
        pos + pad4(n).len() <= s.len(),
        s.subrange(pos, pos + pad4(n).len() as int) == pad4(n),
        pos + pad4(n).len() == s.len() || !is_digit(s[pos + pad4(n).len()]),
    ensures
        sp_u64(s, pos) == Some((n as u64, pos + pad4(n).len() as int)),
{
    lemma_pad4(n);
    let k = pad4(n).len() as int;
    assert forall|j: int| pos <= j < pos + k implies is_digit(#[trigger] s[j]) by {
        assert(s.subrange(pos, pos + k)[j - pos] == s[j]);
        assert(is_digit(pad4(n)[j - pos]));
    }
    lemma_digit_run(s, pos, k);
    assert(s.subrange(pos, pos + k) == pad4(n));
}

impl BandId {
    /// A well-formed band id holds at least one segment.
    pub open spec fn wf(&self) -> bool {
        self@.len() >= 1
    }

    /// The id of the first band in any archive.
    pub fn zero() -> (r: BandId)
        ensures
            r@ == seq![0u32],
            r.wf(),
    {
        let mut v: Vec<u32> = Vec::new();
        v.push(0);
        proof {
            assert(v@ =~= seq![0u32]);
        }
        BandId { segments: v }
    }

    /// An id from explicit segments; a band id is never empty.
    pub fn new(segments: Vec<u32>) -> (r: BandId)
        requires
            segments@.len() >= 1,
        ensures
            r@ == segments@,
            r.wf(),
    {
        BandId { segments }
    }

    /// The id of the next top-level backup after this one: the final
    /// segment grows by one, the prefix is kept. It follows this id in
    /// the band order.
    pub fn next_sibling(&self) -> (r: BandId)
        requires
            self.wf(),
            self@.last() < u32::MAX,
        ensures
            r@ == self@.update(self@.len() - 1, (self@.last() + 1) as u32),
            r.wf(),
            id_lt(self@, r@),
    {
        let mut v = self.segments.clone();
        let n = v.len();
        let last = v[n - 1];
        v[n - 1] = last + 1;
        proof {
            assert(v@ =~= self@.update(self@.len() - 1, (self@.last() + 1) as u32));
            lemma_prefix_then_bigger(self@, v@);
        }
        BandId { segments: v }
    }

    /// Format this id as its directory name.
    pub fn name(&self) -> (r: Vec<u8>)
        requires
            self.wf(),
        ensures
            r@ == name_of(self@),
    {
        let ghost vs = self@;
        let mut out: Vec<u8> = Vec::new();
        out.push(98);
        let ghost base = out@;
        proof {
            assert(base =~= seq![98u8]);
            assert(vs.skip(0) =~= vs);
        }
        let mut i: usize = 0;
        loop
            invariant_except_break
                i < self.segments.len(),
                out@ + segs_name(vs.skip(i as int)) == base + segs_name(vs),
            invariant
                vs == self@,
                vs.len() >= 1,
                base == seq![98u8],
            ensures
                out@ == base + segs_name(vs),
            decreases self.segments.len() - i,
        {
            proof {
                assert(vs.skip(i as int)[0] == vs[i as int]);
                assert(vs.skip(i as int).skip(1) =~= vs.skip(i + 1 as int));
            }
            Self::push_pad4(&mut out, self.segments[i]);
            if i + 1 < self.segments.len() {
                out.push(45);
                proof {
                    assert(out@ + segs_name(vs.skip(i + 1 as int)) =~= base + segs_name(vs));
                }
                i = i + 1;
            } else {
                proof {
                    assert(vs.skip(i as int).len() == 1);
                    assert(out@ =~= base + segs_name(vs));
                }
                break;
            }
        }
        proof {
            assert(out@ =~= name_of(vs));
        }
        out
    }

    /// Append one segment, zero-padded to at least four digits.
    fn push_pad4(out: &mut Vec<u8>, n: u32)
        ensures
            final(out)@ == old(out)@ + pad4(n),
    {
        let mut d: Vec<u8> = Vec::new();
        crate::codec::push_u64(&mut d, n as u64);
        let mut pad: usize = 0;
        let needed: usize = if d.len() >= 4 {
            0
        } else {
            4 - d.len()
        };
        while pad < needed
            invariant
                pad <= needed,
                d@ == dec_of(n as u64),
                needed == if d@.len() >= 4 {
                    0int
                } else {
                    4 - d@.len()
                },
                out@ =~= old(out)@ + zeros(pad as nat),
            decreases needed - pad,
        {
            out.push(48);
            proof {
                assert(out@ =~= old(out)@ + zeros((pad + 1) as nat));
            }
            pad = pad + 1;
        }
        crate::bytes::bytes_append(out, &d);
        proof {
            assert(out@ =~= old(out)@ + pad4(n));
        }
    }

    /// Parse a directory name as a band id. A name that is not `b`
    /// followed by dash-separated decimal segments is rejected.
    pub fn from_string(s: &Vec<u8>) -> (r: Result<BandId, Error>)
        ensures
            match r {
                Ok(id) => sp_band_name(s@) == Some(id@) && id.wf(),
                Err(e) => sp_band_name(s@) is None && e is InvalidBandId,
            },
    {
        if s.len() < 1 {
            return Err(Error::InvalidBandId { name: s.clone() });
        }
        if s[0] != 98 {
            return Err(Error::InvalidBandId { name: s.clone() });
        }
        let mut segs: Vec<u32> = Vec::new();
        let mut p: usize = 1;
        proof {
            assert(segs@.map_values(|x: u32| x) =~= Seq::<u32>::empty());
        }
        loop
            invariant
                1 <= p,
                s@.len() >= 1 && s@[0] == 98,
                (match sp_segs(s@, p as int) {
                    Some(rest) => sp_band_name(s@) == Some(segs@ + rest),
                    None => sp_band_name(s@) is None,
                }),
            decreases s@.len() - p,
        {
            let (v, e) = match read_u64(s, p) {
                Some(x) => x,
                None => {
                    return Err(Error::InvalidBandId { name: s.clone() });
                },
            };
            proof {
                crate::index::lemma_run_end_bounds(s@, p as int);
            }
            if v > 4294967295u64 {
                return Err(Error::InvalidBandId { name: s.clone() });
            }
            let ghost prev = segs@;
            segs.push(v as u32);
            proof {
                assert(segs@ =~= prev.push(v as u32));
                assert(prev + seq![v as u32] =~= prev.push(v as u32));
            }
            if e == s.len() {
                proof {
                    assert(sp_band_name(s@) == Some(segs@));
                }
                return Ok(BandId { segments: segs });
            }
            if s[e] == 45 {
                proof {
                    assert(forall|rest: Seq<u32>|
                        prev + (seq![v as u32] + rest) =~= #[trigger] (prev.push(v as u32) + rest));
                }
                p = e + 1;
            } else {
                return Err(Error::InvalidBandId { name: s.clone() });
            }
        }
    }

    /// The final segment of this id.
    pub fn last_segment(&self) -> (r: u32)
        requires
            self.wf(),
        ensures
            r == self@.last(),
    {
        self.segments[self.segments.len() - 1]
    }

    /// Does this id sort before the other, in the band order?
    pub fn is_before(&self, other: &BandId) -> (r: bool)
        ensures
            r == id_lt(self@, other@),
    {
        let a = &self.segments;
        let b = &other.segments;
        let mut i: usize = 0;
        proof {
            assert(a@.skip(0) =~= a@);
            assert(b@.skip(0) =~= b@);
        }
        loop
            invariant
                i <= a.len(),
                i <= b.len(),
                a@ == self@,
                b@ == other@,
                id_lt(a@, b@) == id_lt(a@.skip(i as int), b@.skip(i as int)),
            decreases a.len() - i,
        {
            proof {
                if i < a.len() {
                    assert(a@.skip(i as int)[0] == a@[i as int]);
                }
                if i < b.len() {
                    assert(b@.skip(i as int)[0] == b@[i as int]);
                }
            }
            if i == b.len() {
                return false;
            }
            if i == a.len() {
                return true;
            }
            if a[i] < b[i] {
                return true;
            }
            if a[i] > b[i] {
                return false;
            }
            proof {
                assert(a@.skip(i as int)[0] == b@.skip(i as int)[0]);
                assert(a@.skip(i as int).skip(1) =~= a@.skip(i + 1 as int));
                assert(b@.skip(i as int).skip(1) =~= b@.skip(i + 1 as int));
            }
            i = i + 1;
        }
    }
}

/// A sequence that equals another except for a strictly larger final
/// element comes after it.
proof fn lemma_prefix_then_bigger(a: Seq<u32>, b: Seq<u32>)
    requires
        a.len() >= 1,
        b.len() == a.len(),
        forall|i: int| 0 <= i < a.len() - 1 ==> a[i] == #[trigger] b[i],
        a[a.len() - 1] < b[a.len() - 1],
    ensures
        id_lt(a, b),
    decreases a.len(),
{
    if a.len() > 1 {
        assert(a.skip(1).len() == b.skip(1).len());
        assert forall|i: int| 0 <= i < a.skip(1).len() - 1 implies a.skip(1)[i] == #[trigger] b.skip(
            1,
        )[i] by {
            assert(a.skip(1)[i] == a[i + 1]);
            assert(b.skip(1)[i] == b[i + 1]);
        }
        assert(a.skip(1)[a.skip(1).len() - 1] == a[a.len() - 1]);
        assert(b.skip(1)[b.skip(1).len() - 1] == b[b.len() - 1]);
        lemma_prefix_then_bigger(a.skip(1), b.skip(1));
    }
}

} // verus!

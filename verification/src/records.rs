//! The three single-object JSON records: the archive header, the band
//! head, and the band tail.

use vstd::prelude::*;
use crate::bytes::{ascii_bytes, lit_bytes, bytes_append};
use crate::codec::{
    enc_quoted, i64_dec, json_safe, push_i64, read_i64, read_quoted, sp_i64, sp_lit, sp_quoted,
    expect_lit,
};

verus! {

/// Everything of the archive header before its version string.
pub open spec fn hdr_pre() -> Seq<u8> {
    ascii_bytes("{\"conserve_archive_version\":\""@)
}

/// Closing brace and newline that end every record.
pub open spec fn obj_end() -> Seq<u8> {
    ascii_bytes("}\n"@)
}

/// Everything of the band head before its start time.
pub open spec fn head_pre() -> Seq<u8> {
    ascii_bytes("{\"start_time\":"@)
}

/// Separator between the start time and the band format version.
pub open spec fn ver_sep() -> Seq<u8> {
    ascii_bytes(",\"band_format_version\":\""@)
}

/// Everything of the band tail before its end time.
pub open spec fn tail_pre() -> Seq<u8> {
    ascii_bytes("{\"end_time\":"@)
}

/// The archive header: one JSON object holding the format version.
pub open spec fn enc_header(v: Seq<u8>) -> Seq<u8> {
    hdr_pre() + enc_quoted(v) + obj_end()
}

/// The band head: start time, and the band format version if marked.
pub open spec fn enc_head(t: i64, ver: Option<Seq<u8>>) -> Seq<u8> {
    match ver {
        None => head_pre() + i64_dec(t) + obj_end(),
        Some(v) => head_pre() + i64_dec(t) + ver_sep() + enc_quoted(v) + obj_end(),
    }
}

/// The band tail: the end time alone.
pub open spec fn enc_tail(t: i64) -> Seq<u8> {
    tail_pre() + i64_dec(t) + obj_end()
}

/// Decode an archive header.
pub open spec fn sp_header(s: Seq<u8>) -> Option<Seq<u8>> {
    match sp_lit(s, 0, hdr_pre()) {
        None => None,
        Some(p1) => match sp_quoted(s, p1) {
            None => None,
            Some((v, p2)) => match sp_lit(s, p2, obj_end()) {
                None => None,
                Some(p3) => if p3 == s.len() {
                    Some(v)
                } else {
                    None
                },
            },
        },
    }
}

/// Decode a band head. A head without a version marker is a legacy band
/// and is accepted with `None`.
pub open spec fn sp_head(s: Seq<u8>) -> Option<(i64, Option<Seq<u8>>)> {
    match sp_lit(s, 0, head_pre()) {
        None => None,
        Some(p1) => match sp_i64(s, p1) {
            None => None,
            Some((t, p2)) => match sp_lit(s, p2, obj_end()) {
                Some(p3) => if p3 == s.len() {
                    Some((t, None))
                } else {
                    None
                },
                None => match sp_lit(s, p2, ver_sep()) {
                    None => None,
                    Some(p3) => match sp_quoted(s, p3) {
                        None => None,
                        Some((v, p4)) => match sp_lit(s, p4, obj_end()) {
                            None => None,
                            Some(p5) => if p5 == s.len() {
                                Some((t, Some(v)))
                            } else {
                                None
                            },
                        },
                    },
                },
            },
        },
    }
}

/// Decode a band tail.
pub open spec fn sp_tail(s: Seq<u8>) -> Option<i64> {
    match sp_lit(s, 0, tail_pre()) {
        None => None,
        Some(p1) => match sp_i64(s, p1) {
            None => None,
            Some((t, p2)) => match sp_lit(s, p2, obj_end()) {
                None => None,
                Some(p3) => if p3 == s.len() {
                    Some(t)
                } else {
                    None
                },
            },
        },
    }
}

/// Write an archive header.
pub fn encode_header(v: &Vec<u8>) -> (r: Vec<u8>)
    ensures
        r@ == enc_header(v@),
{
    proof {
        reveal_strlit("{\"conserve_archive_version\":\"");
        reveal_strlit("}\n");
    }
    let mut r = lit_bytes("{\"conserve_archive_version\":\"");
    bytes_append(&mut r, v);
    r.push(34);
    let end = lit_bytes("}\n");
    bytes_append(&mut r, &end);
    proof {
        assert(r@ =~= enc_header(v@));
    }
    r
}

/// Write a band head.
pub fn encode_head(t: i64, ver: Option<&Vec<u8>>) -> (r: Vec<u8>)
    ensures
        r@ == enc_head(
            t,
            match ver {
                Some(v) => Some(v@),
                None => None,
            },
        ),
{
    proof {
        reveal_strlit("{\"start_time\":");
        reveal_strlit(",\"band_format_version\":\"");
        reveal_strlit("}\n");
    }
    let mut r = lit_bytes("{\"start_time\":");
    push_i64(&mut r, t);
    match ver {
        Some(v) => {
            let sep = lit_bytes(",\"band_format_version\":\"");
            bytes_append(&mut r, &sep);
            bytes_append(&mut r, v);
            r.push(34);
        },
        None => {},
    }
    let end = lit_bytes("}\n");
    bytes_append(&mut r, &end);
    proof {
        assert(r@ =~= enc_head(
            t,
            match ver {
                Some(v) => Some(v@),
                None => None,
            },
        ));
    }
    r
}

/// Write a band tail.
pub fn encode_tail(t: i64) -> (r: Vec<u8>)
    ensures
        r@ == enc_tail(t),
{
    proof {
        reveal_strlit("{\"end_time\":");
        reveal_strlit("}\n");
    }
    let mut r = lit_bytes("{\"end_time\":");
    push_i64(&mut r, t);
    let end = lit_bytes("}\n");
    bytes_append(&mut r, &end);
    proof {
        assert(r@ =~= enc_tail(t));
    }
    r
}

/// Read an archive header.
pub fn decode_header(s: &Vec<u8>) -> (r: Option<Vec<u8>>)
    ensures
        match r {
            Some(v) => sp_header(s@) == Some(v@),
            None => sp_header(s@) is None,
        },
{
    proof {
        reveal_strlit("{\"conserve_archive_version\":\"");
        reveal_strlit("}\n");
    }
    let pre = lit_bytes("{\"conserve_archive_version\":\"");
    let end = lit_bytes("}\n");
    let p1 = match expect_lit(s, 0, &pre) {
        Some(p) => p,
        None => {
            return None;
        },
    };
    let (v, p2) = match read_quoted(s, p1) {
        Some(x) => x,
        None => {
            return None;
        },
    };
    let p3 = match expect_lit(s, p2, &end) {
        Some(p) => p,
        None => {
            return None;
        },
    };
    if p3 == s.len() {
        Some(v)
    } else {
        None
    }
}

/// Read a band head.
pub fn decode_head(s: &Vec<u8>) -> (r: Option<(i64, Option<Vec<u8>>)>)
    ensures
        match r {
            Some((t, Some(v))) => sp_head(s@) == Some((t, Some(v@))),
            Some((t, None)) => sp_head(s@) == Some((t, None::<Seq<u8>>)),
            None => sp_head(s@) is None,
        },
{
    proof {
        reveal_strlit("{\"start_time\":");
        reveal_strlit(",\"band_format_version\":\"");
        reveal_strlit("}\n");
    }
    let pre = lit_bytes("{\"start_time\":");
    let sep = lit_bytes(",\"band_format_version\":\"");
    let end = lit_bytes("}\n");
    let p1 = match expect_lit(s, 0, &pre) {
        Some(p) => p,
        None => {
            return None;
        },
    };
    let (t, p2) = match read_i64(s, p1) {
        Some(x) => x,
        None => {
            return None;
        },
    };
    match expect_lit(s, p2, &end) {
        Some(p3) => {
            if p3 == s.len() {
                return Some((t, None));
            } else {
                return None;
            }
        },
        None => {},
    }
    let p3 = match expect_lit(s, p2, &sep) {
        Some(p) => p,
        None => {
            return None;
        },
    };
    let (v, p4) = match read_quoted(s, p3) {
        Some(x) => x,
        None => {
            return None;
        },
    };
    let p5 = match expect_lit(s, p4, &end) {
        Some(p) => p,
        None => {
            return None;
        },
    };
    if p5 == s.len() {
        Some((t, Some(v)))
    } else {
        None
    }
}

/// Read a band tail.
pub fn decode_tail(s: &Vec<u8>) -> (r: Option<i64>)
    ensures
        match r {
            Some(t) => sp_tail(s@) == Some(t),
            None => sp_tail(s@) is None,
        },
{
    proof {
        reveal_strlit("{\"end_time\":");
        reveal_strlit("}\n");
    }
    let pre = lit_bytes("{\"end_time\":");
    let end = lit_bytes("}\n");
    let p1 = match expect_lit(s, 0, &pre) {
        Some(p) => p,
        None => {
            return None;
        },
    };
    let (t, p2) = match read_i64(s, p1) {
        Some(x) => x,
        None => {
            return None;
        },
    };
    let p3 = match expect_lit(s, p2, &end) {
        Some(p) => p,
        None => {
            return None;
        },
    };
    if p3 == s.len() {
        Some(t)
    } else {
        None
    }
}

/// Reading a written header gives back its version string.
pub proof fn lemma_header_roundtrip(v: Seq<u8>)
    requires
        json_safe(v),
    ensures
        sp_header(enc_header(v)) == Some(v),
{
    reveal_strlit("{\"conserve_archive_version\":\"");
    reveal_strlit("}\n");
    let s = enc_header(v);
    let a = hdr_pre().len() as int;
    let b = a + v.len() as int;
    assert(s.subrange(0, a) =~= hdr_pre());
    assert(s.subrange(a, b) =~= v);
    assert(s[b] == 34);
    crate::codec::lemma_sp_quoted_complete(s, a, v);
    assert(s.subrange(b + 1, s.len() as int) =~= obj_end());
}

/// Reading a written head gives back its fields.
pub proof fn lemma_head_roundtrip(t: i64, ver: Option<Seq<u8>>)
    requires
        ver matches Some(v) ==> json_safe(v),
    ensures
        sp_head(enc_head(t, ver)) == Some((t, ver)),
{
    reveal_strlit("{\"start_time\":");
    reveal_strlit(",\"band_format_version\":\"");
    reveal_strlit("}\n");
    let s = enc_head(t, ver);
    let a = head_pre().len() as int;
    let b = a + i64_dec(t).len() as int;
    assert(s.subrange(0, a) =~= head_pre());
    assert(s.subrange(a, b) =~= i64_dec(t));
    match ver {
        None => {
            assert(s[b] == obj_end()[0]);
            assert(!crate::codec::is_digit(s[b]));
            crate::codec::lemma_sp_i64_complete(s, a, t);
            assert(s.subrange(b, s.len() as int) =~= obj_end());
        },
        Some(v) => {
            let c = b + ver_sep().len() as int;
            let d = c + v.len() as int;
            assert(s[b] == ver_sep()[0]);
            assert(!crate::codec::is_digit(s[b]));
            crate::codec::lemma_sp_i64_complete(s, a, t);
            // The object cannot end here: the next byte is a comma.
            assert(sp_lit(s, b, obj_end()) is None) by {
                assert(obj_end()[0] == 125);
                assert(ver_sep()[0] == 44);
                if sp_lit(s, b, obj_end()) is Some {
                    assert(s.subrange(b, b + obj_end().len() as int)[0] == s[b]);
                }
            }
            assert(s.subrange(b, c) =~= ver_sep());
            assert(s.subrange(c, d) =~= v);
            assert(s[d] == 34);
            crate::codec::lemma_sp_quoted_complete(s, c, v);
            assert(s.subrange(d + 1, s.len() as int) =~= obj_end());
        },
    }
}

/// Reading a written tail gives back its end time.
pub proof fn lemma_tail_roundtrip(t: i64)
    ensures
        sp_tail(enc_tail(t)) == Some(t),
{
    reveal_strlit("{\"end_time\":");
    reveal_strlit("}\n");
    let s = enc_tail(t);
    let a = tail_pre().len() as int;
    let b = a + i64_dec(t).len() as int;
    assert(s.subrange(0, a) =~= tail_pre());
    assert(s.subrange(a, b) =~= i64_dec(t));
    assert(s[b] == obj_end()[0]);
    assert(!crate::codec::is_digit(s[b]));
    crate::codec::lemma_sp_i64_complete(s, a, t);
    assert(s.subrange(b, s.len() as int) =~= obj_end());
}

} // verus!

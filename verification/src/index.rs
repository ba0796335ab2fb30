//! Index entries and their hunked, JSON-encoded on-disk form.

use vstd::prelude::*;
use crate::bytes::{ascii_bytes, lit_bytes, bytes_append, bytes_eq};
use crate::codec::{
    dec_of, enc_quoted, i64_dec, is_digit, json_safe, push_i64, push_u64, read_i64, read_quoted,
    read_u64, sp_i64, sp_lit, sp_quoted, sp_u64, expect_lit, lemma_sp_quoted_complete,
    lemma_sp_u64_complete, lemma_sp_i64_complete, lemma_dec_of_digits,
};
use crate::error::Error;
use crate::report::Report;

verus! {

/// What sort of tree entry an index record describes.
#[derive(Clone, Copy, Debug, PartialEq, Eq, Structural)]
pub enum Kind {
    File,
    Dir,
    Symlink,
    Unknown,
}

/// One byte range of stored block content.
#[derive(Debug)]
pub struct Address {
    /// Hex hash naming the block that holds the bytes.
    pub hash: Vec<u8>,
    /// Offset of the range within the block.
    pub start: u64,
    /// Length of the range.
    pub len: u64,
}

/// Mathematical shadow of `Address`.
pub ghost struct AddressV {
    pub hash: Seq<u8>,
    pub start: u64,
    pub len: u64,
}

impl View for Address {
    type V = AddressV;

    open spec fn view(&self) -> AddressV {
        AddressV { hash: self.hash@, start: self.start, len: self.len }
    }
}

/// One index record: everything the archive remembers about a tree entry.
#[derive(Debug)]
pub struct IndexEntry {
    /// Canonical path of the entry within the tree.
    pub apath: Vec<u8>,
    /// Modification time, seconds since the Unix epoch.
    pub mtime: i64,
    /// What sort of entry this is.
    pub kind: Kind,
    /// Ordered block ranges whose concatenation is the file content.
    pub addrs: Vec<Address>,
    /// Hex hash of the whole file content.
    pub blake2b: Option<Vec<u8>>,
    /// Where a symlink points.
    pub target: Option<Vec<u8>>,
}

/// Mathematical shadow of `IndexEntry`.
pub ghost struct IndexEntryV {
    pub apath: Seq<u8>,
    pub mtime: i64,
    pub kind: Kind,
    pub addrs: Seq<AddressV>,
    pub blake2b: Option<Seq<u8>>,
    pub target: Option<Seq<u8>>,
}

impl View for IndexEntry {
    type V = IndexEntryV;

    open spec fn view(&self) -> IndexEntryV {
        IndexEntryV {
            apath: self.apath@,
            mtime: self.mtime,
            kind: self.kind,
            addrs: self.addrs@.map_values(|a: Address| a@),
            blake2b: match self.blake2b {
                Some(h) => Some(h@),
                None => None,
            },
            target: match self.target {
                Some(t) => Some(t@),
                None => None,
            },
        }
    }
}

/// A well-formed address: its hash embeds in JSON unescaped.
pub open spec fn addr_valid(a: AddressV) -> bool {
    json_safe(a.hash)
}

/// The record invariant: addresses and a content hash appear only on
/// files; a target appears exactly on symlinks; everything embeds in
/// JSON unescaped.
pub open spec fn entry_valid(e: IndexEntryV) -> bool {
    &&& crate::apath::apath_valid(e.apath)
    &&& (forall|i: int| 0 <= i < e.addrs.len() ==> addr_valid(#[trigger] e.addrs[i]))
    &&& match e.blake2b {
        Some(h) => json_safe(h) && e.kind is File,
        None => true,
    }
    &&& match e.target {
        Some(t) => json_safe(t) && e.kind is Symlink,
        None => !(e.kind is Symlink),
    }
    &&& !(e.kind is File) ==> e.addrs.len() == 0 && e.blake2b is None
}

/// JSON name of a kind.
pub open spec fn kind_bytes(k: Kind) -> Seq<u8> {
    match k {
        Kind::File => ascii_bytes("File"@),
        Kind::Dir => ascii_bytes("Dir"@),
        Kind::Symlink => ascii_bytes("Symlink"@),
        Kind::Unknown => ascii_bytes("Unknown"@),
    }
}

/// Kind named by a byte string, if any.
pub open spec fn kind_of(b: Seq<u8>) -> Option<Kind> {
    if b == ascii_bytes("File"@) {
        Some(Kind::File)
    } else if b == ascii_bytes("Dir"@) {
        Some(Kind::Dir)
    } else if b == ascii_bytes("Symlink"@) {
        Some(Kind::Symlink)
    } else if b == ascii_bytes("Unknown"@) {
        Some(Kind::Unknown)
    } else {
        None
    }
}

/// Kind names are JSON-safe and map back to the kind they name.
pub proof fn lemma_kind_bytes(k: Kind)
    ensures
        kind_of(kind_bytes(k)) == Some(k),
        json_safe(kind_bytes(k)),
        kind_bytes(k).len() >= 1,
{
    reveal_strlit("File");
    reveal_strlit("Dir");
    reveal_strlit("Symlink");
    reveal_strlit("Unknown");
    assert(ascii_bytes("File"@).len() == 4);
    assert(ascii_bytes("Dir"@).len() == 3);
    assert(ascii_bytes("Symlink"@).len() == 7);
    assert(ascii_bytes("Unknown"@).len() == 7);
    assert(ascii_bytes("Symlink"@)[0] == 83);
    assert(ascii_bytes("Unknown"@)[0] == 85);
    match k {
        Kind::File => {
        },
        Kind::Dir => {
        },
        Kind::Symlink => {
        },
        Kind::Unknown => {
            assert(ascii_bytes("Unknown"@) != ascii_bytes("Symlink"@));
        },
    }
}

/// Optional string field: `null`, or a quoted string.
pub open spec fn enc_opt(o: Option<Seq<u8>>) -> Seq<u8> {
    match o {
        None => ascii_bytes("null"@),
        Some(v) => seq![34u8] + enc_quoted(v),
    }
}

/// Decode an optional string field.
pub open spec fn sp_opt(s: Seq<u8>, pos: int) -> Option<(Option<Seq<u8>>, int)> {
    match sp_lit(s, pos, ascii_bytes("null"@)) {
        Some(e) => Some((None, e)),
        None => match sp_lit(s, pos, seq![34u8]) {
            None => None,
            Some(p) => match sp_quoted(s, p) {
                None => None,
                Some((v, e)) => Some((Some(v), e)),
            },
        },
    }
}

/// The encoded address record.
pub open spec fn enc_addr(a: AddressV) -> Seq<u8> {
    ascii_bytes("{\"hash\":\""@) + enc_quoted(a.hash) + ascii_bytes(",\"start\":"@) + dec_of(
        a.start,
    ) + ascii_bytes(",\"len\":"@) + dec_of(a.len) + seq![125u8]
}

/// Decode one address record.
pub open spec fn sp_addr(s: Seq<u8>, pos: int) -> Option<(AddressV, int)> {
    match sp_lit(s, pos, ascii_bytes("{\"hash\":\""@)) {
        None => None,
        Some(p1) => match sp_quoted(s, p1) {
            None => None,
            Some((h, p2)) => match sp_lit(s, p2, ascii_bytes(",\"start\":"@)) {
                None => None,
                Some(p3) => match sp_u64(s, p3) {
                    None => None,
                    Some((st, p4)) => match sp_lit(s, p4, ascii_bytes(",\"len\":"@)) {
                        None => None,
                        Some(p5) => match sp_u64(s, p5) {
                            None => None,
                            Some((ln, p6)) => match sp_lit(s, p6, seq![125u8]) {
                                None => None,
                                Some(p7) => Some(
                                    (AddressV { hash: h, start: st, len: ln }, p7),
                                ),
                            },
                        },
                    },
                },
            },
        },
    }
}

/// Every successful parse moved forward and stayed inside the input.
pub proof fn lemma_sp_quoted_advance(s: Seq<u8>, pos: int)
    ensures
        sp_quoted(s, pos) matches Some((t, e)) ==> pos < e <= s.len(),
    decreases s.len() - pos,
{
    if 0 <= pos < s.len() && s[pos] != 34 {
        lemma_sp_quoted_advance(s, pos + 1);
    }
}

/// `digit_run_end` stays inside the input.
pub proof fn lemma_run_end_bounds(s: Seq<u8>, pos: int)
    requires
        0 <= pos <= s.len(),
    ensures
        pos <= crate::codec::digit_run_end(s, pos) <= s.len(),
    decreases s.len() - pos,
{
    if pos < s.len() && is_digit(s[pos]) {
        lemma_run_end_bounds(s, pos + 1);
    }
}

/// A parsed address record ends after where it began, inside the input.
pub proof fn lemma_sp_addr_advance(s: Seq<u8>, pos: int)
    ensures
        sp_addr(s, pos) matches Some((a, e)) ==> pos < e <= s.len(),
{
    if sp_addr(s, pos) is Some {
        let p1 = sp_lit(s, pos, ascii_bytes("{\"hash\":\""@)).unwrap();
        lemma_sp_quoted_advance(s, p1);
        let (h, p2) = sp_quoted(s, p1).unwrap();
        let p3 = sp_lit(s, p2, ascii_bytes(",\"start\":"@)).unwrap();
        lemma_run_end_bounds(s, p3);
        let (st, p4) = sp_u64(s, p3).unwrap();
        let p5 = sp_lit(s, p4, ascii_bytes(",\"len\":"@)).unwrap();
        lemma_run_end_bounds(s, p5);
    }
}

/// Encoded address list: records separated by commas, closed by the
/// bracket that ends the list.
pub open spec fn enc_addrs(addrs: Seq<AddressV>) -> Seq<u8>
    decreases addrs.len(),
{
    if addrs.len() == 0 {
        seq![93u8]
    } else if addrs.len() == 1 {
        enc_addr(addrs[0]) + seq![93u8]
    } else {
        enc_addr(addrs[0]) + seq![44u8] + enc_addrs(addrs.skip(1))
    }
}

/// Decode an address list up to and including its closing bracket.
pub open spec fn sp_addrs(s: Seq<u8>, pos: int) -> Option<(Seq<AddressV>, int)>
    decreases s.len() - pos,
    via sp_addrs_dec
{
    if pos < 0 || pos >= s.len() {
        None
    } else if s[pos] == 93 {
        Some((Seq::empty(), pos + 1))
    } else {
        match sp_addr(s, pos) {
            None => None,
            Some((a, e)) => if e < s.len() && s[e] == 44 {
                match sp_addrs(s, e + 1) {
                    None => None,
                    Some((rest, e2)) => Some((seq![a] + rest, e2)),
                }
            } else if e < s.len() && s[e] == 93 {
                Some((seq![a], e + 1))
            } else {
                None
            },
        }
    }
}

#[via_fn]
proof fn sp_addrs_dec(s: Seq<u8>, pos: int) {
    lemma_sp_addr_advance(s, pos);
}

/// The encoded entry record.
pub open spec fn enc_entry(e: IndexEntryV) -> Seq<u8> {
    ascii_bytes("{\"apath\":\""@) + enc_quoted(e.apath) + ascii_bytes(",\"kind\":\""@)
        + enc_quoted(kind_bytes(e.kind)) + ascii_bytes(",\"mtime\":"@) + i64_dec(e.mtime)
        + ascii_bytes(",\"addrs\":["@) + enc_addrs(e.addrs) + ascii_bytes(",\"blake2b\":"@)
        + enc_opt(e.blake2b) + ascii_bytes(",\"target\":"@) + enc_opt(e.target) + seq![125u8]
}

/// Decode one entry record.
pub open spec fn sp_entry(s: Seq<u8>, pos: int) -> Option<(IndexEntryV, int)> {
    match sp_lit(s, pos, ascii_bytes("{\"apath\":\""@)) {
        None => None,
        Some(p1) => match sp_quoted(s, p1) {
            None => None,
            Some((apath, p2)) => match sp_lit(s, p2, ascii_bytes(",\"kind\":\""@)) {
                None => None,
                Some(p3) => match sp_quoted(s, p3) {
                    None => None,
                    Some((kb, p4)) => match kind_of(kb) {
                        None => None,
                        Some(kind) => match sp_lit(s, p4, ascii_bytes(",\"mtime\":"@)) {
                            None => None,
                            Some(p5) => match sp_i64(s, p5) {
                                None => None,
                                Some((mtime, p6)) => match sp_lit(
                                    s,
                                    p6,
                                    ascii_bytes(",\"addrs\":["@),
                                ) {
                                    None => None,
                                    Some(p7) => match sp_addrs(s, p7) {
                                        None => None,
                                        Some((addrs, p8)) => match sp_lit(
                                            s,
                                            p8,
                                            ascii_bytes(",\"blake2b\":"@),
                                        ) {
                                            None => None,
                                            Some(p9) => match sp_opt(s, p9) {
                                                None => None,
                                                Some((blake2b, p10)) => match sp_lit(
                                                    s,
                                                    p10,
                                                    ascii_bytes(",\"target\":"@),
                                                ) {
                                                    None => None,
                                                    Some(p11) => match sp_opt(s, p11) {
                                                        None => None,
                                                        Some((target, p12)) => match sp_lit(
                                                            s,
                                                            p12,
                                                            seq![125u8],
                                                        ) {
                                                            None => None,
                                                            Some(p13) => Some(
                                                                (
                                                                    IndexEntryV {
                                                                        apath,
                                                                        mtime,
                                                                        kind,
                                                                        addrs,
                                                                        blake2b,
                                                                        target,
                                                                    },
                                                                    p13,
                                                                ),
                                                            ),
                                                        },
                                                    },
                                                },
                                            },
                                        },
                                    },
                                },
                            },
                        },
                    },
                },
            },
        },
    }
}

/// A parsed optional field ends after where it began, inside the input.
pub proof fn lemma_sp_opt_advance(s: Seq<u8>, pos: int)
    ensures
        sp_opt(s, pos) matches Some((o, e)) ==> pos < e <= s.len(),
{
    reveal_strlit("null");
    if sp_opt(s, pos) is Some {
        if sp_lit(s, pos, ascii_bytes("null"@)) is None {
            let p = sp_lit(s, pos, seq![34u8]).unwrap();
            lemma_sp_quoted_advance(s, p);
        }
    }
}

/// A parsed address list ends after where it began, inside the input.
pub proof fn lemma_sp_addrs_advance(s: Seq<u8>, pos: int)
    ensures
        sp_addrs(s, pos) matches Some((l, e)) ==> pos < e <= s.len(),
    decreases s.len() - pos,
{
    if 0 <= pos < s.len() && s[pos] != 93 {
        lemma_sp_addr_advance(s, pos);
        if sp_addr(s, pos) is Some {
            let (a, e) = sp_addr(s, pos).unwrap();
            if e < s.len() && s[e] == 44 {
                lemma_sp_addrs_advance(s, e + 1);
            }
        }
    }
}

/// A parsed entry record ends after where it began, inside the input.
pub proof fn lemma_sp_entry_advance(s: Seq<u8>, pos: int)
    ensures
        sp_entry(s, pos) matches Some((v, e)) ==> pos < e <= s.len(),
{
    if sp_entry(s, pos) is Some {
        let p1 = sp_lit(s, pos, ascii_bytes("{\"apath\":\""@)).unwrap();
        lemma_sp_quoted_advance(s, p1);
        let (apath, p2) = sp_quoted(s, p1).unwrap();
        let p3 = sp_lit(s, p2, ascii_bytes(",\"kind\":\""@)).unwrap();
        lemma_sp_quoted_advance(s, p3);
        let (kb, p4) = sp_quoted(s, p3).unwrap();
        let p5 = sp_lit(s, p4, ascii_bytes(",\"mtime\":"@)).unwrap();
        lemma_run_end_bounds(s, if p5 < s.len() && s[p5] == 45 { p5 + 1 } else { p5 });
        let (mtime, p6) = sp_i64(s, p5).unwrap();
        let p7 = sp_lit(s, p6, ascii_bytes(",\"addrs\":["@)).unwrap();
        lemma_sp_addrs_advance(s, p7);
        let (addrs, p8) = sp_addrs(s, p7).unwrap();
        let p9 = sp_lit(s, p8, ascii_bytes(",\"blake2b\":"@)).unwrap();
        lemma_sp_opt_advance(s, p9);
        let (blake2b, p10) = sp_opt(s, p9).unwrap();
        let p11 = sp_lit(s, p10, ascii_bytes(",\"target\":"@)).unwrap();
        lemma_sp_opt_advance(s, p11);
    }
}

/// Encoded entry list: records separated by commas, closed by the bracket
/// that ends the list.
pub open spec fn enc_entries(es: Seq<IndexEntryV>) -> Seq<u8>
    decreases es.len(),
{
    if es.len() == 0 {
        seq![93u8]
    } else if es.len() == 1 {
        enc_entry(es[0]) + seq![93u8]
    } else {
        enc_entry(es[0]) + seq![44u8] + enc_entries(es.skip(1))
    }
}

/// Decode an entry list up to and including its closing bracket.
pub open spec fn sp_entries(s: Seq<u8>, pos: int) -> Option<(Seq<IndexEntryV>, int)>
    decreases s.len() - pos,
    via sp_entries_dec
{
    if pos < 0 || pos >= s.len() {
        None
    } else if s[pos] == 93 {
        Some((Seq::empty(), pos + 1))
    } else {
        match sp_entry(s, pos) {
            None => None,
            Some((v, e)) => if e < s.len() && s[e] == 44 {
                match sp_entries(s, e + 1) {
                    None => None,
                    Some((rest, e2)) => Some((seq![v] + rest, e2)),
                }
            } else if e < s.len() && s[e] == 93 {
                Some((seq![v], e + 1))
            } else {
                None
            },
        }
    }
}

#[via_fn]
proof fn sp_entries_dec(s: Seq<u8>, pos: int) {
    lemma_sp_entry_advance(s, pos);
}

/// One whole hunk file: a JSON array of entries and a final newline.
pub open spec fn enc_hunk(es: Seq<IndexEntryV>) -> Seq<u8> {
    seq![91u8] + enc_entries(es) + seq![10u8]
}

/// Decode one whole hunk file.
pub open spec fn sp_hunk(s: Seq<u8>) -> Option<Seq<IndexEntryV>> {
    match sp_lit(s, 0, seq![91u8]) {
        None => None,
        Some(p1) => match sp_entries(s, p1) {
            None => None,
            Some((es, p2)) => match sp_lit(s, p2, seq![10u8]) {
                None => None,
                Some(p3) => if p3 == s.len() {
                    Some(es)
                } else {
                    None
                },
            },
        },
    }
}


/// Reading a written optional field gives it back.
pub proof fn lemma_opt_roundtrip(o: Option<Seq<u8>>, s: Seq<u8>, pos: int)
    requires
        0 <= pos,
        pos + enc_opt(o).len() <= s.len(),
        s.subrange(pos, pos + enc_opt(o).len() as int) == enc_opt(o),
        o matches Some(v) ==> json_safe(v),
    ensures
        sp_opt(s, pos) == Some((o, pos + enc_opt(o).len() as int)),
{
    reveal_strlit("null");
    match o {
        None => {
            assert(sp_lit(s, pos, ascii_bytes("null"@)) == Some(pos + 4));
        },
        Some(v) => {
            let n = enc_opt(o).len() as int;
            crate::codec::lemma_split2(s, pos, seq![34u8], enc_quoted(v));
            crate::codec::lemma_split2(s, pos + 1, v, seq![34u8]);
            assert(s[pos] == 34) by {
                assert(s.subrange(pos, pos + 1)[0] == s[pos]);
            }
            assert(s[pos + 1 + v.len()] == 34) by {
                assert(s.subrange(pos + 1 + v.len() as int, pos + 1 + v.len() + 1)[0] == s[pos + 1
                    + v.len()]);
            }
            assert(ascii_bytes("null"@)[0] == 110);
            assert(sp_lit(s, pos, ascii_bytes("null"@)) is None) by {
                if sp_lit(s, pos, ascii_bytes("null"@)) is Some {
                    assert(s.subrange(pos, pos + 4)[0] == s[pos]);
                }
            }
            assert(sp_lit(s, pos, seq![34u8]) == Some(pos + 1));
            lemma_sp_quoted_complete(s, pos + 1, v);
        },
    }
}

/// Reading a written address record gives it back.
pub proof fn lemma_addr_roundtrip(a: AddressV, s: Seq<u8>, pos: int)
    requires
        0 <= pos,
        pos + enc_addr(a).len() <= s.len(),
        s.subrange(pos, pos + enc_addr(a).len() as int) == enc_addr(a),
        addr_valid(a),
    ensures
        sp_addr(s, pos) == Some((a, pos + enc_addr(a).len() as int)),
        s[pos] == 123,
{
    reveal_strlit("{\"hash\":\"");
    reveal_strlit(",\"start\":");
    reveal_strlit(",\"len\":");
    let l1 = ascii_bytes("{\"hash\":\""@);
    let l2 = ascii_bytes(",\"start\":"@);
    let l3 = ascii_bytes(",\"len\":"@);
    let c6 = l1 + enc_quoted(a.hash) + l2 + dec_of(a.start) + l3 + dec_of(a.len);
    let c5 = l1 + enc_quoted(a.hash) + l2 + dec_of(a.start) + l3;
    let c4 = l1 + enc_quoted(a.hash) + l2 + dec_of(a.start);
    let c3 = l1 + enc_quoted(a.hash) + l2;
    let c2 = l1 + enc_quoted(a.hash);
    crate::codec::lemma_split2(s, pos, c6, seq![125u8]);
    crate::codec::lemma_split2(s, pos, c5, dec_of(a.len));
    crate::codec::lemma_split2(s, pos, c4, l3);
    crate::codec::lemma_split2(s, pos, c3, dec_of(a.start));
    crate::codec::lemma_split2(s, pos, c2, l2);
    crate::codec::lemma_split2(s, pos, l1, enc_quoted(a.hash));
    let p1 = pos + l1.len() as int;
    crate::codec::lemma_split2(s, p1, a.hash, seq![34u8]);
    let p2 = p1 + a.hash.len() + 1;
    let p3 = p2 + l2.len() as int;
    let p4 = p3 + dec_of(a.start).len() as int;
    let p5 = p4 + l3.len() as int;
    let p6 = p5 + dec_of(a.len).len() as int;
    assert(s[pos] == 123) by {
        assert(s.subrange(pos, p1)[0] == s[pos]);
    }
    assert(s[p2 - 1] == 34) by {
        assert(s.subrange(p2 - 1, p2)[0] == s[p2 - 1]);
    }
    lemma_sp_quoted_complete(s, p1, a.hash);
    assert(s[p4] == l3[0]) by {
        assert(s.subrange(p4, p5)[0] == s[p4]);
    }
    assert(!is_digit(s[p4]));
    lemma_sp_u64_complete(s, p3, a.start);
    assert(s[p6] == 125) by {
        assert(s.subrange(p6, p6 + 1)[0] == s[p6]);
    }
    assert(!is_digit(s[p6]));
    lemma_sp_u64_complete(s, p5, a.len);
}

/// Reading a written address list gives it back.
#[verifier::rlimit(100)]
pub proof fn lemma_addrs_roundtrip(addrs: Seq<AddressV>, s: Seq<u8>, pos: int)
    requires
        0 <= pos,
        pos + enc_addrs(addrs).len() <= s.len(),
        s.subrange(pos, pos + enc_addrs(addrs).len() as int) == enc_addrs(addrs),
        forall|i: int| 0 <= i < addrs.len() ==> addr_valid(#[trigger] addrs[i]),
    ensures
        sp_addrs(s, pos) == Some((addrs, pos + enc_addrs(addrs).len() as int)),
    decreases addrs.len(),
{
    let n = enc_addrs(addrs).len() as int;
    if addrs.len() == 0 {
        assert(s[pos] == 93) by {
            assert(s.subrange(pos, pos + n)[0] == s[pos]);
        }
        assert(addrs =~= Seq::<AddressV>::empty());
    } else {
        let a0 = addrs[0];
        let k = enc_addr(a0).len() as int;
        if addrs.len() == 1 {
            crate::codec::lemma_split2(s, pos, enc_addr(a0), seq![93u8]);
            lemma_addr_roundtrip(a0, s, pos);
            let e = pos + k;
            assert(s[e] == 93) by {
                assert(s.subrange(e, e + 1)[0] == s[e]);
            }
            assert(seq![a0] =~= addrs);
        } else {
            let rest = addrs.skip(1);
            crate::codec::lemma_split2(s, pos, enc_addr(a0) + seq![44u8], enc_addrs(rest));
            crate::codec::lemma_split2(s, pos, enc_addr(a0), seq![44u8]);
            lemma_addr_roundtrip(a0, s, pos);
            let e = pos + k;
            assert(s[e] == 44) by {
                assert(s.subrange(e, e + 1)[0] == s[e]);
            }
            lemma_addrs_roundtrip(rest, s, e + 1);
            assert(seq![a0] + rest =~= addrs);
        }
    }
}

/// Reading a written entry record gives it back.
#[verifier::rlimit(100)]
pub proof fn lemma_entry_roundtrip(v: IndexEntryV, s: Seq<u8>, pos: int)
    requires
        0 <= pos,
        pos + enc_entry(v).len() <= s.len(),
        s.subrange(pos, pos + enc_entry(v).len() as int) == enc_entry(v),
        entry_valid(v),
    ensures
        sp_entry(s, pos) == Some((v, pos + enc_entry(v).len() as int)),
        s[pos] == 123,
{
    reveal_strlit("{\"apath\":\"");
    reveal_strlit(",\"kind\":\"");
    reveal_strlit(",\"mtime\":");
    reveal_strlit(",\"addrs\":[");
    reveal_strlit(",\"blake2b\":");
    reveal_strlit(",\"target\":");
    lemma_kind_bytes(v.kind);
    let l1 = ascii_bytes("{\"apath\":\""@);
    let l2 = ascii_bytes(",\"kind\":\""@);
    let l3 = ascii_bytes(",\"mtime\":"@);
    let l4 = ascii_bytes(",\"addrs\":["@);
    let l5 = ascii_bytes(",\"blake2b\":"@);
    let l6 = ascii_bytes(",\"target\":"@);
    let kb = kind_bytes(v.kind);
    let c12 = l1 + enc_quoted(v.apath) + l2 + enc_quoted(kb) + l3 + i64_dec(v.mtime) + l4
        + enc_addrs(v.addrs) + l5 + enc_opt(v.blake2b) + l6;
    let c11 = l1 + enc_quoted(v.apath) + l2 + enc_quoted(kb) + l3 + i64_dec(v.mtime) + l4
        + enc_addrs(v.addrs) + l5 + enc_opt(v.blake2b);
    let c10 = l1 + enc_quoted(v.apath) + l2 + enc_quoted(kb) + l3 + i64_dec(v.mtime) + l4
        + enc_addrs(v.addrs) + l5;
    let c9 = l1 + enc_quoted(v.apath) + l2 + enc_quoted(kb) + l3 + i64_dec(v.mtime) + l4
        + enc_addrs(v.addrs);
    let c8 = l1 + enc_quoted(v.apath) + l2 + enc_quoted(kb) + l3 + i64_dec(v.mtime) + l4;
    let c7 = l1 + enc_quoted(v.apath) + l2 + enc_quoted(kb) + l3 + i64_dec(v.mtime);
    let c6 = l1 + enc_quoted(v.apath) + l2 + enc_quoted(kb) + l3;
    let c5 = l1 + enc_quoted(v.apath) + l2 + enc_quoted(kb);
    let c4 = l1 + enc_quoted(v.apath) + l2;
    let c3 = l1 + enc_quoted(v.apath);
    crate::codec::lemma_split2(s, pos, c12 + enc_opt(v.target), seq![125u8]);
    crate::codec::lemma_split2(s, pos, c12, enc_opt(v.target));
    crate::codec::lemma_split2(s, pos, c11, l6);
    crate::codec::lemma_split2(s, pos, c10, enc_opt(v.blake2b));
    crate::codec::lemma_split2(s, pos, c9, l5);
    crate::codec::lemma_split2(s, pos, c8, enc_addrs(v.addrs));
    crate::codec::lemma_split2(s, pos, c7, l4);
    crate::codec::lemma_split2(s, pos, c6, i64_dec(v.mtime));
    crate::codec::lemma_split2(s, pos, c5, l3);
    crate::codec::lemma_split2(s, pos, c4, enc_quoted(kb));
    crate::codec::lemma_split2(s, pos, c3, l2);
    crate::codec::lemma_split2(s, pos, l1, enc_quoted(v.apath));
    let p1 = pos + l1.len() as int;
    crate::codec::lemma_split2(s, p1, v.apath, seq![34u8]);
    let p2 = p1 + v.apath.len() + 1;
    let p3 = p2 + l2.len() as int;
    crate::codec::lemma_split2(s, p3, kb, seq![34u8]);
    let p4 = p3 + kb.len() + 1;
    let p5 = p4 + l3.len() as int;
    let p6 = p5 + i64_dec(v.mtime).len() as int;
    let p7 = p6 + l4.len() as int;
    let p8 = p7 + enc_addrs(v.addrs).len() as int;
    let p9 = p8 + l5.len() as int;
    let p10 = p9 + enc_opt(v.blake2b).len() as int;
    let p11 = p10 + l6.len() as int;
    let p12 = p11 + enc_opt(v.target).len() as int;
    assert(s[pos] == 123) by {
        assert(s.subrange(pos, p1)[0] == s[pos]);
    }
    assert(s[p2 - 1] == 34) by {
        assert(s.subrange(p2 - 1, p2)[0] == s[p2 - 1]);
    }
    lemma_sp_quoted_complete(s, p1, v.apath);
    assert(s[p4 - 1] == 34) by {
        assert(s.subrange(p4 - 1, p4)[0] == s[p4 - 1]);
    }
    lemma_sp_quoted_complete(s, p3, kb);
    assert(s[p6] == l4[0]) by {
        assert(s.subrange(p6, p7)[0] == s[p6]);
    }
    assert(!is_digit(s[p6]));
    lemma_sp_i64_complete(s, p5, v.mtime);
    lemma_addrs_roundtrip(v.addrs, s, p7);
    lemma_opt_roundtrip(v.blake2b, s, p9);
    lemma_opt_roundtrip(v.target, s, p11);
    assert(s[p12] == 125) by {
        assert(s.subrange(p12, p12 + 1)[0] == s[p12]);
    }
}

/// Reading a written entry list gives it back.
#[verifier::rlimit(100)]
pub proof fn lemma_entries_roundtrip(es: Seq<IndexEntryV>, s: Seq<u8>, pos: int)
    requires
        0 <= pos,
        pos + enc_entries(es).len() <= s.len(),
        s.subrange(pos, pos + enc_entries(es).len() as int) == enc_entries(es),
        forall|i: int| 0 <= i < es.len() ==> entry_valid(#[trigger] es[i]),
    ensures
        sp_entries(s, pos) == Some((es, pos + enc_entries(es).len() as int)),
    decreases es.len(),
{
    let n = enc_entries(es).len() as int;
    if es.len() == 0 {
        assert(s[pos] == 93) by {
            assert(s.subrange(pos, pos + n)[0] == s[pos]);
        }
        assert(es =~= Seq::<IndexEntryV>::empty());
    } else {
        let v0 = es[0];
        let k = enc_entry(v0).len() as int;
        if es.len() == 1 {
            crate::codec::lemma_split2(s, pos, enc_entry(v0), seq![93u8]);
            lemma_entry_roundtrip(v0, s, pos);
            let e = pos + k;
            assert(s[e] == 93) by {
                assert(s.subrange(e, e + 1)[0] == s[e]);
            }
            assert(seq![v0] =~= es);
        } else {
            let rest = es.skip(1);
            crate::codec::lemma_split2(s, pos, enc_entry(v0) + seq![44u8], enc_entries(rest));
            crate::codec::lemma_split2(s, pos, enc_entry(v0), seq![44u8]);
            lemma_entry_roundtrip(v0, s, pos);
            let e = pos + k;
            assert(s[e] == 44) by {
                assert(s.subrange(e, e + 1)[0] == s[e]);
            }
            lemma_entries_roundtrip(rest, s, e + 1);
            assert(seq![v0] + rest =~= es);
        }
    }
}

/// Reading a written hunk gives back exactly the entries written into it.
pub proof fn lemma_hunk_roundtrip(es: Seq<IndexEntryV>)
    requires
        forall|i: int| 0 <= i < es.len() ==> entry_valid(#[trigger] es[i]),
    ensures
        sp_hunk(enc_hunk(es)) == Some(es),
{
    let s = enc_hunk(es);
    let n = enc_entries(es).len() as int;
    assert(s.subrange(0, s.len() as int) =~= s);
    crate::codec::lemma_split2(s, 0, seq![91u8] + enc_entries(es), seq![10u8]);
    crate::codec::lemma_split2(s, 0, seq![91u8], enc_entries(es));
    lemma_entries_roundtrip(es, s, 1);
}

/// Views of a sequence of entries.
pub open spec fn entries_view(v: Seq<IndexEntry>) -> Seq<IndexEntryV> {
    v.map_values(|e: IndexEntry| e@)
}

/// Views of a sequence of addresses.
pub open spec fn addrs_view(v: Seq<Address>) -> Seq<AddressV> {
    v.map_values(|a: Address| a@)
}

/// Append the encoding of one address.
pub fn encode_addr(out: &mut Vec<u8>, a: &Address)
    ensures
        final(out)@ == old(out)@ + enc_addr(a@),
{
    proof {
        reveal_strlit("{\"hash\":\"");
        reveal_strlit(",\"start\":");
        reveal_strlit(",\"len\":");
    }
    let l1 = lit_bytes("{\"hash\":\"");
    bytes_append(out, &l1);
    bytes_append(out, &a.hash);
    out.push(34);
    let l2 = lit_bytes(",\"start\":");
    bytes_append(out, &l2);
    push_u64(out, a.start);
    let l3 = lit_bytes(",\"len\":");
    bytes_append(out, &l3);
    push_u64(out, a.len);
    out.push(125);
    proof {
        assert(out@ =~= old(out)@ + enc_addr(a@));
    }
}

/// Append the encoding of an address list.
pub fn encode_addrs(out: &mut Vec<u8>, addrs: &Vec<Address>)
    ensures
        final(out)@ == old(out)@ + enc_addrs(addrs_view(addrs@)),
{
    let ghost vs = addrs_view(addrs@);
    if addrs.len() == 0 {
        out.push(93);
        proof {
            assert(out@ =~= old(out)@ + enc_addrs(vs));
        }
        return;
    }
    let mut i: usize = 0;
    proof {
        assert(vs.skip(0) =~= vs);
    }
    loop
        invariant
            i < addrs.len(),
            vs == addrs_view(addrs@),
            vs.len() == addrs.len(),
            out@ + enc_addrs(vs.skip(i as int)) == old(out)@ + enc_addrs(vs),
        decreases addrs.len() - i,
    {
        proof {
            assert(vs.skip(i as int)[0] == vs[i as int]);
            assert(vs.skip(i as int).skip(1) =~= vs.skip(i + 1 as int));
        }
        encode_addr(out, &addrs[i]);
        if i + 1 < addrs.len() {
            out.push(44);
            proof {
                assert(out@ + enc_addrs(vs.skip(i + 1 as int)) =~= old(out)@ + enc_addrs(vs));
            }
            i = i + 1;
        } else {
            out.push(93);
            proof {
                assert(vs.skip(i as int).len() == 1);
                assert(out@ =~= old(out)@ + enc_addrs(vs));
            }
            return;
        }
    }
}

/// Append the JSON name of a kind.
pub fn push_kind(out: &mut Vec<u8>, k: Kind)
    ensures
        final(out)@ == old(out)@ + kind_bytes(k),
{
    proof {
        reveal_strlit("File");
        reveal_strlit("Dir");
        reveal_strlit("Symlink");
        reveal_strlit("Unknown");
    }
    let b = match k {
        Kind::File => lit_bytes("File"),
        Kind::Dir => lit_bytes("Dir"),
        Kind::Symlink => lit_bytes("Symlink"),
        Kind::Unknown => lit_bytes("Unknown"),
    };
    bytes_append(out, &b);
}

/// Append an optional string field.
pub fn push_opt(out: &mut Vec<u8>, o: &Option<Vec<u8>>)
    ensures
        final(out)@ == old(out)@ + enc_opt(
            match o {
                Some(v) => Some(v@),
                None => None,
            },
        ),
{
    proof {
        reveal_strlit("null");
    }
    match o {
        None => {
            let n = lit_bytes("null");
            bytes_append(out, &n);
        },
        Some(v) => {
            out.push(34);
            bytes_append(out, v);
            out.push(34);
            proof {
                assert(out@ =~= old(out)@ + enc_opt(Some(v@)));
            }
        },
    }
}

/// Append the encoding of one index entry.
#[verifier::rlimit(100)]
pub fn encode_entry(out: &mut Vec<u8>, e: &IndexEntry)
    ensures
        final(out)@ == old(out)@ + enc_entry(e@),
{
    proof {
        reveal_strlit("{\"apath\":\"");
        reveal_strlit(",\"kind\":\"");
        reveal_strlit(",\"mtime\":");
        reveal_strlit(",\"addrs\":[");
        reveal_strlit(",\"blake2b\":");
        reveal_strlit(",\"target\":");
    }
    let l1 = lit_bytes("{\"apath\":\"");
    bytes_append(out, &l1);
    bytes_append(out, &e.apath);
    out.push(34);
    let l2 = lit_bytes(",\"kind\":\"");
    bytes_append(out, &l2);
    push_kind(out, e.kind);
    out.push(34);
    let l3 = lit_bytes(",\"mtime\":");
    bytes_append(out, &l3);
    push_i64(out, e.mtime);
    let l4 = lit_bytes(",\"addrs\":[");
    bytes_append(out, &l4);
    encode_addrs(out, &e.addrs);
    let l5 = lit_bytes(",\"blake2b\":");
    bytes_append(out, &l5);
    push_opt(out, &e.blake2b);
    let l6 = lit_bytes(",\"target\":");
    bytes_append(out, &l6);
    push_opt(out, &e.target);
    out.push(125);
    proof {
        assert(out@ =~= old(out)@ + enc_entry(e@));
    }
}

/// Write one whole hunk file from its entries.
pub fn encode_hunk(entries: &Vec<IndexEntry>) -> (r: Vec<u8>)
    ensures
        r@ == enc_hunk(entries_view(entries@)),
{
    let ghost vs = entries_view(entries@);
    let mut out: Vec<u8> = Vec::new();
    out.push(91);
    if entries.len() == 0 {
        out.push(93);
        out.push(10);
        proof {
            assert(out@ =~= enc_hunk(vs));
        }
        return out;
    }
    let ghost base = out@;
    let mut i: usize = 0;
    proof {
        assert(vs.skip(0) =~= vs);
        assert(base =~= seq![91u8]);
    }
    loop
        invariant_except_break
            i < entries.len(),
            out@ + enc_entries(vs.skip(i as int)) == base + enc_entries(vs),
        invariant
            vs == entries_view(entries@),
            vs.len() == entries.len(),
            base == seq![91u8],
        ensures
            out@ == base + enc_entries(vs),
        decreases entries.len() - i,
    {
        proof {
            assert(vs.skip(i as int)[0] == vs[i as int]);
            assert(vs.skip(i as int).skip(1) =~= vs.skip(i + 1 as int));
        }
        encode_entry(&mut out, &entries[i]);
        if i + 1 < entries.len() {
            out.push(44);
            proof {
                assert(out@ + enc_entries(vs.skip(i + 1 as int)) =~= base + enc_entries(vs));
            }
            i = i + 1;
        } else {
            out.push(93);
            proof {
                assert(vs.skip(i as int).len() == 1);
                assert(out@ =~= base + enc_entries(vs));
            }
            break;
        }
    }
    out.push(10);
    proof {
        assert(out@ =~= enc_hunk(vs));
    }
    out
}

/// Read an optional string field.
pub fn read_opt(s: &Vec<u8>, pos: usize) -> (r: Option<(Option<Vec<u8>>, usize)>)
    ensures
        match r {
            Some((Some(v), e)) => sp_opt(s@, pos as int) == Some((Some(v@), e as int)),
            Some((None, e)) => sp_opt(s@, pos as int) == Some((None::<Seq<u8>>, e as int)),
            None => sp_opt(s@, pos as int) is None,
        },
{
    proof {
        reveal_strlit("null");
    }
    let nl = lit_bytes("null");
    match expect_lit(s, pos, &nl) {
        Some(e) => {
            return Some((None, e));
        },
        None => {},
    }
    let mut q: Vec<u8> = Vec::new();
    q.push(34);
    proof {
        assert(q@ =~= seq![34u8]);
    }
    let p = match expect_lit(s, pos, &q) {
        Some(p) => p,
        None => {
            return None;
        },
    };
    match read_quoted(s, p) {
        Some((v, e)) => Some((Some(v), e)),
        None => None,
    }
}

/// Map a byte string back to the kind it names.
pub fn kind_from(b: &Vec<u8>) -> (r: Option<Kind>)
    ensures
        r == kind_of(b@),
{
    proof {
        reveal_strlit("File");
        reveal_strlit("Dir");
        reveal_strlit("Symlink");
        reveal_strlit("Unknown");
    }
    let f = lit_bytes("File");
    if bytes_eq(b, &f) {
        return Some(Kind::File);
    }
    let d = lit_bytes("Dir");
    if bytes_eq(b, &d) {
        return Some(Kind::Dir);
    }
    let sl = lit_bytes("Symlink");
    if bytes_eq(b, &sl) {
        return Some(Kind::Symlink);
    }
    let u = lit_bytes("Unknown");
    if bytes_eq(b, &u) {
        return Some(Kind::Unknown);
    }
    None
}

/// Read one address record.
pub fn read_addr(s: &Vec<u8>, pos: usize) -> (r: Option<(Address, usize)>)
    ensures
        match r {
            Some((a, e)) => sp_addr(s@, pos as int) == Some((a@, e as int)),
            None => sp_addr(s@, pos as int) is None,
        },
{
    proof {
        reveal_strlit("{\"hash\":\"");
        reveal_strlit(",\"start\":");
        reveal_strlit(",\"len\":");
    }
    let l1 = lit_bytes("{\"hash\":\"");
    let l2 = lit_bytes(",\"start\":");
    let l3 = lit_bytes(",\"len\":");
    let mut rb: Vec<u8> = Vec::new();
    rb.push(125);
    proof {
        assert(rb@ =~= seq![125u8]);
    }
    let p1 = match expect_lit(s, pos, &l1) {
        Some(p) => p,
        None => {
            return None;
        },
    };
    let (h, p2) = match read_quoted(s, p1) {
        Some(x) => x,
        None => {
            return None;
        },
    };
    let p3 = match expect_lit(s, p2, &l2) {
        Some(p) => p,
        None => {
            return None;
        },
    };
    let (st, p4) = match read_u64(s, p3) {
        Some(x) => x,
        None => {
            return None;
        },
    };
    let p5 = match expect_lit(s, p4, &l3) {
        Some(p) => p,
        None => {
            return None;
        },
    };
    let (ln, p6) = match read_u64(s, p5) {
        Some(x) => x,
        None => {
            return None;
        },
    };
    let p7 = match expect_lit(s, p6, &rb) {
        Some(p) => p,
        None => {
            return None;
        },
    };
    Some((Address { hash: h, start: st, len: ln }, p7))
}

/// Read an address list up to and including its closing bracket.
pub fn read_addrs(s: &Vec<u8>, pos: usize) -> (r: Option<(Vec<Address>, usize)>)
    ensures
        match r {
            Some((l, e)) => sp_addrs(s@, pos as int) == Some((addrs_view(l@), e as int)),
            None => sp_addrs(s@, pos as int) is None,
        },
{
    let mut out: Vec<Address> = Vec::new();
    let mut p: usize = pos;
    proof {
        assert(addrs_view(out@) =~= Seq::<AddressV>::empty());
    }
    loop
        invariant
            pos <= p,
            (match sp_addrs(s@, p as int) {
                Some((rest, e)) => sp_addrs(s@, pos as int) == Some(
                    (addrs_view(out@) + rest, e),
                ),
                None => sp_addrs(s@, pos as int) is None,
            }),
        decreases s@.len() - p,
    {
        if p >= s.len() {
            return None;
        }
        if s[p] == 93 {
            proof {
                assert(addrs_view(out@) + Seq::<AddressV>::empty() =~= addrs_view(out@));
            }
            return Some((out, p + 1));
        }
        let (a, e) = match read_addr(s, p) {
            Some(x) => x,
            None => {
                return None;
            },
        };
        proof {
            lemma_sp_addr_advance(s@, p as int);
        }
        let ghost prev = addrs_view(out@);
        out.push(a);
        proof {
            assert(addrs_view(out@) =~= prev.push(a@));
        }
        if e < s.len() && s[e] == 44 {
            proof {
                assert(forall|rest: Seq<AddressV>|
                    prev + (seq![a@] + rest) =~= #[trigger] (prev.push(a@) + rest));
            }
            p = e + 1;
        } else if e < s.len() && s[e] == 93 {
            proof {
                assert(prev + seq![a@] =~= prev.push(a@));
            }
            return Some((out, e + 1));
        } else {
            return None;
        }
    }
}

/// Read one entry record.
pub fn read_entry(s: &Vec<u8>, pos: usize) -> (r: Option<(IndexEntry, usize)>)
    ensures
        match r {
            Some((v, e)) => sp_entry(s@, pos as int) == Some((v@, e as int)),
            None => sp_entry(s@, pos as int) is None,
        },
{
    proof {
        reveal_strlit("{\"apath\":\"");
        reveal_strlit(",\"kind\":\"");
        reveal_strlit(",\"mtime\":");
        reveal_strlit(",\"addrs\":[");
        reveal_strlit(",\"blake2b\":");
        reveal_strlit(",\"target\":");
    }
    let l1 = lit_bytes("{\"apath\":\"");
    let l2 = lit_bytes(",\"kind\":\"");
    let l3 = lit_bytes(",\"mtime\":");
    let l4 = lit_bytes(",\"addrs\":[");
    let l5 = lit_bytes(",\"blake2b\":");
    let l6 = lit_bytes(",\"target\":");
    let mut rb: Vec<u8> = Vec::new();
    rb.push(125);
    proof {
        assert(rb@ =~= seq![125u8]);
    }
    let p1 = match expect_lit(s, pos, &l1) {
        Some(p) => p,
        None => {
            return None;
        },
    };
    let (apath, p2) = match read_quoted(s, p1) {
        Some(x) => x,
        None => {
            return None;
        },
    };
    let p3 = match expect_lit(s, p2, &l2) {
        Some(p) => p,
        None => {
            return None;
        },
    };
    let (kb, p4) = match read_quoted(s, p3) {
        Some(x) => x,
        None => {
            return None;
        },
    };
    let kind = match kind_from(&kb) {
        Some(k) => k,
        None => {
            return None;
        },
    };
    let p5 = match expect_lit(s, p4, &l3) {
        Some(p) => p,
        None => {
            return None;
        },
    };
    let (mtime, p6) = match read_i64(s, p5) {
        Some(x) => x,
        None => {
            return None;
        },
    };
    let p7 = match expect_lit(s, p6, &l4) {
        Some(p) => p,
        None => {
            return None;
        },
    };
    let (addrs, p8) = match read_addrs(s, p7) {
        Some(x) => x,
        None => {
            return None;
        },
    };
    let p9 = match expect_lit(s, p8, &l5) {
        Some(p) => p,
        None => {
            return None;
        },
    };
    let (blake2b, p10) = match read_opt(s, p9) {
        Some(x) => x,
        None => {
            return None;
        },
    };
    let p11 = match expect_lit(s, p10, &l6) {
        Some(p) => p,
        None => {
            return None;
        },
    };
    let (target, p12) = match read_opt(s, p11) {
        Some(x) => x,
        None => {
            return None;
        },
    };
    let p13 = match expect_lit(s, p12, &rb) {
        Some(p) => p,
        None => {
            return None;
        },
    };
    Some((IndexEntry { apath, mtime, kind, addrs, blake2b, target }, p13))
}

/// Read an entry list up to and including its closing bracket.
pub fn read_entries(s: &Vec<u8>, pos: usize) -> (r: Option<(Vec<IndexEntry>, usize)>)
    ensures
        match r {
            Some((l, e)) => sp_entries(s@, pos as int) == Some((entries_view(l@), e as int)),
            None => sp_entries(s@, pos as int) is None,
        },
{
    let mut out: Vec<IndexEntry> = Vec::new();
    let mut p: usize = pos;
    proof {
        assert(entries_view(out@) =~= Seq::<IndexEntryV>::empty());
    }
    loop
        invariant
            pos <= p,
            (match sp_entries(s@, p as int) {
                Some((rest, e)) => sp_entries(s@, pos as int) == Some(
                    (entries_view(out@) + rest, e),
                ),
                None => sp_entries(s@, pos as int) is None,
            }),
        decreases s@.len() - p,
    {
        if p >= s.len() {
            return None;
        }
        if s[p] == 93 {
            proof {
                assert(entries_view(out@) + Seq::<IndexEntryV>::empty() =~= entries_view(out@));
            }
            return Some((out, p + 1));
        }
        let (v, e) = match read_entry(s, p) {
            Some(x) => x,
            None => {
                return None;
            },
        };
        proof {
            lemma_sp_entry_advance(s@, p as int);
        }
        let ghost prev = entries_view(out@);
        out.push(v);
        proof {
            assert(entries_view(out@) =~= prev.push(v@));
        }
        if e < s.len() && s[e] == 44 {
            proof {
                assert(forall|rest: Seq<IndexEntryV>|
                    prev + (seq![v@] + rest) =~= #[trigger] (prev.push(v@) + rest));
            }
            p = e + 1;
        } else if e < s.len() && s[e] == 93 {
            proof {
                assert(prev + seq![v@] =~= prev.push(v@));
            }
            return Some((out, e + 1));
        } else {
            return None;
        }
    }
}

/// Read one whole hunk file.
pub fn decode_hunk(s: &Vec<u8>) -> (r: Option<Vec<IndexEntry>>)
    ensures
        match r {
            Some(l) => sp_hunk(s@) == Some(entries_view(l@)),
            None => sp_hunk(s@) is None,
        },
{
    let mut lb: Vec<u8> = Vec::new();
    lb.push(91);
    let mut nlv: Vec<u8> = Vec::new();
    nlv.push(10);
    proof {
        assert(lb@ =~= seq![91u8]);
        assert(nlv@ =~= seq![10u8]);
    }
    let p1 = match expect_lit(s, 0, &lb) {
        Some(p) => p,
        None => {
            return None;
        },
    };
    let (es, p2) = match read_entries(s, p1) {
        Some(x) => x,
        None => {
            return None;
        },
    };
    let p3 = match expect_lit(s, p2, &nlv) {
        Some(p) => p,
        None => {
            return None;
        },
    };
    if p3 == s.len() {
        Some(es)
    } else {
        None
    }
}

/// Most entries one hunk may hold before it is flushed.
pub const HUNK_ENTRY_LIMIT: usize = 1000;

/// All entries recorded by a band's hunks, in order; `None` if any hunk
/// fails to decode.
pub open spec fn hunks_entries(hunks: Seq<Seq<u8>>) -> Option<Seq<IndexEntryV>>
    decreases hunks.len(),
{
    if hunks.len() == 0 {
        Some(Seq::empty())
    } else {
        match hunks_entries(hunks.drop_last()) {
            None => None,
            Some(pre) => match sp_hunk(hunks.last()) {
                None => None,
                Some(es) => Some(pre + es),
            },
        }
    }
}

/// Appending one hunk extends the recorded entries by its own.
pub proof fn lemma_hunks_entries_push(hunks: Seq<Seq<u8>>, h: Seq<u8>)
    ensures
        hunks_entries(hunks.push(h)) == (match hunks_entries(hunks) {
            None => None,
            Some(pre) => match sp_hunk(h) {
                None => None::<Seq<IndexEntryV>>,
                Some(es) => Some(pre + es),
            },
        }),
{
    assert(hunks.push(h).drop_last() =~= hunks);
    assert(hunks.push(h).last() == h);
}

/// Accepts entries in apath order and persists them as JSON hunks in the
/// band's index directory. A builder writes exactly one index generation.
#[derive(Debug)]
pub struct IndexBuilder {
    band_name: Vec<u8>,
    buf: Vec<IndexEntry>,
    last: Option<Vec<u8>>,
    done: bool,
}

impl IndexBuilder {
    /// Which band directory this builder writes into.
    pub closed spec fn band_name_view(&self) -> Seq<u8> {
        self.band_name@
    }

    /// Entries buffered but not yet flushed.
    pub closed spec fn buf_view(&self) -> Seq<IndexEntryV> {
        entries_view(self.buf@)
    }

    /// Apath of the most recently pushed entry, if any.
    pub closed spec fn last_view(&self) -> Option<Seq<u8>> {
        match self.last {
            Some(ref l) => Some(l@),
            None => None,
        }
    }

    /// Whether `finish` has been called: a finished builder is unusable.
    pub closed spec fn is_done(&self) -> bool {
        self.done
    }

    /// Every buffered entry is well formed.
    pub open spec fn buf_valid(&self) -> bool {
        forall|i: int| 0 <= i < self.buf_view().len() ==> entry_valid(#[trigger] self.buf_view()[i])
    }

    /// All entries this builder has accepted, flushed or buffered, as
    /// recorded in the archive plus the buffer; `None` if the band is
    /// gone or a written hunk does not decode.
    pub open spec fn pending(&self, archive: &crate::archive::Archive) -> Option<Seq<IndexEntryV>> {
        match archive.band_at(self.band_name_view()) {
            None => None,
            Some(fs) => match hunks_entries(fs.hunks) {
                None => None,
                Some(pre) => Some(pre + self.buf_view()),
            },
        }
    }

    /// A fresh builder for the named band.
    pub(crate) fn new(band_name: Vec<u8>) -> (r: IndexBuilder)
        ensures
            r.band_name_view() == band_name@,
            r.buf_view() == Seq::<IndexEntryV>::empty(),
            r.last_view() is None,
            !r.is_done(),
            r.buf_valid(),
    {
        let r = IndexBuilder { band_name, buf: Vec::new(), last: None, done: false };
        proof {
            assert(r.buf_view() =~= Seq::<IndexEntryV>::empty());
        }
        r
    }

    /// Buffer one entry. The caller must push entries in strictly
    /// increasing apath order; violating that is a logic error, not a
    /// recoverable condition.
    pub fn push(&mut self, entry: IndexEntry)
        requires
            !old(self).is_done(),
            entry_valid(entry@),
            match old(self).last_view() {
                Some(la) => crate::bytes::lex_lt(la, entry@.apath),
                None => true,
            },
        ensures
            final(self).buf_view() == old(self).buf_view().push(entry@),
            final(self).band_name_view() == old(self).band_name_view(),
            final(self).last_view() == Some(entry@.apath),
            !final(self).is_done(),
            old(self).buf_valid() ==> final(self).buf_valid(),
    {
        let ghost ob = self.buf_view();
        self.last = Some(crate::bytes::bytes_slice(&entry.apath, 0, entry.apath.len()));
        proof {
            assert(entry.apath@.subrange(0, entry.apath@.len() as int) =~= entry.apath@);
        }
        self.buf.push(entry);
        proof {
            assert(self.buf_view() =~= ob.push(self.buf@.last()@));
            if old(self).buf_valid() {
                assert forall|i: int|
                    0 <= i < self.buf_view().len() implies entry_valid(
                    #[trigger] self.buf_view()[i],
                ) by {
                    if i < ob.len() {
                        assert(self.buf_view()[i] == ob[i]);
                    }
                }
            }
        }
    }

    /// Write the buffer out as the next hunk file and clear it.
    fn flush_hunk(&mut self, archive: &mut crate::archive::Archive) -> (r: Result<(), Error>)
        requires
            old(archive).wf(),
            old(self).buf_valid(),
            !old(self).is_done(),
        ensures
            final(archive).wf(),
            final(self).band_name_view() == old(self).band_name_view(),
            final(self).last_view() == old(self).last_view(),
            final(self).is_done() == old(self).is_done(),
            final(self).buf_valid(),
            final(archive).blocks_view() == old(archive).blocks_view(),
            final(archive).header_view() == old(archive).header_view(),
            final(archive).path_view() == old(archive).path_view(),
            final(archive).bands_view().len() == old(archive).bands_view().len(),
            forall|k: int|
                0 <= k < old(archive).bands_view().len() ==> (
                #[trigger] final(archive).bands_view()[k]).0 == old(archive).bands_view()[k].0,
            match r {
                Ok(()) => {
                    &&& final(self).buf_view() == Seq::<IndexEntryV>::empty()
                    &&& final(self).pending(final(archive)) == old(self).pending(old(archive))
                    &&& (old(archive).band_at(old(self).band_name_view()) matches Some(ofs)
                        && final(archive).band_at(old(self).band_name_view()) matches Some(fs) && {
                        &&& fs.head == ofs.head
                        &&& fs.tail == ofs.tail
                        &&& fs.extra_files == ofs.extra_files
                        &&& fs.extra_dirs == ofs.extra_dirs
                        &&& fs.hunks.len() == ofs.hunks.len() + 1
                    })
                    &&& (forall|n: Seq<u8>|
                        n != old(self).band_name_view() ==> final(archive).band_at(n) == old(
                            archive,
                        ).band_at(n))
                },
                Err(e) => {
                    &&& *final(archive) == *old(archive)
                    &&& final(self).buf_view() == old(self).buf_view()
                    &&& e is FileMissing
                    &&& old(archive).band_at(old(self).band_name_view()) is None
                },
            },
    {
        let i = match archive.find_band(&self.band_name) {
            Some(i) => i,
            None => {
                return Err(Error::FileMissing);
            },
        };
        let hunk = encode_hunk(&self.buf);
        proof {
            lemma_hunk_roundtrip(self.buf_view());
        }
        let fs = archive.band_fs_at(i);
        let mut hunks = crate::bytes::byte_vecs_clone(&fs.hunks);
        let ghost old_hunks = fs@.hunks;
        hunks.push(hunk);
        proof {
            assert(hunks@.map_values(|h: Vec<u8>| h@) =~= old_hunks.push(
                enc_hunk(old(self).buf_view()),
            ));
        }
        let new_fs = crate::archive::BandFs {
            head: crate::excludes::clone_opt_bytes(&fs.head),
            tail: crate::excludes::clone_opt_bytes(&fs.tail),
            hunks,
            extra_files: crate::bytes::byte_vecs_clone(&fs.extra_files),
            extra_dirs: crate::bytes::byte_vecs_clone(&fs.extra_dirs),
        };
        let ghost obv = archive.bands_view();
        archive.set_band(i, new_fs);
        self.buf.clear();
        proof {
            assert forall|k: int|
                0 <= k < obv.len() implies (#[trigger] archive.bands_view()[k]).0 == obv[k].0 by {
            }
            crate::band::lemma_band_update_lookup(
                obv,
                archive.bands_view(),
                i as int,
                self.band_name_view(),
            );
            lemma_hunks_entries_push(old_hunks, enc_hunk(old(self).buf_view()));
            assert(self.buf_view() =~= Seq::<IndexEntryV>::empty());
            match hunks_entries(old_hunks) {
                Some(pre) => {
                    assert((pre + old(self).buf_view()) + Seq::<IndexEntryV>::empty() =~= pre
                        + old(self).buf_view());
                },
                None => {},
            }
        }
        Ok(())
    }

    /// Flush the buffer once it has grown past the hunk size threshold.
    pub fn maybe_flush(&mut self, archive: &mut crate::archive::Archive) -> (r: Result<(), Error>)
        requires
            old(archive).wf(),
            old(self).buf_valid(),
            !old(self).is_done(),
        ensures
            final(archive).wf(),
            final(self).band_name_view() == old(self).band_name_view(),
            final(self).last_view() == old(self).last_view(),
            final(self).is_done() == old(self).is_done(),
            final(self).buf_valid(),
            final(archive).blocks_view() == old(archive).blocks_view(),
            final(archive).header_view() == old(archive).header_view(),
            final(archive).path_view() == old(archive).path_view(),
            final(archive).bands_view().len() == old(archive).bands_view().len(),
            forall|k: int|
                0 <= k < old(archive).bands_view().len() ==> (
                #[trigger] final(archive).bands_view()[k]).0 == old(archive).bands_view()[k].0,
            match r {
                Ok(()) => {
                    &&& final(self).pending(final(archive)) == old(self).pending(old(archive))
                    &&& (old(archive).band_at(old(self).band_name_view()) matches Some(ofs)
                        ==> (final(archive).band_at(old(self).band_name_view()) matches Some(fs)
                        && {
                        &&& fs.head == ofs.head
                        &&& fs.tail == ofs.tail
                        &&& fs.extra_files == ofs.extra_files
                        &&& fs.extra_dirs == ofs.extra_dirs
                    }))
                    &&& (forall|n: Seq<u8>|
                        n != old(self).band_name_view() ==> final(archive).band_at(n) == old(
                            archive,
                        ).band_at(n))
                },
                Err(e) => {
                    &&& *final(archive) == *old(archive)
                    &&& e is FileMissing
                    &&& old(archive).band_at(old(self).band_name_view()) is None
                },
            },
    {
        if self.buf.len() >= HUNK_ENTRY_LIMIT {
            self.flush_hunk(archive)
        } else {
            proof {
                if old(archive).band_at(old(self).band_name_view()) matches Some(ofs) {
                }
            }
            Ok(())
        }
    }

    /// Flush whatever remains as a final hunk, even if empty, and become
    /// unusable: a builder writes exactly one index generation.
    pub fn finish(&mut self, archive: &mut crate::archive::Archive) -> (r: Result<(), Error>)
        requires
            old(archive).wf(),
            old(self).buf_valid(),
            !old(self).is_done(),
        ensures
            final(archive).wf(),
            final(self).band_name_view() == old(self).band_name_view(),
            final(archive).blocks_view() == old(archive).blocks_view(),
            final(archive).header_view() == old(archive).header_view(),
            final(archive).path_view() == old(archive).path_view(),
            final(archive).bands_view().len() == old(archive).bands_view().len(),
            forall|k: int|
                0 <= k < old(archive).bands_view().len() ==> (
                #[trigger] final(archive).bands_view()[k]).0 == old(archive).bands_view()[k].0,
            match r {
                Ok(()) => {
                    &&& final(self).is_done()
                    &&& (final(archive).band_at(old(self).band_name_view()) matches Some(fs)
                        && hunks_entries(fs.hunks) == old(self).pending(old(archive)) && {
                        let ofs = old(archive).band_at(old(self).band_name_view()).unwrap();
                        &&& fs.head == ofs.head
                        &&& fs.tail == ofs.tail
                        &&& fs.extra_files == ofs.extra_files
                        &&& fs.extra_dirs == ofs.extra_dirs
                    })
                    &&& (forall|n: Seq<u8>|
                        n != old(self).band_name_view() ==> final(archive).band_at(n) == old(
                            archive,
                        ).band_at(n))
                },
                Err(e) => {
                    &&& *final(archive) == *old(archive)
                    &&& e is FileMissing
                    &&& old(archive).band_at(old(self).band_name_view()) is None
                },
            },
    {
        let r = self.flush_hunk(archive);
        match r {
            Ok(()) => {
                self.done = true;
                proof {
                    assert(final(archive).band_at(old(self).band_name_view()) is Some);
                    let fs = final(archive).band_at(old(self).band_name_view()).unwrap();
                    match old(self).pending(old(archive)) {
                        Some(es) => {
                            assert(hunks_entries(fs.hunks) matches Some(w) && w + Seq::<
                                IndexEntryV,
                            >::empty() == es);
                            assert(hunks_entries(fs.hunks).unwrap() + Seq::<IndexEntryV>::empty()
                                =~= hunks_entries(fs.hunks).unwrap());
                        },
                        None => {},
                    }
                }
                Ok(())
            },
            Err(e) => Err(e),
        }
    }
}

/// Read-only access to a band's index.
#[derive(Debug)]
pub struct IndexRead {
    band_name: Vec<u8>,
}

impl IndexRead {
    /// Which band directory this reader reads.
    pub closed spec fn band_name_view(&self) -> Seq<u8> {
        self.band_name@
    }

    /// A reader for the named band.
    pub(crate) fn open(band_name: Vec<u8>) -> (r: IndexRead)
        ensures
            r.band_name_view() == band_name@,
    {
        IndexRead { band_name }
    }

    /// Decode the hunks in increasing order, apply the exclusion
    /// predicate, and yield the surviving entries, still in apath order.
    /// A hunk that fails to decode ends the scan with `IndexCorrupt`, but
    /// the entries of earlier hunks are still returned.
    pub fn iter(&self, archive: &crate::archive::Archive, excludes: &crate::excludes::Excludes, report: &mut Report) -> (r: (
        Vec<IndexEntry>,
        Option<Error>,
    ))
        ensures
            match archive.band_at(self.band_name_view()) {
                None => r.1 matches Some(e) && e is FileMissing && r.0@.len() == 0,
                Some(fs) => match hunks_entries(fs.hunks) {
                    Some(es) => r.1 is None && entries_view(r.0@) == crate::excludes::filter_excl(
                        excludes.pats_view(),
                        es,
                    ),
                    None => r.1 matches Some(e) && e is IndexCorrupt && exists|k: int|
                        0 <= k < fs.hunks.len() && sp_hunk(#[trigger] fs.hunks[k]) is None && (
                        hunks_entries(fs.hunks.take(k)) matches Some(pre) && entries_view(r.0@)
                            == crate::excludes::filter_excl(excludes.pats_view(), pre)),
                },
            },
    {
        let i = match archive.find_band(&self.band_name) {
            Some(i) => i,
            None => {
                return (Vec::new(), Some(Error::FileMissing));
            },
        };
        let fs = archive.band_fs_at(i);
        let ghost hunks = fs@.hunks;
        let mut raw: Vec<IndexEntry> = Vec::new();
        let mut k: usize = 0;
        proof {
            assert(hunks.take(0) =~= Seq::<Seq<u8>>::empty());
            assert(entries_view(raw@) =~= Seq::<IndexEntryV>::empty());
            assert(hunks_entries(hunks.take(0)) == Some(entries_view(raw@)));
        }
        while k < fs.hunks.len()
            invariant
                k <= fs.hunks.len(),
                hunks == fs@.hunks,
                hunks.len() == fs.hunks.len(),
                archive.band_at(self.band_name_view()) == Some(fs@),
                hunks_entries(hunks.take(k as int)) == Some(entries_view(raw@)),
            decreases fs.hunks.len() - k,
        {
            report.increment("index.hunk");
            proof {
                assert(hunks.take(k + 1 as int).drop_last() =~= hunks.take(k as int));
                assert(hunks.take(k + 1 as int).last() == hunks[k as int]);
                assert(fs.hunks@[k as int]@ == hunks[k as int]);
            }
            let decoded = match decode_hunk(&fs.hunks[k]) {
                Some(es) => es,
                None => {
                    proof {
                        lemma_hunks_entries_bad(hunks, k as int);
                    }
                    let ghost praw_final = entries_view(raw@);
                    let filtered = crate::excludes::apply_excludes(raw, excludes, report);
                    proof {
                        assert(0 <= k < hunks.len() && sp_hunk(hunks[k as int]) is None && (
                        hunks_entries(hunks.take(k as int)) matches Some(pre) && entries_view(
                            filtered@,
                        ) == crate::excludes::filter_excl(excludes.pats_view(), pre)));
                    }
                    return (filtered, Some(Error::IndexCorrupt));
                },
            };
            let ghost praw = entries_view(raw@);
            let mut j: usize = 0;
            let ghost des = entries_view(decoded@);
            while j < decoded.len()
                invariant
                    j <= decoded.len(),
                    des == entries_view(decoded@),
                    des.len() == decoded.len(),
                    entries_view(raw@) == praw + des.take(j as int),
                decreases decoded.len() - j,
            {
                let e = &decoded[j];
                let copy = IndexEntry {
                    apath: e.apath.clone(),
                    mtime: e.mtime,
                    kind: e.kind,
                    addrs: crate::excludes::clone_addrs(&e.addrs),
                    blake2b: crate::excludes::clone_opt_bytes(&e.blake2b),
                    target: crate::excludes::clone_opt_bytes(&e.target),
                };
                let ghost pr = entries_view(raw@);
                proof {
                    assert(copy@ == des[j as int]);
                }
                raw.push(copy);
                proof {
                    assert(entries_view(raw@) =~= pr.push(des[j as int]));
                    assert(praw + des.take(j + 1 as int) =~= (praw + des.take(j as int)).push(
                        des[j as int],
                    ));
                }
                j = j + 1;
            }
            proof {
                assert(des.take(decoded@.len() as int) =~= des);
            }
            k = k + 1;
        }
        proof {
            assert(hunks.take(hunks.len() as int) =~= hunks);
        }
        let filtered = crate::excludes::apply_excludes(raw, excludes, report);
        (filtered, None)
    }
}

/// If any hunk fails to decode, the whole index fails to decode.
pub proof fn lemma_hunks_entries_bad(hunks: Seq<Seq<u8>>, k: int)
    requires
        0 <= k < hunks.len(),
        sp_hunk(hunks[k]) is None,
    ensures
        hunks_entries(hunks) is None,
    decreases hunks.len(),
{
    if hunks.len() > 0 {
        if k == hunks.len() - 1 {
        } else {
            assert(hunks.drop_last()[k] == hunks[k]);
            lemma_hunks_entries_bad(hunks.drop_last(), k);
        }
    }
}

} // verus!

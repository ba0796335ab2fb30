//! The archive: the top-level container holding one header, one block
//! store, and any number of bands.
//!
//! The `Archive` value is the authoritative in-memory image of the
//! archive's on-disk state: every file's exact bytes are represented.
//! The storage layer loads such an image from a directory and writes it
//! back; everything between those two steps is verified here.

use vstd::prelude::*;
use crate::bandid::{BandId, id_lt, sp_band_name};
use crate::blockdir::BlockDir;
use crate::bytes::{bytes_eq, lit_bytes, ascii_bytes};
use crate::error::Error;
use crate::records::{enc_header, sp_header, encode_header, decode_header};
use crate::report::Report;

verus! {

/// On-disk contents of one band directory.
#[derive(Debug)]
pub struct BandFs {
    /// Bytes of the head record, if the file exists.
    pub head: Option<Vec<u8>>,
    /// Bytes of the tail record, if the file exists; its presence is the
    /// sole witness that the band is closed.
    pub tail: Option<Vec<u8>>,
    /// Bytes of each index hunk file, in increasing hunk order.
    pub hunks: Vec<Vec<u8>>,
    /// Names of unexpected files found in the band directory.
    pub extra_files: Vec<Vec<u8>>,
    /// Names of unexpected directories found in the band directory.
    pub extra_dirs: Vec<Vec<u8>>,
}

/// Mathematical shadow of `BandFs`.
pub ghost struct BandFsV {
    pub head: Option<Seq<u8>>,
    pub tail: Option<Seq<u8>>,
    pub hunks: Seq<Seq<u8>>,
    pub extra_files: Seq<Seq<u8>>,
    pub extra_dirs: Seq<Seq<u8>>,
}

impl View for BandFs {
    type V = BandFsV;

    open spec fn view(&self) -> BandFsV {
        BandFsV {
            head: match self.head {
                Some(ref h) => Some(h@),
                None => None,
            },
            tail: match self.tail {
                Some(ref t) => Some(t@),
                None => None,
            },
            hunks: self.hunks@.map_values(|h: Vec<u8>| h@),
            extra_files: self.extra_files@.map_values(|h: Vec<u8>| h@),
            extra_dirs: self.extra_dirs@.map_values(|h: Vec<u8>| h@),
        }
    }
}

impl BandFs {
    /// A freshly created band directory: an index subdirectory and
    /// nothing else yet.
    pub fn empty() -> (r: BandFs)
        ensures
            r@.head is None,
            r@.tail is None,
            r@.hunks == Seq::<Seq<u8>>::empty(),
            r@.extra_files == Seq::<Seq<u8>>::empty(),
            r@.extra_dirs == Seq::<Seq<u8>>::empty(),
    {
        let r = BandFs {
            head: None,
            tail: None,
            hunks: Vec::new(),
            extra_files: Vec::new(),
            extra_dirs: Vec::new(),
        };
        proof {
            assert(r@.hunks =~= Seq::<Seq<u8>>::empty());
            assert(r@.extra_files =~= Seq::<Seq<u8>>::empty());
            assert(r@.extra_dirs =~= Seq::<Seq<u8>>::empty());
        }
        r
    }
}

/// With distinct names, looking up the name at one index finds exactly
/// that entry.
pub proof fn lemma_band_at_index(bands: Seq<(Seq<u8>, BandFsV)>, k: int)
    requires
        0 <= k < bands.len(),
        forall|i: int, j: int|
            0 <= i < j < bands.len() ==> (#[trigger] bands[i]).0 != (#[trigger] bands[j]).0,
    ensures
        band_lookup(bands, bands[k].0) == Some(bands[k].1),
    decreases k,
{
    if k == 0 {
    } else {
        assert(bands[0].0 != bands[k].0);
        assert(bands.skip(1)[k - 1] == bands[k]);
        assert forall|i: int, j: int|
            0 <= i < j < bands.skip(1).len() implies (#[trigger] bands.skip(1)[i]).0 != (
        #[trigger] bands.skip(1)[j]).0 by {
            assert(bands.skip(1)[i] == bands[i + 1]);
            assert(bands.skip(1)[j] == bands[j + 1]);
        }
        lemma_band_at_index(bands.skip(1), k - 1);
    }
}

/// First band stored under a directory name, if any.
pub open spec fn band_lookup(bands: Seq<(Seq<u8>, BandFsV)>, name: Seq<u8>) -> Option<BandFsV>
    decreases bands.len(),
{
    if bands.len() == 0 {
        None
    } else if bands[0].0 == name {
        Some(bands[0].1)
    } else {
        band_lookup(bands.skip(1), name)
    }
}

/// An archive holding backup material.
#[derive(Debug)]
pub struct Archive {
    /// Top-level location of the archive, as handed in by the storage
    /// layer.
    pub path: Vec<u8>,
    /// Exact bytes of the header file.
    pub header: Vec<u8>,
    /// Holds body content for all file versions.
    pub block_dir: BlockDir,
    /// The band directories: directory name and contents, storage order.
    pub bands: Vec<(Vec<u8>, BandFs)>,
}

impl Archive {
    /// The archive's root location.
    pub open spec fn path_view(&self) -> Seq<u8> {
        self.path@
    }

    /// Exact bytes of the header file.
    pub open spec fn header_view(&self) -> Seq<u8> {
        self.header@
    }

    /// The band directories, in storage order.
    pub open spec fn bands_view(&self) -> Seq<(Seq<u8>, BandFsV)> {
        self.bands@.map_values(|p: (Vec<u8>, BandFs)| (p.0@, p.1@))
    }

    /// Contents of the band directory with this name, if present.
    pub open spec fn band_at(&self, name: Seq<u8>) -> Option<BandFsV> {
        band_lookup(self.bands_view(), name)
    }

    /// Well-formed: band directory names are distinct, as directory
    /// entries on any storage are.
    pub open spec fn wf(&self) -> bool {
        forall|i: int, j: int|
            0 <= i < j < self.bands_view().len() ==> #[trigger] self.bands_view()[i].0
                != #[trigger] self.bands_view()[j].0
    }

    /// The block store of this archive.
    pub open spec fn blocks_view(&self) -> Seq<(Seq<u8>, Seq<u8>)> {
        self.block_dir.blocks_view()
    }

    /// Make a new archive: an empty block store and a header naming the
    /// current format version.
    pub fn create(path: Vec<u8>) -> (r: Archive)
        ensures
            r.path_view() == path@,
            r.header_view() == enc_header(ascii_bytes(crate::ARCHIVE_VERSION@)),
            r.blocks_view() == Seq::<(Seq<u8>, Seq<u8>)>::empty(),
            r.bands_view() == Seq::<(Seq<u8>, BandFsV)>::empty(),
            r.wf(),
    {
        proof {
            reveal_strlit("0.5");
        }
        let v = lit_bytes(crate::ARCHIVE_VERSION);
        let header = encode_header(&v);
        let r = Archive { path, header, block_dir: BlockDir::new(), bands: Vec::new() };
        proof {
            assert(r.bands_view() =~= Seq::<(Seq<u8>, BandFsV)>::empty());
        }
        r
    }

    /// Open an archive from loaded contents: the header must exist,
    /// decode, and name the version this code reads; band directory
    /// names must be distinct.
    pub fn open(
        path: Vec<u8>,
        header: Option<Vec<u8>>,
        blocks: Vec<(Vec<u8>, Vec<u8>)>,
        bands: Vec<(Vec<u8>, BandFs)>,
    ) -> (r: Result<Archive, Error>)
        ensures
            match r {
                Ok(a) => {
                    &&& header matches Some(h) && a.header_view() == h@
                    &&& sp_header(a.header_view()) == Some(ascii_bytes(crate::ARCHIVE_VERSION@))
                    &&& a.path_view() == path@
                    &&& a.blocks_view() == blocks@.map_values(
                        |p: (Vec<u8>, Vec<u8>)| (p.0@, p.1@),
                    )
                    &&& a.bands_view() == bands@.map_values(|p: (Vec<u8>, BandFs)| (p.0@, p.1@))
                    &&& a.wf()
                },
                Err(e) => {
                    &&& (e is NotAnArchive || e is Json || e is UnsupportedArchiveVersion
                        || e is Transport)
                    &&& (e is NotAnArchive <==> header is None)
                    &&& (e is Json ==> (header matches Some(h) && sp_header(h@) is None))
                    &&& (e is UnsupportedArchiveVersion ==> (header matches Some(h) && sp_header(
                        h@,
                    ) matches Some(v) && v != ascii_bytes(crate::ARCHIVE_VERSION@)))
                    &&& (e is Transport ==> exists|i: int, j: int|
                        0 <= i < j < bands@.len() && (#[trigger] bands@[i]).0@ == (
                        #[trigger] bands@[j]).0@)
                },
            },
            // Success is owed on a well-formed image.
            (header matches Some(h) && sp_header(h@) == Some(ascii_bytes(crate::ARCHIVE_VERSION@))
                && names_distinct(bands@.map_values(|p: (Vec<u8>, BandFs)| (p.0@, p.1@)))) ==> r is Ok,
    {
        proof {
            reveal_strlit("0.5");
        }
        let hdr = match header {
            Some(h) => h,
            None => {
                return Err(Error::NotAnArchive);
            },
        };
        let version = match decode_header(&hdr) {
            Some(v) => v,
            None => {
                return Err(Error::Json);
            },
        };
        let current = lit_bytes(crate::ARCHIVE_VERSION);
        if !bytes_eq(&version, &current) {
            return Err(Error::UnsupportedArchiveVersion { version });
        }
        // Reject duplicate directory names: no storage can hand them back.
        let ghost bv = bands@.map_values(|p: (Vec<u8>, BandFs)| (p.0@, p.1@));
        let mut i: usize = 0;
        while i < bands.len()
            invariant
                i <= bands.len(),
                header is Some,
                bv == bands@.map_values(|p: (Vec<u8>, BandFs)| (p.0@, p.1@)),
                forall|x: int, y: int| 0 <= x < y < i ==> #[trigger] bv[x].0 != #[trigger] bv[y].0,
            decreases bands.len() - i,
        {
            let mut j: usize = 0;
            while j < i
                invariant
                    j <= i < bands.len(),
                    header is Some,
                    bv == bands@.map_values(|p: (Vec<u8>, BandFs)| (p.0@, p.1@)),
                    forall|y: int| 0 <= y < j ==> #[trigger] bv[y].0 != bv[i as int].0,
                decreases i - j,
            {
                if bytes_eq(&bands[j].0, &bands[i].0) {
                    proof {
                        let m = bands@.map_values(|p: (Vec<u8>, BandFs)| (p.0@, p.1@));
                        assert(m[j as int].0 == bands@[j as int].0@);
                        assert(m[i as int].0 == bands@[i as int].0@);
                        assert(exists|x: int, y: int|
                            0 <= x < y < bands@.len() && (#[trigger] bands@[x]).0@ == (
                            #[trigger] bands@[y]).0@) by {
                            assert(0 <= j < i < bands@.len() && bands@[j as int].0@
                                == bands@[i as int].0@);
                        }
                        assert(!names_distinct(m));
                    }
                    return Err(Error::Transport);
                }
                j = j + 1;
            }
            i = i + 1;
        }
        let a = Archive { path, header: hdr, block_dir: BlockDir::from_pairs(blocks), bands };
        Ok(a)
    }

    /// The archive's block store.
    pub fn block_dir(&self) -> (r: &BlockDir)
        ensures
            r.blocks_view() == self.blocks_view(),
    {
        &self.block_dir
    }

    /// The archive's root location.
    pub fn path(&self) -> (r: &Vec<u8>)
        ensures
            r@ == self.path_view(),
    {
        &self.path
    }

    /// Exact bytes of the header file, for the storage layer to persist.
    pub fn header_bytes(&self) -> (r: &Vec<u8>)
        ensures
            r@ == self.header_view(),
    {
        &self.header
    }

    /// The band directories, for the storage layer to persist.
    pub fn bands_list(&self) -> (r: &Vec<(Vec<u8>, BandFs)>)
        ensures
            r@.map_values(|p: (Vec<u8>, BandFs)| (p.0@, p.1@)) == self.bands_view(),
    {
        &self.bands
    }

    /// What a directory listing of the archive root shows: the header
    /// file, then the block-store directory and the band directories.
    pub fn list_dir(&self) -> (r: (Vec<Vec<u8>>, Vec<Vec<u8>>))
        ensures
            r.0@.len() == 1,
            r.0@[0]@ == ascii_bytes("CONSERVE"@),
            r.1@.len() == 1 + self.bands_view().len(),
            r.1@[0]@ == ascii_bytes("d"@),
            forall|i: int|
                0 <= i < self.bands_view().len() ==> r.1@[i + 1]@ == self.bands_view()[i].0,
    {
        proof {
            reveal_strlit("CONSERVE");
            reveal_strlit("d");
        }
        let mut files: Vec<Vec<u8>> = Vec::new();
        files.push(lit_bytes("CONSERVE"));
        let mut dirs: Vec<Vec<u8>> = Vec::new();
        dirs.push(lit_bytes("d"));
        let mut i: usize = 0;
        while i < self.bands.len()
            invariant
                i <= self.bands.len(),
                dirs@.len() == 1 + i,
                dirs@[0]@ == ascii_bytes("d"@),
                forall|j: int| 0 <= j < i ==> dirs@[j + 1]@ == self.bands_view()[j].0,
            decreases self.bands.len() - i,
        {
            dirs.push(self.bands[i].0.clone());
            i = i + 1;
        }
        (files, dirs)
    }

    /// Append a new band directory.
    pub(crate) fn push_band(&mut self, name: Vec<u8>, fs: BandFs)
        ensures
            final(self).bands_view() == old(self).bands_view().push((name@, fs@)),
            final(self).path_view() == old(self).path_view(),
            final(self).header_view() == old(self).header_view(),
            final(self).blocks_view() == old(self).blocks_view(),
    {
        self.bands.push((name, fs));
        proof {
            assert(self.bands_view() =~= old(self).bands_view().push(
                (self.bands@.last().0@, self.bands@.last().1@),
            ));
        }
    }

    /// Replace the contents of the band directory at one position.
    pub(crate) fn set_band(&mut self, i: usize, fs: BandFs)
        requires
            i < old(self).bands_view().len(),
        ensures
            final(self).bands_view() == old(self).bands_view().update(
                i as int,
                (old(self).bands_view()[i as int].0, fs@),
            ),
            final(self).path_view() == old(self).path_view(),
            final(self).header_view() == old(self).header_view(),
            final(self).blocks_view() == old(self).blocks_view(),
    {
        let (name, _old_fs) = self.bands.remove(i);
        self.bands.insert(i, (name, fs));
        proof {
            assert(self.bands_view() =~= old(self).bands_view().update(
                i as int,
                (old(self).bands_view()[i as int].0, fs@),
            ));
        }
    }

    /// Clone the contents of the band directory at one position.
    pub(crate) fn band_fs_at(&self, i: usize) -> (r: &BandFs)
        requires
            i < self.bands_view().len(),
        ensures
            r@ == self.bands_view()[i as int].1,
    {
        &self.bands[i].1
    }

    /// The `BandId` of the highest-numbered band; `ArchiveEmpty` if there
    /// is none, `InvalidBandId` if some directory is not named by an id.
    pub fn last_band_id(&self) -> (r: Result<BandId, Error>)
        ensures
            match r {
                Ok(id) => {
                    &&& id.wf()
                    &&& exists|j: int|
                        0 <= j < self.bands_view().len() && sp_band_name(
                            #[trigger] self.bands_view()[j].0,
                        ) == Some(id@)
                    &&& forall|j: int|
                        0 <= j < self.bands_view().len() ==> (sp_band_name(
                            #[trigger] self.bands_view()[j].0,
                        ) matches Some(s) && !id_lt(id@, s))
                },
                Err(e) => {
                    &&& (e is ArchiveEmpty ==> self.bands_view().len() == 0)
                    &&& (self.bands_view().len() == 0 ==> e is ArchiveEmpty)
                    &&& (e is InvalidBandId ==> exists|j: int|
                        0 <= j < self.bands_view().len() && sp_band_name(
                            #[trigger] self.bands_view()[j].0,
                        ) is None)
                    &&& (e is ArchiveEmpty || e is InvalidBandId)
                },
            },
    {
        if self.bands.len() == 0 {
            return Err(Error::ArchiveEmpty);
        }
        let mut best = match BandId::from_string(&self.bands[0].0) {
            Ok(id) => id,
            Err(e) => {
                proof {
                    assert(self.bands_view()[0].0 == self.bands@[0].0@);
                }
                return Err(e);
            },
        };
        proof {
            assert(self.bands_view()[0].0 == self.bands@[0].0@);
            crate::bandid::lemma_id_irrefl(best@);
        }
        let mut i: usize = 1;
        while i < self.bands.len()
            invariant
                1 <= i <= self.bands.len(),
                self.bands_view().len() == self.bands.len(),
                best.wf(),
                exists|j: int|
                    0 <= j < i && sp_band_name(#[trigger] self.bands_view()[j].0) == Some(best@),
                forall|j: int|
                    0 <= j < i ==> (sp_band_name(#[trigger] self.bands_view()[j].0) matches Some(s)
                        && !id_lt(best@, s)),
            decreases self.bands.len() - i,
        {
            let id = match BandId::from_string(&self.bands[i].0) {
                Ok(id) => id,
                Err(e) => {
                    proof {
                        assert(self.bands_view()[i as int].0 == self.bands@[i as int].0@);
                    }
                    return Err(e);
                },
            };
            proof {
                assert(self.bands_view()[i as int].0 == self.bands@[i as int].0@);
            }
            if best.is_before(&id) {
                proof {
                    let ghost ob = best@;
                    assert forall|j: int|
                        0 <= j < i + 1 implies (sp_band_name(#[trigger] self.bands_view()[j].0)
                        matches Some(s) && !id_lt(id@, s)) by {
                        if j < i {
                            let s = sp_band_name(self.bands_view()[j].0).unwrap();
                            if id_lt(id@, s) {
                                crate::bandid::lemma_id_total(s, ob);
                                if id_lt(s, ob) {
                                    crate::bandid::lemma_id_trans(id@, s, ob);
                                    crate::bandid::lemma_id_trans(ob, id@, ob);
                                    crate::bandid::lemma_id_irrefl(ob);
                                } else {
                                    crate::bandid::lemma_id_trans(ob, id@, s);
                                    crate::bandid::lemma_id_irrefl(s);
                                }
                            }
                        } else {
                            crate::bandid::lemma_id_irrefl(id@);
                        }
                    }
                }
                best = id;
            } else {
                proof {
                    assert forall|j: int|
                        0 <= j < i + 1 implies (sp_band_name(#[trigger] self.bands_view()[j].0)
                        matches Some(s) && !id_lt(best@, s)) by {
                    }
                }
            }
            i = i + 1;
        }
        Ok(best)
    }

    /// Find a band directory by name.
    pub(crate) fn find_band(&self, name: &Vec<u8>) -> (r: Option<usize>)
        ensures
            match r {
                Some(i) => i < self.bands@.len() && self.bands@[i as int].0@ == name@
                    && self.band_at(name@) == Some(self.bands@[i as int].1@),
                None => self.band_at(name@) is None,
            },
    {
        let mut i: usize = 0;
        proof {
            assert(self.bands_view().skip(0) =~= self.bands_view());
        }
        loop
            invariant
                i <= self.bands.len(),
                band_lookup(self.bands_view().skip(i as int), name@) == self.band_at(name@),
            decreases self.bands.len() - i,
        {
            if i == self.bands.len() {
                proof {
                    assert(self.bands_view().skip(i as int) =~= Seq::<(Seq<u8>, BandFsV)>::empty());
                }
                return None;
            }
            proof {
                assert(self.bands_view().skip(i as int)[0] == (
                    self.bands@[i as int].0@,
                    self.bands@[i as int].1@,
                ));
            }
            if bytes_eq(&self.bands[i].0, name) {
                return Some(i);
            }
            proof {
                assert(self.bands_view().skip(i as int).skip(1) =~= self.bands_view().skip(
                    i + 1 as int,
                ));
            }
            i = i + 1;
        }
    }
}

/// Weakly sorted: no later id is below an earlier one.
pub open spec fn ids_sorted(s: Seq<Seq<u32>>) -> bool {
    forall|k1: int, k2: int|
        #![trigger s[k1], s[k2]]
        0 <= k1 <= k2 < s.len() ==> !id_lt(s[k2], s[k1])
}

/// Strictly lex-sorted byte strings: each element below the next.
pub open spec fn hashes_sorted(s: Seq<Seq<u8>>) -> bool {
    forall|k1: int, k2: int|
        #![trigger s[k1], s[k2]]
        0 <= k1 < k2 < s.len() ==> crate::bytes::lex_lt(s[k1], s[k2])
}

/// Inserting an element anywhere adds exactly it to the seq's multiset.
pub proof fn lemma_insert_multiset<A>(s: Seq<A>, p: int, x: A)
    requires
        0 <= p <= s.len(),
    ensures
        s.insert(p, x).to_multiset() == s.to_multiset().insert(x),
{
    broadcast use vstd::seq_lib::group_to_multiset_ensures;

    vstd::seq_lib::lemma_multiset_commutative(s.subrange(0, p).push(x), s.subrange(p, s.len() as int));
    vstd::seq_lib::lemma_multiset_commutative(s.subrange(0, p), s.subrange(p, s.len() as int));
    assert(s.subrange(0, p) + s.subrange(p, s.len() as int) =~= s);
    assert(s.insert(p, x).to_multiset() =~= s.to_multiset().insert(x)) by {
        assert(s.subrange(0, p).push(x).to_multiset() =~= s.subrange(0, p).to_multiset().insert(
            x,
        ));
    }
}

/// The ids every band directory name parses to, in storage order.
pub open spec fn parsed_ids(bands: Seq<(Seq<u8>, BandFsV)>) -> Seq<Seq<u32>> {
    bands.map_values(|b: (Seq<u8>, BandFsV)| sp_band_name(b.0).unwrap())
}

/// Directory names are pairwise distinct, as any storage hands them back.
pub open spec fn names_distinct(bands: Seq<(Seq<u8>, BandFsV)>) -> bool {
    forall|i: int, j: int|
        0 <= i < j < bands.len() ==> (#[trigger] bands[i]).0 != (#[trigger] bands[j]).0
}

/// `m` is the largest id any band directory's name parses to, and every
/// directory's name does parse.
pub open spec fn is_max_id(a: &Archive, m: Seq<u32>) -> bool {
    &&& parsed_member(a, m)
    &&& forall|j: int|
        0 <= j < a.bands_view().len() ==> (sp_band_name(#[trigger] a.bands_view()[j].0)
            matches Some(s) && !id_lt(m, s))
}

/// Some band directory's name parses to this id.
pub open spec fn parsed_member(a: &Archive, id: Seq<u32>) -> bool {
    exists|j: int|
        0 <= j < a.bands_view().len() && sp_band_name(#[trigger] a.bands_view()[j].0) == Some(id)
}

/// The byte string is one of the listed hashes.
pub open spec fn contains_hash(s: Seq<Seq<u8>>, h: Seq<u8>) -> bool {
    exists|k: int| 0 <= k < s.len() && s[k] == h
}

/// The views of a vector of hashes.
pub open spec fn out_hashes(v: Seq<Vec<u8>>) -> Seq<Seq<u8>> {
    v.map_values(|x: Vec<u8>| x@)
}

/// The views of a vector of band ids.
pub open spec fn ids_views(v: Seq<BandId>) -> Seq<Seq<u32>> {
    v.map_values(|b: BandId| b@)
}

/// The band with this id references this block hash in its index.
pub open spec fn band_hash(a: &Archive, id: Seq<u32>, h: Seq<u8>) -> bool {
    match a.band_at(crate::bandid::name_of(id)) {
        Some(fs) => match crate::index::hunks_entries(fs.hunks) {
            Some(es) => exists|x: int, y: int|
                #![trigger es[x].addrs[y]]
                0 <= x < es.len() && 0 <= y < es[x].addrs.len() && es[x].addrs[y].hash == h,
            None => false,
        },
        None => false,
    }
}

/// Some canonical band's index references this block hash.
pub open spec fn referenced(a: &Archive, h: Seq<u8>) -> bool {
    exists|j: int|
        0 <= j < a.bands_view().len() && (match sp_band_name(#[trigger] a.bands_view()[j].0) {
            Some(s) => band_hash(a, s, h),
            None => false,
        })
}

impl Archive {
    /// All band ids, sorted from first to last. Every returned id names
    /// a band directory; a directory that is not named by an id fails
    /// the listing.
    pub fn list_bands(&self) -> (r: Result<Vec<BandId>, Error>)
        ensures
            match r {
                Ok(ids) => {
                    &&& ids@.len() == self.bands_view().len()
                    &&& (forall|k: int| 0 <= k < ids@.len() ==> (#[trigger] ids@[k])@.len() >= 1)
                    &&& ids_sorted(ids@.map_values(|b: BandId| b@))
                    &&& (forall|j: int|
                        0 <= j < self.bands_view().len() ==> sp_band_name(
                            #[trigger] self.bands_view()[j].0,
                        ) is Some)
                    &&& ids@.map_values(|b: BandId| b@).to_multiset() == parsed_ids(
                        self.bands_view(),
                    ).to_multiset()
                    &&& (forall|k: int|
                        0 <= k < ids@.len() ==> parsed_member(self, (#[trigger] ids@[k])@))
                },
                Err(e) => e is InvalidBandId && exists|j: int|
                    0 <= j < self.bands_view().len() && sp_band_name(
                        #[trigger] self.bands_view()[j].0,
                    ) is None,
            },
    {
        let mut out: Vec<BandId> = Vec::new();
        let mut i: usize = 0;
        proof {
            assert(out@.map_values(|b: BandId| b@) =~= Seq::<Seq<u32>>::empty());
            assert(parsed_ids(self.bands_view().take(0)) =~= Seq::<Seq<u32>>::empty());
        }
        while i < self.bands.len()
            invariant
                i <= self.bands.len(),
                self.bands_view().len() == self.bands.len(),
                out@.len() == i,
                forall|k: int| 0 <= k < out@.len() ==> (#[trigger] out@[k])@.len() >= 1,
                ids_sorted(out@.map_values(|b: BandId| b@)),
                forall|j: int|
                    0 <= j < i ==> sp_band_name(#[trigger] self.bands_view()[j].0) is Some,
                out@.map_values(|b: BandId| b@).to_multiset() == parsed_ids(
                    self.bands_view().take(i as int),
                ).to_multiset(),
                forall|k: int|
                    0 <= k < out@.len() ==> parsed_member(self, (#[trigger] out@[k])@),
            decreases self.bands.len() - i,
        {
            let id = match BandId::from_string(&self.bands[i].0) {
                Ok(id) => id,
                Err(e) => {
                    proof {
                        assert(self.bands_view()[i as int].0 == self.bands@[i as int].0@);
                    }
                    return Err(e);
                },
            };
            proof {
                assert(self.bands_view()[i as int].0 == self.bands@[i as int].0@);
            }
            // Find the insertion point: the first element above the new id.
            let mut p: usize = 0;
            while p < out.len() && !id.is_before(&out[p])
                invariant
                    p <= out.len(),
                    forall|a: int|
                        0 <= a < p ==> !id_lt(id@, (#[trigger] out@[a])@),
                decreases out.len() - p,
            {
                p = p + 1;
            }
            let ghost oldout = out@;
            let ghost m = out@.map_values(|b: BandId| b@);
            out.insert(p, id);
            proof {
                let m2 = out@.map_values(|b: BandId| b@);
                assert(m2 =~= m.insert(p as int, id@));
                lemma_insert_multiset(m, p as int, id@);
                broadcast use vstd::seq_lib::group_to_multiset_ensures;

                assert(parsed_ids(self.bands_view().take(i + 1 as int)).to_multiset()
                    == parsed_ids(self.bands_view().take(i as int)).to_multiset().insert(id@)) by {
                    assert(parsed_ids(self.bands_view().take(i + 1 as int)) =~= parsed_ids(
                        self.bands_view().take(i as int),
                    ).push(id@));
                }
                oldout.insert_ensures(p as int, out@[p as int]);
                assert forall|k: int| 0 <= k < m2.len() implies m2[k] == (if k < p {
                    m[k]
                } else if k == p {
                    id@
                } else {
                    m[k - 1]
                }) by {
                    assert(out@ == oldout.insert(p as int, out@[p as int]));
                    if k < p {
                        assert(out@[k] == oldout[k]);
                    } else if k > p {
                        assert(out@[k] == oldout[k - 1]);
                    }
                    assert(m2[k] == out@[k]@);
                }
                assert forall|k1: int, k2: int|
                    #![trigger m2[k1], m2[k2]]
                    0 <= k1 <= k2 < m2.len() implies !id_lt(m2[k2], m2[k1]) by {
                    crate::bandid::lemma_id_irrefl(id@);
                    if k1 == p as int && k2 > p {
                        // id <= every element at or after the insertion point
                        assert(!id_lt(m[k2 - 1], id@)) by {
                            if id_lt(m[k2 - 1], id@) {
                                if p < m.len() {
                                    assert(id_lt(id@, m[p as int]));
                                    crate::bandid::lemma_id_trans(m[k2 - 1], id@, m[p as int]);
                                }
                            }
                        }
                    } else if k2 == p as int && k1 < p {
                        assert(!id_lt(id@, m[k1]));
                    }
                }
                assert forall|k: int| 0 <= k < out@.len() implies (#[trigger] out@[k])@.len()
                    >= 1 by {
                    if k < p {
                        assert(out@[k] == oldout[k]);
                    } else if k > p {
                        assert(out@[k] == oldout[k - 1]);
                    }
                }
                assert forall|k: int|
                    0 <= k < out@.len() implies parsed_member(self, (#[trigger] out@[k])@) by {
                    if k < p {
                        assert(out@[k] == oldout[k]);
                    } else if k > p {
                        assert(out@[k] == oldout[k - 1]);
                    } else {
                        assert(out@[k] == id);
                        assert(sp_band_name(self.bands_view()[i as int].0) == Some(id@));
                    }
                }
            }
            i = i + 1;
        }
        proof {
            assert(parsed_ids(self.bands_view().take(self.bands_view().len() as int))
                =~= parsed_ids(self.bands_view()));
        }
        Ok(out)
    }

    /// The newest complete band: the closed band with the largest id.
    /// Readers never select an incomplete band implicitly; an archive
    /// whose bands are all open yields `NoCompleteBands`.
    pub fn last_complete_band(&self, report: &mut Report) -> (r: Result<crate::band::Band, Error>)
        requires
            self.wf(),
        ensures
            match r {
                Ok(b) => {
                    &&& b.wf()
                    &&& (self.band_at(crate::bandid::name_of(b.id_view())) matches Some(fs)
                        && fs.tail is Some && crate::band::head_ok(fs))
                    &&& (forall|j: int|
                        0 <= j < self.bands_view().len() ==> match sp_band_name(
                            #[trigger] self.bands_view()[j].0,
                        ) {
                            Some(s) => ((self.band_at(crate::bandid::name_of(s)) matches Some(f2)
                                && f2.tail is Some) ==> !id_lt(b.id_view(), s)),
                            None => false,
                        })
                },
                Err(e) => {
                    &&& (e is NoCompleteBands || e is InvalidBandId || e is FileMissing
                        || e is Json || e is UnsupportedBandVersion)
                    &&& (e is NoCompleteBands ==> forall|j: int|
                        0 <= j < self.bands_view().len() ==> match sp_band_name(
                            #[trigger] self.bands_view()[j].0,
                        ) {
                            Some(s) => (self.band_at(crate::bandid::name_of(s)) matches Some(f2)
                                ==> f2.tail is None),
                            None => false,
                        })
                    &&& (e is InvalidBandId ==> exists|j: int|
                        0 <= j < self.bands_view().len() && sp_band_name(
                            #[trigger] self.bands_view()[j].0,
                        ) is None)
                    &&& ((e is FileMissing || e is Json || e is UnsupportedBandVersion) ==> exists|
                        j: int,
                    |
                        0 <= j < self.bands_view().len() && (sp_band_name(
                            #[trigger] self.bands_view()[j].0,
                        ) matches Some(s) && !(self.band_at(crate::bandid::name_of(s))
                            matches Some(fs) && crate::band::head_ok(fs))))
                },
            },
    {
        let mut best: Option<crate::band::Band> = None;
        let mut i: usize = 0;
        while i < self.bands.len()
            invariant
                i <= self.bands.len(),
                self.wf(),
                self.bands_view().len() == self.bands.len(),
                forall|j: int|
                    0 <= j < i ==> sp_band_name(#[trigger] self.bands_view()[j].0) is Some,
                match best {
                    Some(b) => {
                        &&& b.wf()
                        &&& (self.band_at(crate::bandid::name_of(b.id_view())) matches Some(fs)
                            && fs.tail is Some && crate::band::head_ok(fs))
                        &&& (forall|j: int|
                            0 <= j < i ==> match sp_band_name(#[trigger] self.bands_view()[j].0) {
                                Some(s) => ((self.band_at(crate::bandid::name_of(s))
                                    matches Some(f2) && f2.tail is Some) ==> !id_lt(b.id_view(), s)),
                                None => true,
                            })
                    },
                    None => forall|j: int|
                        0 <= j < i ==> match sp_band_name(#[trigger] self.bands_view()[j].0) {
                            Some(s) => (self.band_at(crate::bandid::name_of(s)) matches Some(f2)
                                ==> f2.tail is None),
                            None => true,
                        },
                },
            decreases self.bands.len() - i,
        {
            let id = match BandId::from_string(&self.bands[i].0) {
                Ok(id) => id,
                Err(e) => {
                    proof {
                        assert(self.bands_view()[i as int].0 == self.bands@[i as int].0@);
                    }
                    return Err(e);
                },
            };
            proof {
                assert(self.bands_view()[i as int].0 == self.bands@[i as int].0@);
            }
            let band = match crate::band::Band::open(self, &id) {
                Ok(b) => b,
                Err(e) => {
                    proof {
                        assert(exists|j: int|
                            0 <= j < self.bands_view().len() && (sp_band_name(
                                #[trigger] self.bands_view()[j].0,
                            ) matches Some(s) && !(self.band_at(crate::bandid::name_of(s))
                                matches Some(fs) && crate::band::head_ok(fs)))) by {
                            assert(sp_band_name(self.bands_view()[i as int].0) == Some(id@));
                        }
                    }
                    return Err(e);
                },
            };
            let closed = match band.is_closed(self) {
                Ok(c) => c,
                Err(e) => {
                    proof {
                        // Opening proved the band directory exists, so a
                        // missing-band failure here cannot happen.
                        assert(false);
                    }
                    return Err(e);
                },
            };
            let ghost sid = id@;
            if closed {
                let replace = match &best {
                    Some(b) => b.id().is_before(&id),
                    None => true,
                };
                if replace {
                    proof {
                        match best {
                            Some(b) => {
                                let ob = b.id_view();
                                assert forall|j: int|
                                    0 <= j < i + 1 implies match sp_band_name(
                                    #[trigger] self.bands_view()[j].0,
                                ) {
                                    Some(s) => ((self.band_at(crate::bandid::name_of(s))
                                        matches Some(f2) && f2.tail is Some) ==> !id_lt(sid, s)),
                                    None => true,
                                } by {
                                    match sp_band_name(self.bands_view()[j].0) {
                                        Some(s) => {
                                            if j < i && (self.band_at(crate::bandid::name_of(s))
                                                matches Some(f2) && f2.tail is Some) {
                                                if id_lt(sid, s) {
                                                    crate::bandid::lemma_id_total(s, ob);
                                                    if id_lt(s, ob) {
                                                        crate::bandid::lemma_id_trans(sid, s, ob);
                                                        crate::bandid::lemma_id_trans(ob, sid, ob);
                                                        crate::bandid::lemma_id_irrefl(ob);
                                                    } else {
                                                        crate::bandid::lemma_id_trans(ob, sid, s);
                                                        crate::bandid::lemma_id_irrefl(s);
                                                    }
                                                }
                                            }
                                            if j == i {
                                                crate::bandid::lemma_id_irrefl(sid);
                                            }
                                        },
                                        None => {},
                                    }
                                }
                            },
                            None => {
                                assert forall|j: int|
                                    0 <= j < i + 1 implies match sp_band_name(
                                    #[trigger] self.bands_view()[j].0,
                                ) {
                                    Some(s) => ((self.band_at(crate::bandid::name_of(s))
                                        matches Some(f2) && f2.tail is Some) ==> !id_lt(sid, s)),
                                    None => true,
                                } by {
                                    match sp_band_name(self.bands_view()[j].0) {
                                        Some(s) => {
                                            if j == i {
                                                crate::bandid::lemma_id_irrefl(sid);
                                            }
                                        },
                                        None => {},
                                    }
                                }
                            },
                        }
                    }
                    best = Some(band);
                }
            }
            i = i + 1;
        }
        match best {
            Some(b) => {
                proof {
                    assert forall|j: int|
                        0 <= j < self.bands_view().len() implies match sp_band_name(
                        #[trigger] self.bands_view()[j].0,
                    ) {
                        Some(s) => ((self.band_at(crate::bandid::name_of(s)) matches Some(f2)
                            && f2.tail is Some) ==> !id_lt(b.id_view(), s)),
                        None => false,
                    } by {
                    }
                }
                Ok(b)
            },
            None => Err(Error::NoCompleteBands),
        }
    }

    /// Every block hash referenced by any band's index, without
    /// duplicates, in ascending order.
    pub fn referenced_blocks(&self, report: &mut Report) -> (r: Result<Vec<Vec<u8>>, Error>)
        requires
            self.wf(),
        ensures
            match r {
                Ok(v) => {
                    &&& hashes_sorted(v@.map_values(|h: Vec<u8>| h@))
                    &&& (forall|k: int|
                        0 <= k < v@.len() ==> referenced(self, (#[trigger] v@[k])@))
                    &&& (forall|h: Seq<u8>|
                        referenced(self, h) ==> contains_hash(out_hashes(v@), h))
                },
                Err(e) => {
                    &&& (e is InvalidBandId || e is FileMissing || e is Json
                        || e is UnsupportedBandVersion || e is IndexCorrupt)
                    &&& (e is InvalidBandId ==> exists|j: int|
                        0 <= j < self.bands_view().len() && sp_band_name(
                            #[trigger] self.bands_view()[j].0,
                        ) is None)
                    &&& (e is IndexCorrupt ==> exists|j: int|
                        0 <= j < self.bands_view().len() && (sp_band_name(
                            #[trigger] self.bands_view()[j].0,
                        ) matches Some(s) && (self.band_at(crate::bandid::name_of(s))
                            matches Some(fs) && crate::index::hunks_entries(fs.hunks) is None)))
                    &&& ((e is FileMissing || e is Json || e is UnsupportedBandVersion) ==> exists|
                        j: int,
                    |
                        0 <= j < self.bands_view().len() && (sp_band_name(
                            #[trigger] self.bands_view()[j].0,
                        ) matches Some(s) && !(self.band_at(crate::bandid::name_of(s))
                            matches Some(fs) && crate::band::head_ok(fs))))
                },
            },
    {
        let ids = match self.list_bands() {
            Ok(ids) => ids,
            Err(e) => {
                return Err(e);
            },
        };
        let mut out: Vec<Vec<u8>> = Vec::new();
        let mut i: usize = 0;
        while i < ids.len()
            invariant
                i <= ids.len(),
                self.wf(),
                forall|k: int| 0 <= k < ids@.len() ==> (#[trigger] ids@[k])@.len() >= 1,
                forall|k: int|
                    0 <= k < ids@.len() ==> parsed_member(self, (#[trigger] ids@[k])@),
                ids@.map_values(|b: BandId| b@).to_multiset() == parsed_ids(
                    self.bands_view(),
                ).to_multiset(),
                hashes_sorted(out@.map_values(|h: Vec<u8>| h@)),
                forall|k: int| 0 <= k < out@.len() ==> referenced(self, (#[trigger] out@[k])@),
                forall|k: int, h: Seq<u8>|
                    0 <= k < i && #[trigger] band_hash(self, (#[trigger] ids@[k])@, h)
                        ==> contains_hash(out_hashes(out@), h),
            decreases ids.len() - i,
        {
            let band = match crate::band::Band::open(self, &ids[i]) {
                Ok(b) => b,
                Err(e) => {
                    proof {
                        assert(parsed_member(self, (ids@[i as int])@));
                        let j = choose|j: int|
                            0 <= j < self.bands_view().len() && sp_band_name(
                                #[trigger] self.bands_view()[j].0,
                            ) == Some((ids@[i as int])@);
                        assert(exists|j2: int|
                            0 <= j2 < self.bands_view().len() && (sp_band_name(
                                #[trigger] self.bands_view()[j2].0,
                            ) matches Some(s) && !(self.band_at(crate::bandid::name_of(s))
                                matches Some(fs) && crate::band::head_ok(fs))));
                    }
                    return Err(e);
                },
            };
            proof {
                assert(parsed_member(self, (ids@[i as int])@));
            }
            let (entries, bad) = band.iter_entries(self, report);
            match bad {
                Some(e) => {
                    proof {
                        let j = choose|j: int|
                            0 <= j < self.bands_view().len() && sp_band_name(
                                #[trigger] self.bands_view()[j].0,
                            ) == Some((ids@[i as int])@);
                        assert(exists|j2: int|
                            0 <= j2 < self.bands_view().len() && (sp_band_name(
                                #[trigger] self.bands_view()[j2].0,
                            ) matches Some(s) && (self.band_at(crate::bandid::name_of(s))
                                matches Some(fs) && crate::index::hunks_entries(
                                fs.hunks,
                            ) is None)));
                    }
                    return Err(e);
                },
                None => {},
            }
            let ghost es = crate::index::entries_view(entries@);
            let ghost covered = out_hashes(out@);
            let mut x: usize = 0;
            while x < entries.len()
                invariant
                    x <= entries.len(),
                    self.wf(),
                    es == crate::index::entries_view(entries@),
                    es.len() == entries.len(),
                    self.band_at(band.name_view()) matches Some(fs)
                        && crate::index::hunks_entries(fs.hunks) == Some(es),
                    band.wf(),
                    band.name_view() == crate::bandid::name_of(band.id_view()),
                    band.id_view() == (ids@[i as int])@,
                    i < ids@.len(),
                    parsed_member(self, band.id_view()),
                    hashes_sorted(out@.map_values(|h: Vec<u8>| h@)),
                    forall|k: int| 0 <= k < out@.len() ==> referenced(self, (#[trigger] out@[k])@),
                    forall|h: Seq<u8>|
                        contains_hash(covered, h) ==> contains_hash(out_hashes(out@), h),
                    forall|x2: int, y2: int|
                        #![trigger es[x2].addrs[y2]]
                        0 <= x2 < x && 0 <= y2 < es[x2].addrs.len() ==> contains_hash(
                            out_hashes(out@),
                            es[x2].addrs[y2].hash,
                        ),
                decreases entries.len() - x,
            {
                let addrs = &entries[x].addrs;
                let ghost avs = crate::index::addrs_view(addrs@);
                let mut y: usize = 0;
                while y < addrs.len()
                    invariant
                        y <= addrs.len(),
                        self.wf(),
                        x < es.len(),
                        es == crate::index::entries_view(entries@),
                        avs == crate::index::addrs_view(addrs@),
                        avs == es[x as int].addrs,
                        avs.len() == addrs.len(),
                        self.band_at(band.name_view()) matches Some(fs)
                            && crate::index::hunks_entries(fs.hunks) == Some(es),
                        band.wf(),
                        band.name_view() == crate::bandid::name_of(band.id_view()),
                        parsed_member(self, band.id_view()),
                        hashes_sorted(out@.map_values(|h: Vec<u8>| h@)),
                        forall|k: int|
                            0 <= k < out@.len() ==> referenced(self, (#[trigger] out@[k])@),
                        forall|h: Seq<u8>|
                            contains_hash(covered, h) ==> contains_hash(
                                out_hashes(out@),
                                h,
                            ),
                        forall|x2: int, y2: int|
                            #![trigger es[x2].addrs[y2]]
                            0 <= x2 < x && 0 <= y2 < es[x2].addrs.len() ==> contains_hash(
                                out_hashes(out@),
                                es[x2].addrs[y2].hash,
                            ),
                        forall|y2: int|
                            0 <= y2 < y ==> contains_hash(
                                out_hashes(out@),
                                (#[trigger] es[x as int].addrs[y2]).hash,
                            ),
                    decreases addrs.len() - y,
                {
                    proof {
                        assert(avs[y as int].hash == addrs@[y as int]@.hash);
                        assert(referenced(self, avs[y as int].hash)) by {
                            let j = choose|j: int|
                                0 <= j < self.bands_view().len() && sp_band_name(
                                    #[trigger] self.bands_view()[j].0,
                                ) == Some(band.id_view());
                            assert(parsed_member(self, band.id_view()));
                            assert(0 <= x < es.len() && 0 <= y < es[x as int].addrs.len()
                                && es[x as int].addrs[y as int].hash == avs[y as int].hash);
                        }
                    }
                    insert_hash_sorted(&mut out, &addrs[y].hash, Ghost(self));
                    y = y + 1;
                }
                x = x + 1;
            }
            proof {
                // Every hash of this band is now listed.
                assert forall|k: int, h: Seq<u8>|
                    0 <= k < i + 1 && #[trigger] band_hash(self, (#[trigger] ids@[k])@, h)
                        implies contains_hash(out_hashes(out@), h) by {
                    if k < i {
                        assert(contains_hash(covered, h));
                    } else {
                        let (x2, y2) = choose|x2: int, y2: int|
                            #![trigger es[x2].addrs[y2]]
                            0 <= x2 < es.len() && 0 <= y2 < es[x2].addrs.len()
                                && es[x2].addrs[y2].hash == h;
                        assert(contains_hash(out_hashes(out@), es[x2].addrs[y2].hash));
                    }
                }
            }
            i = i + 1;
        }
        proof {
            // Everything referenced anywhere parses to some listed id,
            // whose band was scanned.
            broadcast use vstd::seq_lib::group_to_multiset_ensures;

            assert forall|h: Seq<u8>| referenced(self, h) implies contains_hash(
                out_hashes(out@),
                h,
            ) by {
                let j = choose|j: int|
                    0 <= j < self.bands_view().len() && (match sp_band_name(
                        #[trigger] self.bands_view()[j].0,
                    ) {
                        Some(s) => band_hash(self, s, h),
                        None => false,
                    });
                let s = sp_band_name(self.bands_view()[j].0).unwrap();
                assert(parsed_ids(self.bands_view())[j] == s);
                assert(parsed_ids(self.bands_view()).to_multiset().count(s) > 0);
                assert(ids_views(ids@) == ids@.map_values(|b: BandId| b@));
                assert(ids_views(ids@).to_multiset().count(s) > 0);
                assert(ids_views(ids@).contains(s));
                let k = choose|k: int|
                    0 <= k < ids_views(ids@).len() && #[trigger] ids_views(ids@)[k] == s;
                assert((ids@[k])@ == s);
                assert(band_hash(self, (ids@[k])@, h));
            }
        }
        Ok(out)
    }

    /// Check the stored blocks against their names, accumulating problems
    /// into the report rather than aborting on the first.
    pub fn validate(&self, report: &mut Report) -> (r: Result<(), Error>)
        ensures
            r is Ok,
            final(report).count_of("block.corrupt"@) == (if old(report).count_of("block.corrupt"@)
                + crate::blockdir::corrupt_count(self.blocks_view()) <= u64::MAX {
                (old(report).count_of("block.corrupt"@) + crate::blockdir::corrupt_count(
                    self.blocks_view(),
                )) as u64
            } else {
                u64::MAX
            }),
            forall|n: Seq<char>|
                n != "block.corrupt"@ ==> final(report).count_of(n) == old(report).count_of(n),
    {
        self.block_dir.validate(report)
    }
}

/// Insert a hash into a strictly sorted vector, keeping it sorted and
/// duplicate-free; every element afterwards is either the new hash or was
/// already there, so properties of both carry over.
#[verifier::spinoff_prover]
#[verifier::rlimit(100)]
fn insert_hash_sorted(
    out: &mut Vec<Vec<u8>>,
    h: &Vec<u8>,
    ghost_a: Ghost<&Archive>,
)
    requires
        hashes_sorted(old(out)@.map_values(|x: Vec<u8>| x@)),
        forall|k: int|
            0 <= k < old(out)@.len() ==> referenced(ghost_a@, (#[trigger] old(out)@[k])@),
        referenced(ghost_a@, h@),
    ensures
        hashes_sorted(final(out)@.map_values(|x: Vec<u8>| x@)),
        forall|k: int|
            0 <= k < final(out)@.len() ==> referenced(ghost_a@, (#[trigger] final(out)@[k])@),
        forall|x: Seq<u8>|
            #[trigger] contains_hash(out_hashes(final(out)@), x) <==> (contains_hash(
                out_hashes(old(out)@),
                x,
            ) || x == h@),
{
    let ghost m = out@.map_values(|x: Vec<u8>| x@);
    let mut p: usize = 0;
    while p < out.len() && crate::bytes::lex_less(&out[p], h)
        invariant
            p <= out.len(),
            m == out@.map_values(|x: Vec<u8>| x@),
            forall|a: int| 0 <= a < p ==> crate::bytes::lex_lt((#[trigger] out@[a])@, h@),
        decreases out.len() - p,
    {
        p = p + 1;
    }
    if p < out.len() && crate::bytes::bytes_eq(&out[p], h) {
        proof {
            assert(m[p as int] == out@[p as int]@);
            assert(contains_hash(m, h@));
        }
        return;
    }
    proof {
        if p < out.len() {
            crate::bytes::lemma_lex_total(out@[p as int]@, h@);
        }
    }
    let ghost oldout = out@;
    out.insert(p, crate::bytes::bytes_slice(h, 0, h.len()));
    proof {
        assert(h@.subrange(0, h@.len() as int) =~= h@);
        let m2 = out@.map_values(|x: Vec<u8>| x@);
        oldout.insert_ensures(p as int, out@[p as int]);
        assert forall|k: int| 0 <= k < out@.len() implies #[trigger] out@[k]@ == (if k < p {
            oldout[k]@
        } else if k == p {
            h@
        } else {
            oldout[k - 1]@
        }) by {
            assert(out@ == oldout.insert(p as int, out@[p as int]));
            if k < p {
                assert(out@[k] == oldout[k]);
            } else if k > p {
                assert(out@[k] == oldout[k - 1]);
            }
        }
        assert forall|k1: int, k2: int|
            #![trigger m2[k1], m2[k2]]
            0 <= k1 < k2 < m2.len() implies crate::bytes::lex_lt(m2[k1], m2[k2]) by {
            assert(m2[k1] == out@[k1]@);
            assert(m2[k2] == out@[k2]@);
            if k2 == p as int {
                assert(crate::bytes::lex_lt(oldout[k1]@, h@));
            } else if k1 == p as int {
                // h is below the element it displaced, and transitively
                // below everything after it.
                assert(crate::bytes::lex_lt(h@, oldout[k2 - 1]@)) by {
                    if p < oldout.len() {
                        assert(crate::bytes::lex_lt(h@, oldout[p as int]@));
                        if k2 - 1 > p {
                            assert(crate::bytes::lex_lt(oldout[p as int]@, oldout[k2 - 1]@)) by {
                                assert(m[p as int] == oldout[p as int]@);
                                assert(m[k2 - 1] == oldout[k2 - 1]@);
                            }
                            crate::bytes::lemma_lex_trans(h@, oldout[p as int]@, oldout[k2 - 1]@);
                        }
                    }
                }
            } else if k1 < p && k2 > p {
                assert(crate::bytes::lex_lt(oldout[k1]@, h@));
                assert(crate::bytes::lex_lt(h@, oldout[k2 - 1]@)) by {
                    if p < oldout.len() {
                        assert(crate::bytes::lex_lt(h@, oldout[p as int]@));
                        if k2 - 1 > p {
                            assert(crate::bytes::lex_lt(oldout[p as int]@, oldout[k2 - 1]@)) by {
                                assert(m[p as int] == oldout[p as int]@);
                                assert(m[k2 - 1] == oldout[k2 - 1]@);
                            }
                            crate::bytes::lemma_lex_trans(h@, oldout[p as int]@, oldout[k2 - 1]@);
                        }
                    }
                }
                crate::bytes::lemma_lex_trans(oldout[k1]@, h@, oldout[k2 - 1]@);
            } else {
                assert(m[k1] == oldout[k1]@ || m2[k1] == h@);
                if k1 < p && k2 < p {
                    assert(m[k1] == oldout[k1]@);
                    assert(m[k2] == oldout[k2]@);
                } else if k1 > p && k2 > p {
                    assert(m[k1 - 1] == oldout[k1 - 1]@);
                    assert(m[k2 - 1] == oldout[k2 - 1]@);
                }
            }
        }
        assert forall|k: int|
            0 <= k < out@.len() implies referenced(ghost_a@, (#[trigger] out@[k])@) by {
        }
        let m3 = out@.map_values(|v: Vec<u8>| v@);
        assert forall|x: Seq<u8>|
            #[trigger] contains_hash(m3, x) <==> (contains_hash(m, x) || x == h@) by {
            if contains_hash(m3, x) {
                let k = choose|k: int| 0 <= k < m3.len() && m3[k] == x;
                assert(m3[k] == out@[k]@);
                if k < p {
                    assert(m[k] == oldout[k]@);
                    assert(contains_hash(m, x));
                } else if k > p {
                    assert(m[k - 1] == oldout[k - 1]@);
                    assert(contains_hash(m, x));
                }
            }
            if contains_hash(m, x) {
                let k = choose|k: int| 0 <= k < m.len() && m[k] == x;
                assert(m[k] == oldout[k]@);
                if k < p {
                    assert(m3[k] == oldout[k]@);
                    assert(contains_hash(m3, x));
                } else {
                    assert(m3[k + 1] == oldout[k]@);
                    assert(contains_hash(m3, x));
                }
            }
            if x == h@ {
                assert(m3[p as int] == h@);
                assert(contains_hash(m3, x));
            }
        }
    }
}

} // verus!

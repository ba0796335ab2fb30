//! The backup pipeline: drive a source tree's entries, already in apath
//! order, through the block store and an index builder into a new band.

use vstd::prelude::*;
use crate::apath::{apath_valid, is_descendant};
use crate::archive::Archive;
use crate::band::{Band, head_ok};
use crate::bandid::{name_of, sp_band_name, id_lt};
use crate::blockdir::{all_chunks_present, chunks_of};
use crate::bytes::lex_lt;
use crate::codec::json_safe;
use crate::error::Error;
use crate::excludes::{Excludes, excludes_nothing, glob_match};
use crate::hashing::hash_of;
use crate::index::{
    AddressV, IndexBuilder, IndexEntry, IndexEntryV, Kind, entry_valid, hunks_entries,
};
use crate::report::Report;

verus! {

/// One entry handed in by the live-tree walker: kind, path, times, file
/// content and symlink target where relevant.
#[derive(Debug)]
pub struct LiveEntry {
    /// Canonical path of the entry within the source tree.
    pub apath: Vec<u8>,
    /// What sort of entry this is.
    pub kind: Kind,
    /// Modification time, seconds since the Unix epoch.
    pub mtime: i64,
    /// Full body content; empty unless this is a file.
    pub content: Vec<u8>,
    /// Where a symlink points; present exactly for symlinks.
    pub target: Option<Vec<u8>>,
}

/// Mathematical shadow of `LiveEntry`.
pub ghost struct LiveEntryV {
    pub apath: Seq<u8>,
    pub kind: Kind,
    pub mtime: i64,
    pub content: Seq<u8>,
    pub target: Option<Seq<u8>>,
}

impl View for LiveEntry {
    type V = LiveEntryV;

    open spec fn view(&self) -> LiveEntryV {
        LiveEntryV {
            apath: self.apath@,
            kind: self.kind,
            mtime: self.mtime,
            content: self.content@,
            target: match self.target {
                Some(ref t) => Some(t@),
                None => None,
            },
        }
    }
}

/// Views of a sequence of live entries.
pub open spec fn live_view(v: Seq<LiveEntry>) -> Seq<LiveEntryV> {
    v.map_values(|e: LiveEntry| e@)
}

/// A walker entry the pipeline accepts: a valid apath, a target exactly
/// on symlinks, content only on files.
pub open spec fn live_valid(e: LiveEntryV) -> bool {
    &&& apath_valid(e.apath)
    &&& match e.target {
        Some(t) => json_safe(t) && e.kind is Symlink,
        None => !(e.kind is Symlink),
    }
    &&& (!(e.kind is File) ==> e.content.len() == 0)
}

/// The addresses a file body is stored under: one per chunk, in order.
pub open spec fn chunk_addrs(s: Seq<u8>) -> Seq<AddressV> {
    Seq::new(
        chunks_of(s).len(),
        |i: int|
            AddressV {
                hash: hash_of(chunks_of(s)[i]),
                start: 0,
                len: chunks_of(s)[i].len() as u64,
            },
    )
}

/// The index record a live entry becomes.
pub open spec fn entry_of(e: LiveEntryV) -> IndexEntryV {
    match e.kind {
        Kind::File => IndexEntryV {
            apath: e.apath,
            mtime: e.mtime,
            kind: Kind::File,
            addrs: chunk_addrs(e.content),
            blake2b: Some(hash_of(e.content)),
            target: None,
        },
        Kind::Symlink => IndexEntryV {
            apath: e.apath,
            mtime: e.mtime,
            kind: Kind::Symlink,
            addrs: Seq::empty(),
            blake2b: None,
            target: e.target,
        },
        _ => IndexEntryV {
            apath: e.apath,
            mtime: e.mtime,
            kind: e.kind,
            addrs: Seq::empty(),
            blake2b: None,
            target: None,
        },
    }
}

/// One pipeline step: entries below an excluded directory are suppressed;
/// entries matching a pattern are dropped, a dropped directory is
/// remembered; unsupported kinds are skipped; the rest become index
/// records.
pub open spec fn bstep(
    pats: Seq<Seq<u8>>,
    st: (Seq<IndexEntryV>, Seq<Seq<u8>>),
    e: LiveEntryV,
) -> (Seq<IndexEntryV>, Seq<Seq<u8>>) {
    if exists|j: int| 0 <= j < st.1.len() && is_descendant(#[trigger] st.1[j], e.apath) {
        st
    } else if glob_match(pats, e.apath) {
        if e.kind is Dir {
            (st.0, st.1.push(e.apath))
        } else {
            st
        }
    } else if e.kind is Unknown {
        st
    } else {
        (st.0.push(entry_of(e)), st.1)
    }
}

/// What a whole backup run records: the folded pipeline steps.
pub open spec fn bfilt(pats: Seq<Seq<u8>>, s: Seq<LiveEntryV>) -> (Seq<IndexEntryV>, Seq<Seq<u8>>)
    decreases s.len(),
{
    if s.len() == 0 {
        (Seq::empty(), Seq::empty())
    } else {
        bstep(pats, bfilt(pats, s.drop_last()), s.last())
    }
}

/// One pipeline step stores this entry's blocks: a file, not matching a
/// pattern, and not below an already-excluded directory.
pub open spec fn step_keeps_file(pats: Seq<Seq<u8>>, xd: Seq<Seq<u8>>, e: LiveEntryV) -> bool {
    &&& e.kind is File
    &&& !glob_match(pats, e.apath)
    &&& !(exists|j: int| 0 <= j < xd.len() && is_descendant(#[trigger] xd[j], e.apath))
}

/// The i-th source entry is a file the pipeline keeps.
pub open spec fn kept_file_at(pats: Seq<Seq<u8>>, s: Seq<LiveEntryV>, i: int) -> bool {
    0 <= i < s.len() && step_keeps_file(pats, bfilt(pats, s.take(i)).1, s[i])
}

/// The block store after a whole run: each kept file's chunks are folded
/// in, in source order; nothing else moves.
pub open spec fn backup_blocks(
    bd: Seq<(Seq<u8>, Seq<u8>)>,
    pats: Seq<Seq<u8>>,
    s: Seq<LiveEntryV>,
) -> Seq<(Seq<u8>, Seq<u8>)>
    decreases s.len(),
{
    if s.len() == 0 {
        bd
    } else {
        let mid = backup_blocks(bd, pats, s.drop_last());
        if kept_file_at(pats, s, s.len() - 1) {
            crate::blockdir::store_blocks(mid, chunks_of(s.last().content))
        } else {
            mid
        }
    }
}

/// How many blocks a whole run writes.
pub open spec fn backup_writes(
    bd: Seq<(Seq<u8>, Seq<u8>)>,
    pats: Seq<Seq<u8>>,
    s: Seq<LiveEntryV>,
) -> int
    decreases s.len(),
{
    if s.len() == 0 {
        0
    } else {
        backup_writes(bd, pats, s.drop_last()) + (if kept_file_at(pats, s, s.len() - 1) {
            crate::blockdir::store_writes(
                backup_blocks(bd, pats, s.drop_last()),
                chunks_of(s.last().content),
            )
        } else {
            0int
        })
    }
}

/// A run never un-writes a block.
pub proof fn lemma_backup_writes_nonneg(
    bd: Seq<(Seq<u8>, Seq<u8>)>,
    pats: Seq<Seq<u8>>,
    s: Seq<LiveEntryV>,
)
    ensures
        backup_writes(bd, pats, s) >= 0,
    decreases s.len(),
{
    if s.len() > 0 {
        lemma_backup_writes_nonneg(bd, pats, s.drop_last());
        if kept_file_at(pats, s, s.len() - 1) {
            crate::blockdir::lemma_store_writes_nonneg(
                backup_blocks(bd, pats, s.drop_last()),
                chunks_of(s.last().content),
            );
        }
    }
}

/// Every block whose lookup changed over a run came from a chunk of a
/// kept file, and now holds exactly that chunk.
pub open spec fn blocks_from_kept(
    old_bd: Seq<(Seq<u8>, Seq<u8>)>,
    new_bd: Seq<(Seq<u8>, Seq<u8>)>,
    pats: Seq<Seq<u8>>,
    s: Seq<LiveEntryV>,
) -> bool {
    forall|h: Seq<u8>|
        crate::blockdir::bd_lookup(new_bd, h) != crate::blockdir::bd_lookup(old_bd, h)
            ==> exists|i: int, k: int|
            #![trigger chunks_of(s[i].content)[k]]
            kept_file_at(pats, s, i) && 0 <= k < chunks_of(s[i].content).len() && h == hash_of(
                chunks_of(s[i].content)[k],
            ) && crate::blockdir::bd_lookup(new_bd, h) == Some(chunks_of(s[i].content)[k])
}

/// The run's fold changes only blocks that come from kept files' chunks,
/// and keeps every block that was already there.
pub proof fn lemma_backup_blocks_kept(
    bd: Seq<(Seq<u8>, Seq<u8>)>,
    pats: Seq<Seq<u8>>,
    s: Seq<LiveEntryV>,
)
    ensures
        blocks_from_kept(bd, backup_blocks(bd, pats, s), pats, s),
        forall|h: Seq<u8>|
            crate::blockdir::bd_lookup(bd, h) is Some ==> crate::blockdir::bd_lookup(
                backup_blocks(bd, pats, s),
                h,
            ) == crate::blockdir::bd_lookup(bd, h),
    decreases s.len(),
{
    if s.len() > 0 {
        lemma_backup_blocks_kept(bd, pats, s.drop_last());
        let mid = backup_blocks(bd, pats, s.drop_last());
        let new_bd = backup_blocks(bd, pats, s);
        assert forall|i: int|
            kept_file_at(pats, s.drop_last(), i) implies kept_file_at(pats, s, i) by {
            assert(s.drop_last().take(i) =~= s.take(i));
            assert(s.drop_last()[i] == s[i]);
        }
        if kept_file_at(pats, s, s.len() - 1) {
            let cs = chunks_of(s.last().content);
            assert forall|h: Seq<u8>|
                crate::blockdir::bd_lookup(new_bd, h) != crate::blockdir::bd_lookup(
                    bd,
                    h,
                ) implies exists|i: int, k: int|
                #![trigger chunks_of(s[i].content)[k]]
                kept_file_at(pats, s, i) && 0 <= k < chunks_of(s[i].content).len() && h == hash_of(
                    chunks_of(s[i].content)[k],
                ) && crate::blockdir::bd_lookup(new_bd, h) == Some(
                    chunks_of(s[i].content)[k],
                ) by {
                crate::blockdir::lemma_store_blocks_lookup(mid, cs, h);
                if crate::blockdir::bd_lookup(new_bd, h) != crate::blockdir::bd_lookup(mid, h) {
                    let k = choose|k: int|
                        0 <= k < cs.len() && h == hash_of(#[trigger] cs[k])
                            && crate::blockdir::bd_lookup(new_bd, h) == Some(cs[k]);
                    assert(s[s.len() - 1] == s.last());
                    assert(chunks_of(s[s.len() - 1].content)[k] == cs[k]);
                } else {
                    let (i, k) = choose|i: int, k: int|
                        #![trigger chunks_of(s.drop_last()[i].content)[k]]
                        kept_file_at(pats, s.drop_last(), i) && 0 <= k < chunks_of(
                            s.drop_last()[i].content,
                        ).len() && h == hash_of(chunks_of(s.drop_last()[i].content)[k])
                            && crate::blockdir::bd_lookup(mid, h) == Some(
                            chunks_of(s.drop_last()[i].content)[k],
                        );
                    assert(s.drop_last()[i] == s[i]);
                    assert(chunks_of(s[i].content)[k] == chunks_of(s.drop_last()[i].content)[k]);
                }
            }
            assert forall|h: Seq<u8>|
                crate::blockdir::bd_lookup(bd, h) is Some implies crate::blockdir::bd_lookup(
                new_bd,
                h,
            ) == crate::blockdir::bd_lookup(bd, h) by {
                crate::blockdir::lemma_store_blocks_lookup(mid, cs, h);
            }
        } else {
            assert forall|h: Seq<u8>|
                crate::blockdir::bd_lookup(new_bd, h) != crate::blockdir::bd_lookup(
                    bd,
                    h,
                ) implies exists|i: int, k: int|
                #![trigger chunks_of(s[i].content)[k]]
                kept_file_at(pats, s, i) && 0 <= k < chunks_of(s[i].content).len() && h == hash_of(
                    chunks_of(s[i].content)[k],
                ) && crate::blockdir::bd_lookup(new_bd, h) == Some(
                    chunks_of(s[i].content)[k],
                ) by {
                let (i, k) = choose|i: int, k: int|
                    #![trigger chunks_of(s.drop_last()[i].content)[k]]
                    kept_file_at(pats, s.drop_last(), i) && 0 <= k < chunks_of(
                        s.drop_last()[i].content,
                    ).len() && h == hash_of(chunks_of(s.drop_last()[i].content)[k])
                        && crate::blockdir::bd_lookup(mid, h) == Some(
                        chunks_of(s.drop_last()[i].content)[k],
                    );
                assert(s.drop_last()[i] == s[i]);
                assert(chunks_of(s[i].content)[k] == chunks_of(s.drop_last()[i].content)[k]);
            }
        }
    }
}

/// If every source file's chunks are already stored, the run stores
/// nothing new.
pub proof fn lemma_backup_blocks_all_present(
    bd: Seq<(Seq<u8>, Seq<u8>)>,
    pats: Seq<Seq<u8>>,
    s: Seq<LiveEntryV>,
)
    requires
        sources_present(bd, s),
    ensures
        backup_blocks(bd, pats, s) == bd,
        backup_writes(bd, pats, s) == 0,
    decreases s.len(),
{
    if s.len() > 0 {
        assert forall|i: int|
            0 <= i < s.drop_last().len() implies ((#[trigger] s.drop_last()[i]).kind is File
            ==> all_chunks_present(bd, s.drop_last()[i].content)) by {
            assert(s.drop_last()[i] == s[i]);
        }
        lemma_backup_blocks_all_present(bd, pats, s.drop_last());
        if kept_file_at(pats, s, s.len() - 1) {
            assert(s[s.len() - 1] == s.last());
            assert(all_chunks_present(bd, s.last().content));
            crate::blockdir::lemma_store_blocks_all_present(bd, chunks_of(s.last().content));
        }
    }
}

/// A counter value after adding `k`, saturating at the maximum.
pub open spec fn sat_add(a: u64, k: int) -> u64 {
    if a + k > u64::MAX {
        u64::MAX
    } else {
        (a + k) as u64
    }
}

/// Which counter one pipeline step bumps, if any: mirrors `bstep`.
pub open spec fn step_counter(pats: Seq<Seq<u8>>, xd: Seq<Seq<u8>>, e: LiveEntryV) -> Option<
    Seq<char>,
> {
    if exists|j: int| 0 <= j < xd.len() && is_descendant(#[trigger] xd[j], e.apath) {
        None
    } else if glob_match(pats, e.apath) {
        if e.kind is Dir {
            Some("skipped.excluded.directories"@)
        } else {
            Some("skipped.excluded.files"@)
        }
    } else {
        match e.kind {
            Kind::Dir => Some("dir"@),
            Kind::File => Some("file"@),
            Kind::Symlink => Some("symlink"@),
            Kind::Unknown => Some("skipped.unsupported_file_kind"@),
        }
    }
}

/// How often a whole run bumps one counter.
pub open spec fn pipeline_count(pats: Seq<Seq<u8>>, s: Seq<LiveEntryV>, name: Seq<char>) -> int
    decreases s.len(),
{
    if s.len() == 0 {
        0
    } else {
        pipeline_count(pats, s.drop_last(), name) + (if step_counter(
            pats,
            bfilt(pats, s.drop_last()).1,
            s.last(),
        ) == Some(name) {
            1int
        } else {
            0int
        })
    }
}

/// A run never decrements a counter.
pub proof fn lemma_pipeline_count_nonneg(pats: Seq<Seq<u8>>, s: Seq<LiveEntryV>, name: Seq<char>)
    ensures
        pipeline_count(pats, s, name) >= 0,
    decreases s.len(),
{
    if s.len() > 0 {
        lemma_pipeline_count_nonneg(pats, s.drop_last(), name);
    }
}

/// Which counter an entry bumps when nothing is excluded.
pub open spec fn plain_step_counter(e: LiveEntryV) -> Seq<char> {
    match e.kind {
        Kind::Dir => "dir"@,
        Kind::File => "file"@,
        Kind::Symlink => "symlink"@,
        Kind::Unknown => "skipped.unsupported_file_kind"@,
    }
}

/// How often a run with no exclusions bumps one counter.
pub open spec fn plain_count(s: Seq<LiveEntryV>, name: Seq<char>) -> int
    decreases s.len(),
{
    if s.len() == 0 {
        0
    } else {
        plain_count(s.drop_last(), name) + (if plain_step_counter(s.last()) == name {
            1int
        } else {
            0int
        })
    }
}

/// With a pattern set that matches nothing, the pipeline counts exactly
/// the entries of each kind.
pub proof fn lemma_pipeline_count_nothing(pats: Seq<Seq<u8>>, s: Seq<LiveEntryV>, name: Seq<char>)
    requires
        forall|q: Seq<u8>| !glob_match(pats, q),
    ensures
        pipeline_count(pats, s, name) == plain_count(s, name),
    decreases s.len(),
{
    if s.len() > 0 {
        lemma_pipeline_count_nothing(pats, s.drop_last(), name);
        lemma_bfilt_nothing(pats, s.drop_last());
    }
}

/// The block store after a run with no exclusions: every file's chunks
/// folded in, in source order.
pub open spec fn plain_blocks(bd: Seq<(Seq<u8>, Seq<u8>)>, s: Seq<LiveEntryV>) -> Seq<
    (Seq<u8>, Seq<u8>),
>
    decreases s.len(),
{
    if s.len() == 0 {
        bd
    } else {
        let mid = plain_blocks(bd, s.drop_last());
        if s.last().kind is File {
            crate::blockdir::store_blocks(mid, chunks_of(s.last().content))
        } else {
            mid
        }
    }
}

/// How many blocks a run with no exclusions writes.
pub open spec fn plain_writes(bd: Seq<(Seq<u8>, Seq<u8>)>, s: Seq<LiveEntryV>) -> int
    decreases s.len(),
{
    if s.len() == 0 {
        0
    } else {
        plain_writes(bd, s.drop_last()) + (if s.last().kind is File {
            crate::blockdir::store_writes(
                plain_blocks(bd, s.drop_last()),
                chunks_of(s.last().content),
            )
        } else {
            0int
        })
    }
}

/// After one run with no exclusions, every source file's chunks are
/// stored.
pub proof fn lemma_plain_blocks_present(bd: Seq<(Seq<u8>, Seq<u8>)>, s: Seq<LiveEntryV>)
    ensures
        sources_present(plain_blocks(bd, s), s),
    decreases s.len(),
{
    if s.len() > 0 {
        lemma_plain_blocks_present(bd, s.drop_last());
        let mid = plain_blocks(bd, s.drop_last());
        let new_bd = plain_blocks(bd, s);
        assert forall|i: int|
            0 <= i < s.len() implies ((#[trigger] s[i]).kind is File ==> all_chunks_present(
            new_bd,
            s[i].content,
        )) by {
            if s[i].kind is File {
                if i < s.len() - 1 {
                    assert(s.drop_last()[i] == s[i]);
                    assert(all_chunks_present(mid, s[i].content));
                    assert forall|k: int|
                        0 <= k < chunks_of(s[i].content).len() implies crate::blockdir::bd_lookup(
                        new_bd,
                        hash_of(#[trigger] chunks_of(s[i].content)[k]),
                    ) is Some by {
                        if s.last().kind is File {
                            crate::blockdir::lemma_store_blocks_lookup(
                                mid,
                                chunks_of(s.last().content),
                                hash_of(chunks_of(s[i].content)[k]),
                            );
                        }
                    }
                } else {
                    assert(s[i] == s.last());
                    crate::blockdir::lemma_store_blocks_present(mid, chunks_of(s.last().content));
                }
            }
        }
    }
}

/// Backing up the same unexcluded source twice deduplicates fully: the
/// first run stores every file's chunks, so the second run's fold leaves
/// the block store untouched and writes nothing.
pub proof fn lemma_second_run_stores_nothing(bd: Seq<(Seq<u8>, Seq<u8>)>, s: Seq<LiveEntryV>)
    ensures
        sources_present(plain_blocks(bd, s), s),
        plain_blocks(plain_blocks(bd, s), s) == plain_blocks(bd, s),
        plain_writes(plain_blocks(bd, s), s) == 0,
{
    lemma_plain_blocks_present(bd, s);
    lemma_plain_blocks_all_present(plain_blocks(bd, s), s);
}

/// If every source file's chunks are already stored, the plain fold
/// changes nothing.
pub proof fn lemma_plain_blocks_all_present(bd: Seq<(Seq<u8>, Seq<u8>)>, s: Seq<LiveEntryV>)
    requires
        sources_present(bd, s),
    ensures
        plain_blocks(bd, s) == bd,
        plain_writes(bd, s) == 0,
    decreases s.len(),
{
    if s.len() > 0 {
        assert forall|i: int|
            0 <= i < s.drop_last().len() implies ((#[trigger] s.drop_last()[i]).kind is File
            ==> all_chunks_present(bd, s.drop_last()[i].content)) by {
            assert(s.drop_last()[i] == s[i]);
        }
        lemma_plain_blocks_all_present(bd, s.drop_last());
        if s.last().kind is File {
            assert(s[s.len() - 1] == s.last());
            assert(all_chunks_present(bd, s.last().content));
            crate::blockdir::lemma_store_blocks_all_present(bd, chunks_of(s.last().content));
        }
    }
}

/// With a pattern set that matches nothing, every file is kept and the
/// run's block fold is the plain one.
pub proof fn lemma_backup_blocks_nothing(
    bd: Seq<(Seq<u8>, Seq<u8>)>,
    pats: Seq<Seq<u8>>,
    s: Seq<LiveEntryV>,
)
    requires
        forall|q: Seq<u8>| !glob_match(pats, q),
    ensures
        backup_blocks(bd, pats, s) == plain_blocks(bd, s),
        backup_writes(bd, pats, s) == plain_writes(bd, s),
    decreases s.len(),
{
    if s.len() > 0 {
        lemma_backup_blocks_nothing(bd, pats, s.drop_last());
        lemma_bfilt_nothing(pats, s.take(s.len() - 1));
        assert(s.take(s.len() - 1) =~= s.drop_last());
        assert(s[s.len() - 1] == s.last());
    }
}

/// The counters the pipeline owns.
pub open spec fn pipeline_counter_name(n: Seq<char>) -> bool {
    ||| n == "file"@
    ||| n == "dir"@
    ||| n == "symlink"@
    ||| n == "skipped.unsupported_file_kind"@
    ||| n == "skipped.excluded.files"@
    ||| n == "skipped.excluded.directories"@
}

/// Every chunk of every file in the source is already stored.
pub open spec fn sources_present(bd: Seq<(Seq<u8>, Seq<u8>)>, s: Seq<LiveEntryV>) -> bool {
    forall|i: int|
        0 <= i < s.len() ==> ((#[trigger] s[i]).kind is File ==> all_chunks_present(
            bd,
            s[i].content,
        ))
}

/// Every address of every kept entry names a stored block.
pub open spec fn kept_addrs_present(bd: Seq<(Seq<u8>, Seq<u8>)>, kept: Seq<IndexEntryV>) -> bool {
    forall|x: int, y: int|
        #![trigger kept[x].addrs[y]]
        0 <= x < kept.len() && 0 <= y < kept[x].addrs.len()
            ==> crate::blockdir::bd_lookup(bd, kept[x].addrs[y].hash) is Some
}

/// What a backup with no exclusions records: every entry except the
/// unsupported kinds, in order.
pub open spec fn plain_entries(s: Seq<LiveEntryV>) -> Seq<IndexEntryV>
    decreases s.len(),
{
    if s.len() == 0 {
        Seq::empty()
    } else {
        let p = plain_entries(s.drop_last());
        if s.last().kind is Unknown {
            p
        } else {
            p.push(entry_of(s.last()))
        }
    }
}

/// With a pattern set that matches nothing, the pipeline keeps exactly
/// the supported entries.
pub proof fn lemma_bfilt_nothing(pats: Seq<Seq<u8>>, s: Seq<LiveEntryV>)
    requires
        forall|q: Seq<u8>| !glob_match(pats, q),
    ensures
        bfilt(pats, s).0 == plain_entries(s),
        bfilt(pats, s).1 == Seq::<Seq<u8>>::empty(),
    decreases s.len(),
{
    if s.len() == 0 {
        assert(bfilt(pats, s).0 =~= plain_entries(s));
        assert(bfilt(pats, s).1 =~= Seq::<Seq<u8>>::empty());
    } else {
        lemma_bfilt_nothing(pats, s.drop_last());
    }
}

/// Options for a backup run: which entries to exclude.
#[derive(Debug)]
pub struct BackupOptions {
    excludes: Excludes,
}

impl BackupOptions {
    /// The exclusion patterns in force.
    pub closed spec fn pats_view(&self) -> Seq<Seq<u8>> {
        self.excludes.pats_view()
    }

    /// Exclude nothing.
    pub fn default() -> (r: BackupOptions)
        ensures
            r.pats_view() == Seq::<Seq<u8>>::empty(),
            forall|p: Seq<u8>| !glob_match(r.pats_view(), p),
    {
        BackupOptions { excludes: excludes_nothing() }
    }

    /// Exclude entries matching the given patterns.
    pub fn with_excludes(self, excludes: Excludes) -> (r: BackupOptions)
        ensures
            r.pats_view() == excludes.pats_view(),
    {
        BackupOptions { excludes }
    }
}

/// Accepts files to write in the archive, in apath order.
#[derive(Debug)]
pub struct BackupWriter {
    band: Band,
    index_builder: IndexBuilder,
    excluded_dirs: Vec<Vec<u8>>,
}

/// Make a new backup from a source tree's entries into a new band of
/// this archive. The walker must hand entries in strictly increasing
/// apath order. On success the archive has exactly one new band, closed,
/// whose index records exactly the entries the pipeline kept; stored
/// blocks are only ever added, and a source whose file chunks are all
/// already stored adds none.
pub fn make_backup(
    source: &Vec<LiveEntry>,
    archive: &mut Archive,
    options: &BackupOptions,
    report: &mut Report,
) -> (r: Result<(), Error>)
    requires
        old(archive).wf(),
        forall|i: int| 0 <= i < source@.len() ==> live_valid(#[trigger] live_view(source@)[i]),
        forall|i: int, j: int|
            #![trigger live_view(source@)[i], live_view(source@)[j]]
            0 <= i < j < source@.len() ==> lex_lt(
                live_view(source@)[i].apath,
                live_view(source@)[j].apath,
            ),
    ensures
        final(archive).wf(),
        final(archive).header_view() == old(archive).header_view(),
        final(archive).path_view() == old(archive).path_view(),
        forall|h: Seq<u8>|
            crate::blockdir::bd_lookup(old(archive).blocks_view(), h) is Some
                ==> crate::blockdir::bd_lookup(final(archive).blocks_view(), h)
                == crate::blockdir::bd_lookup(old(archive).blocks_view(), h),
        match r {
            Ok(()) => {
                &&& final(archive).bands_view().len() == old(archive).bands_view().len() + 1
                &&& final(archive).bands_view().take(old(archive).bands_view().len() as int) == old(archive).bands_view()
                &&& {
                    let nb = final(archive).bands_view().last();
                    &&& sp_band_name(nb.0) is Some
                    &&& nb.1.tail is Some
                    &&& head_ok(nb.1)
                    &&& hunks_entries(nb.1.hunks) == Some(
                        bfilt(options.pats_view(), live_view(source@)).0,
                    )
                }
                &&& final(archive).blocks_view() == backup_blocks(
                    old(archive).blocks_view(),
                    options.pats_view(),
                    live_view(source@),
                )
                &&& final(report).count_of("block.write"@) == sat_add(
                    old(report).count_of("block.write"@),
                    backup_writes(
                        old(archive).blocks_view(),
                        options.pats_view(),
                        live_view(source@),
                    ),
                )
                &&& (sources_present(old(archive).blocks_view(), live_view(source@)) ==> final(archive).blocks_view() == old(archive).blocks_view() && final(report).count_of(
                    "block.write"@,
                ) == old(report).count_of("block.write"@))
                &&& kept_addrs_present(
                    final(archive).blocks_view(),
                    bfilt(options.pats_view(), live_view(source@)).0,
                )
                &&& blocks_from_kept(
                    old(archive).blocks_view(),
                    final(archive).blocks_view(),
                    options.pats_view(),
                    live_view(source@),
                )
                &&& (forall|name: Seq<char>|
                    #[trigger] pipeline_counter_name(name) ==> final(report).count_of(name)
                        == sat_add(
                        old(report).count_of(name),
                        pipeline_count(options.pats_view(), live_view(source@), name),
                    ))
                &&& (forall|n: Seq<char>|
                    !pipeline_counter_name(n) && n != "block.write"@ ==> final(report).count_of(n)
                        == old(report).count_of(n))
            },
            Err(e) => {
                &&& *final(archive) == *old(archive)
                &&& *final(report) == *old(report)
                &&& ((e is InvalidBandId && exists|j: int|
                    0 <= j < old(archive).bands_view().len() && sp_band_name(
                        #[trigger] old(archive).bands_view()[j].0,
                    ) is None) || (e is CreateBand && exists|m: Seq<u32>|
                    #[trigger] crate::archive::is_max_id(old(archive), m) && m.len() >= 1
                        && m.last() == u32::MAX))
            },
        },
{
    let mut writer = match BackupWriter::begin(archive) {
        Ok(w) => w,
        Err(e) => {
            return Err(e);
        },
    };
    let ghost svs = live_view(source@);
    let ghost bname = writer.band.name_view();
    let ghost pats = options.pats_view();
    let ghost ar1 = *archive;
    proof {
        assert(svs.take(0) =~= Seq::<LiveEntryV>::empty());
        assert(writer.excluded_dirs@.map_values(|p: Vec<u8>| p@) =~= Seq::<Seq<u8>>::empty());
        assert(kept_addrs_present(archive.blocks_view(), bfilt(pats, svs.take(0)).0));
        assert(backup_blocks(ar1.blocks_view(), pats, svs.take(0)) == ar1.blocks_view());
        assert(backup_writes(ar1.blocks_view(), pats, svs.take(0)) == 0);
        assert(forall|name: Seq<char>|
            pipeline_count(pats, svs.take(0), name) == 0 && sat_add(
                old(report).count_of(name),
                0,
            ) == old(report).count_of(name));
    }
    let mut i: usize = 0;
    while i < source.len()
        invariant
            i <= source.len(),
            svs == live_view(source@),
            svs.len() == source.len(),
            pats == options.pats_view(),
            forall|k: int| 0 <= k < svs.len() ==> live_valid(#[trigger] svs[k]),
            forall|k: int, j: int|
                #![trigger svs[k], svs[j]]
                0 <= k < j < svs.len() ==> lex_lt(svs[k].apath, svs[j].apath),
            archive.wf(),
            bname == writer.band.name_view(),
            writer.band.wf(),
            writer.index_builder.band_name_view() == bname,
            !writer.index_builder.is_done(),
            writer.index_builder.buf_valid(),
            writer.index_builder.pending(archive) == Some(bfilt(pats, svs.take(i as int)).0),
            writer.excluded_dirs@.map_values(|p: Vec<u8>| p@) == bfilt(pats, svs.take(i as int)).1,
            match writer.index_builder.last_view() {
                None => true,
                Some(la) => exists|j: int| 0 <= j < i && la == (#[trigger] svs[j]).apath,
            },
            archive.band_at(bname) matches Some(fs) && fs.tail is None && head_ok(fs)
                && fs.extra_files.len() == 0 && fs.extra_dirs.len() == 0,
            archive.bands_view().len() == ar1.bands_view().len(),
            archive.bands_view().take(archive.bands_view().len() - 1) == ar1.bands_view().take(
                ar1.bands_view().len() - 1,
            ),
            archive.bands_view().last().0 == bname,
            forall|n: Seq<u8>| n != bname ==> archive.band_at(n) == ar1.band_at(n),
            archive.header_view() == ar1.header_view(),
            archive.path_view() == ar1.path_view(),
            ar1.wf(),
            ar1.header_view() == old(archive).header_view(),
            ar1.path_view() == old(archive).path_view(),
            ar1.blocks_view() == old(archive).blocks_view(),
            ar1.bands_view().len() == old(archive).bands_view().len() + 1,
            ar1.bands_view().take(old(archive).bands_view().len() as int) == old(archive).bands_view(),
            sp_band_name(bname) is Some,
            forall|h: Seq<u8>|
                crate::blockdir::bd_lookup(ar1.blocks_view(), h) is Some
                    ==> crate::blockdir::bd_lookup(archive.blocks_view(), h)
                    == crate::blockdir::bd_lookup(ar1.blocks_view(), h),
            kept_addrs_present(archive.blocks_view(), bfilt(pats, svs.take(i as int)).0),
            archive.blocks_view() == backup_blocks(ar1.blocks_view(), pats, svs.take(i as int)),
            report.count_of("block.write"@) == sat_add(
                old(report).count_of("block.write"@),
                backup_writes(ar1.blocks_view(), pats, svs.take(i as int)),
            ),
            forall|name: Seq<char>|
                #[trigger] pipeline_counter_name(name) ==> report.count_of(name) == sat_add(
                    old(report).count_of(name),
                    pipeline_count(pats, svs.take(i as int), name),
                ),
            forall|n: Seq<char>|
                !pipeline_counter_name(n) && n != "block.write"@ ==> report.count_of(n) == old(report).count_of(n),
        decreases source.len() - i,
    {
        proof {
            assert(svs.take(i + 1 as int).drop_last() =~= svs.take(i as int));
            assert(svs.take(i + 1 as int).last() == svs[i as int]);
            assert(svs[i as int] == source@[i as int]@);
        }
        let ghost pre = *archive;
        let ghost wxd = writer.excluded_dirs@;
        match writer.store(archive, options, report, &source[i]) {
            Ok(()) => {},
            Err(e) => {
                proof {
                    lemma_blocks_chain(old(archive).blocks_view(), ar1.blocks_view(), pre.blocks_view(), archive.blocks_view());
                }
                return Err(e);
            },
        }
        proof {
            reveal_strlit("file");
            reveal_strlit("dir");
            reveal_strlit("symlink");
            reveal_strlit("skipped.unsupported_file_kind");
            reveal_strlit("skipped.excluded.files");
            reveal_strlit("skipped.excluded.directories");
            reveal_strlit("block.write");
            assert("file"@.len() == 4);
            assert("dir"@.len() == 3);
            assert("symlink"@.len() == 7);
            assert("skipped.unsupported_file_kind"@.len() == 29);
            assert("skipped.excluded.files"@.len() == 22);
            assert("skipped.excluded.directories"@.len() == 28);
            assert("block.write"@.len() == 11);
            let xdv = wxd.map_values(|p: Vec<u8>| p@);
            assert(xdv == bfilt(pats, svs.take(i as int)).1);
            assert forall|name: Seq<char>|
                #[trigger] pipeline_counter_name(name) implies report.count_of(name) == sat_add(
                old(report).count_of(name),
                pipeline_count(pats, svs.take(i + 1 as int), name),
            ) by {
                lemma_pipeline_count_nonneg(pats, svs.take(i as int), name);
                assert(svs.take(i + 1 as int).drop_last() =~= svs.take(i as int));
            }
            lemma_blocks_chain(old(archive).blocks_view(), ar1.blocks_view(), pre.blocks_view(), archive.blocks_view());
            assert(svs.take(i as int).push(svs[i as int]) =~= svs.take(i + 1 as int));
            // The block-store fold advances by exactly this entry's step.
            assert(kept_file_at(pats, svs.take(i + 1 as int), i as int) == step_keeps_file(
                pats,
                xdv,
                svs[i as int],
            )) by {
                assert(svs.take(i + 1 as int).take(i as int) =~= svs.take(i as int));
                assert(svs.take(i + 1 as int)[i as int] == svs[i as int]);
            }
            lemma_backup_writes_nonneg(ar1.blocks_view(), pats, svs.take(i as int));
            if step_keeps_file(pats, xdv, svs[i as int]) {
                crate::blockdir::lemma_store_writes_nonneg(
                    pre.blocks_view(),
                    chunks_of(svs[i as int].content),
                );
            }
            // The kept entries gained at most the new entry, whose block
            // addresses were just stored.
            assert forall|x: int, y: int|
                #![trigger bfilt(pats, svs.take(i + 1 as int)).0[x].addrs[y]]
                0 <= x < bfilt(pats, svs.take(i + 1 as int)).0.len() && 0 <= y < bfilt(
                    pats,
                    svs.take(i + 1 as int),
                ).0[x].addrs.len() implies crate::blockdir::bd_lookup(
                archive.blocks_view(),
                bfilt(pats, svs.take(i + 1 as int)).0[x].addrs[y].hash,
            ) is Some by {
                let kept0 = bfilt(pats, svs.take(i as int)).0;
                let kept1 = bfilt(pats, svs.take(i + 1 as int)).0;
                if x < kept0.len() {
                    assert(kept1[x] == kept0[x]);
                    assert(crate::blockdir::bd_lookup(
                        pre.blocks_view(),
                        kept0[x].addrs[y].hash,
                    ) is Some);
                } else {
                    assert(kept1[x] == entry_of(svs[i as int]));
                    if svs[i as int].kind is File {
                        assert(kept1[x].addrs[y] == chunk_addrs(svs[i as int].content)[y]);
                        assert(kept1[x].addrs[y].hash == hash_of(
                            chunks_of(svs[i as int].content)[y],
                        ));
                        // The entry was kept, so it was neither matched
                        // nor below an excluded directory, and its chunks
                        // were stored.
                        let st1 = bfilt(pats, svs.take(i as int)).1;
                        assert(!glob_match(pats, svs[i as int].apath));
                        assert(!(exists|j: int|
                            0 <= j < st1.len() && is_descendant(
                                #[trigger] st1[j],
                                svs[i as int].apath,
                            )));
                        lemma_witness_map(wxd, st1, svs[i as int].apath);
                        assert(all_chunks_present(archive.blocks_view(), svs[i as int].content));
                    } else {
                        assert(kept1[x].addrs.len() == 0);
                    }
                }
            }
            assert forall|k: int|
                0 <= k < archive.bands_view().len() - 1 implies #[trigger] archive.bands_view()[k]
                == ar1.bands_view()[k] by {
                assert(archive.bands_view()[k].0 == pre.bands_view()[k].0);
                assert(pre.bands_view()[k] == pre.bands_view().take(
                    pre.bands_view().len() - 1,
                )[k]);
                assert(pre.bands_view()[k] == ar1.bands_view()[k]);
                let nk = ar1.bands_view()[k].0;
                assert(ar1.bands_view()[k].0 == ar1.bands_view().last().0 ==> false) by {
                    if k < ar1.bands_view().len() - 1 && ar1.bands_view()[k].0
                        == ar1.bands_view().last().0 {
                        assert((#[trigger] ar1.bands_view()[k]).0 != (
                        #[trigger] ar1.bands_view()[ar1.bands_view().len() - 1]).0);
                    }
                }
                assert(nk != bname);
                crate::archive::lemma_band_at_index(ar1.bands_view(), k);
                crate::archive::lemma_band_at_index(archive.bands_view(), k);
                assert(archive.band_at(nk) == pre.band_at(nk));
                assert(pre.band_at(nk) == ar1.band_at(nk));
            }
            assert(archive.bands_view().take(archive.bands_view().len() - 1)
                =~= ar1.bands_view().take(ar1.bands_view().len() - 1));
        }
        i = i + 1;
    }
    proof {
        assert(svs.take(svs.len() as int) =~= svs);
    }
    let ghost pre2 = *archive;
    let r = writer.finish(archive);
    proof {
        lemma_blocks_chain(old(archive).blocks_view(), ar1.blocks_view(), pre2.blocks_view(), archive.blocks_view());
        match r {
            Ok(()) => {
                lemma_backup_blocks_kept(old(archive).blocks_view(), pats, svs);
                if sources_present(old(archive).blocks_view(), svs) {
                    lemma_backup_blocks_all_present(old(archive).blocks_view(), pats, svs);
                }
                assert forall|k: int|
                    0 <= k < archive.bands_view().len() - 1 implies #[trigger] archive.bands_view()[k]
                    == ar1.bands_view()[k] by {
                    assert(archive.bands_view()[k].0 == pre2.bands_view()[k].0);
                    assert(pre2.bands_view()[k] == pre2.bands_view().take(
                        pre2.bands_view().len() - 1,
                    )[k]);
                    assert(pre2.bands_view()[k] == ar1.bands_view()[k]);
                    let nk = ar1.bands_view()[k].0;
                    assert(nk != bname) by {
                        if k < ar1.bands_view().len() - 1 && ar1.bands_view()[k].0
                            == ar1.bands_view().last().0 {
                            assert((#[trigger] ar1.bands_view()[k]).0 != (
                            #[trigger] ar1.bands_view()[ar1.bands_view().len() - 1]).0);
                        }
                    }
                    crate::archive::lemma_band_at_index(ar1.bands_view(), k);
                    crate::archive::lemma_band_at_index(archive.bands_view(), k);
                    assert(archive.band_at(nk) == pre2.band_at(nk));
                    assert(pre2.band_at(nk) == ar1.band_at(nk));
                }
                assert(archive.bands_view().take(old(archive).bands_view().len() as int)
                    =~= old(archive).bands_view()) by {
                    assert(ar1.bands_view().take(ar1.bands_view().len() - 1) == old(archive).bands_view());
                    assert forall|k: int|
                        0 <= k < old(archive).bands_view().len() implies archive.bands_view().take(
                        old(archive).bands_view().len() as int,
                    )[k] == old(archive).bands_view()[k] by {
                        assert(archive.bands_view()[k] == ar1.bands_view()[k]);
                        assert(ar1.bands_view().take(ar1.bands_view().len() - 1)[k]
                            == ar1.bands_view()[k]);
                    }
                }
                assert(archive.bands_view().last().0 == pre2.bands_view().last().0);
                crate::archive::lemma_band_at_index(
                    archive.bands_view(),
                    archive.bands_view().len() - 1,
                );
            },
            Err(_) => {},
        }
    }
    r
}

/// Block lookups preserved across three successive store states chain to
/// the whole run.
pub proof fn lemma_blocks_chain(
    b0: Seq<(Seq<u8>, Seq<u8>)>,
    b1: Seq<(Seq<u8>, Seq<u8>)>,
    b2: Seq<(Seq<u8>, Seq<u8>)>,
    b3: Seq<(Seq<u8>, Seq<u8>)>,
)
    requires
        b1 == b0,
        forall|h: Seq<u8>|
            crate::blockdir::bd_lookup(b1, h) is Some ==> crate::blockdir::bd_lookup(b2, h)
                == crate::blockdir::bd_lookup(b1, h),
        forall|h: Seq<u8>|
            crate::blockdir::bd_lookup(b2, h) is Some ==> crate::blockdir::bd_lookup(b3, h)
                == crate::blockdir::bd_lookup(b2, h),
    ensures
        forall|h: Seq<u8>|
            crate::blockdir::bd_lookup(b0, h) is Some ==> crate::blockdir::bd_lookup(b3, h)
                == crate::blockdir::bd_lookup(b0, h),
{
}

impl BackupWriter {
    /// Begin a backup: make a new band and an index builder for it.
    fn begin(archive: &mut Archive) -> (r: Result<BackupWriter, Error>)
        requires
            old(archive).wf(),
        ensures
            match r {
                Ok(w) => {
                    &&& final(archive).wf()
                    &&& w.band.wf()
                    &&& w.index_builder.band_name_view() == w.band.name_view()
                    &&& !w.index_builder.is_done()
                    &&& w.index_builder.buf_valid()
                    &&& w.index_builder.last_view() is None
                    &&& w.index_builder.pending(final(archive)) == Some(Seq::<IndexEntryV>::empty())
                    &&& w.excluded_dirs@.map_values(|p: Vec<u8>| p@) == Seq::<Seq<u8>>::empty()
                    &&& (final(archive).band_at(w.band.name_view()) matches Some(fs)
                        && fs.tail is None && head_ok(fs) && fs.extra_files.len() == 0
                        && fs.extra_dirs.len() == 0)
                    &&& final(archive).bands_view().len() == old(archive).bands_view().len() + 1
                    &&& final(archive).bands_view().take(old(archive).bands_view().len() as int)
                        == old(archive).bands_view()
                    &&& final(archive).bands_view().last().0 == w.band.name_view()
                    &&& sp_band_name(w.band.name_view()) is Some
                    &&& (forall|n: Seq<u8>|
                        n != w.band.name_view() ==> final(archive).band_at(n) == old(archive).band_at(n))
                    &&& final(archive).blocks_view() == old(archive).blocks_view()
                    &&& final(archive).header_view() == old(archive).header_view()
                    &&& final(archive).path_view() == old(archive).path_view()
                },
                Err(e) => {
                    &&& *final(archive) == *old(archive)
                    &&& ((e is InvalidBandId && exists|j: int|
                        0 <= j < old(archive).bands_view().len() && sp_band_name(
                            #[trigger] old(archive).bands_view()[j].0,
                        ) is None) || (e is CreateBand && exists|m: Seq<u32>|
                        #[trigger] crate::archive::is_max_id(old(archive), m) && m.len() >= 1
                            && m.last() == u32::MAX))
                },
            },
    {
        let band = Band::create(archive)?;
        let index_builder = band.index_builder();
        proof {
            let bname = band.name_view();
            assert(final(archive).bands_view().last().0 == bname);
            lemma_last_band_at(final(archive).bands_view(), bname);
            assert(final(archive).band_at(bname) == Some(final(archive).bands_view().last().1));
            let fs = final(archive).bands_view().last().1;
            assert(hunks_entries(fs.hunks) == Some(Seq::<IndexEntryV>::empty()));
            assert(Seq::<IndexEntryV>::empty() + index_builder.buf_view() =~= Seq::<
                IndexEntryV,
            >::empty());
            assert(final(archive).bands_view().take(old(archive).bands_view().len() as int)
                =~= old(archive).bands_view());
            assert forall|n: Seq<u8>|
                n != bname implies final(archive).band_at(n) == old(archive).band_at(n) by {
                lemma_push_band_at(old(archive).bands_view(), final(archive).bands_view(), n);
            }
        }
        Ok(BackupWriter { band, index_builder, excluded_dirs: Vec::new() })
    }

    /// Feed one walker entry through the pipeline: apply exclusions,
    /// dispatch by kind, store file bodies as blocks, and append an index
    /// record for everything kept.
    fn store(
        &mut self,
        archive: &mut Archive,
        options: &BackupOptions,
        report: &mut Report,
        entry: &LiveEntry,
    ) -> (r: Result<(), Error>)
        requires
            old(archive).wf(),
            live_valid(entry@),
            old(self).band.wf(),
            old(self).index_builder.band_name_view() == old(self).band.name_view(),
            !old(self).index_builder.is_done(),
            old(self).index_builder.buf_valid(),
            match old(self).index_builder.last_view() {
                None => true,
                Some(la) => lex_lt(la, entry@.apath),
            },
            old(archive).band_at(old(self).band.name_view()) matches Some(fs) && fs.tail is None,
        ensures
            final(archive).wf(),
            final(self).band == old(self).band,
            final(self).index_builder.band_name_view() == old(self).index_builder.band_name_view(),
            !final(self).index_builder.is_done(),
            final(self).index_builder.buf_valid(),
            final(archive).header_view() == old(archive).header_view(),
            final(archive).path_view() == old(archive).path_view(),
            match r {
                Ok(()) => {
                    &&& (match old(self).index_builder.pending(old(archive)) {
                        Some(es) => {
                            let st = (es, old(self).excluded_dirs@.map_values(|p: Vec<u8>| p@));
                            let st2 = bstep(options.pats_view(), st, entry@);
                            &&& final(self).index_builder.pending(final(archive)) == Some(st2.0)
                            &&& final(self).excluded_dirs@.map_values(|p: Vec<u8>| p@) == st2.1
                        },
                        None => true,
                    })
                    &&& (match final(self).index_builder.last_view() {
                        None => old(self).index_builder.last_view() is None,
                        Some(la) => la == entry@.apath || old(self).index_builder.last_view()
                            == Some(la),
                    })
                    &&& (final(archive).band_at(old(self).band.name_view()) matches Some(fs2) && {
                        let ofs = old(archive).band_at(old(self).band.name_view()).unwrap();
                        &&& fs2.head == ofs.head
                        &&& fs2.tail == ofs.tail
                        &&& fs2.extra_files == ofs.extra_files
                        &&& fs2.extra_dirs == ofs.extra_dirs
                    })
                    &&& (forall|n: Seq<u8>|
                        n != old(self).band.name_view() ==> final(archive).band_at(n) == old(archive).band_at(n))
                },
                Err(_) => false,
            },
            r is Ok,
            final(archive).bands_view().len() == old(archive).bands_view().len(),
            forall|k: int|
                0 <= k < old(archive).bands_view().len() ==> (
                #[trigger] final(archive).bands_view()[k]).0 == old(archive).bands_view()[k].0,
            forall|h: Seq<u8>|
                crate::blockdir::bd_lookup(old(archive).blocks_view(), h) is Some
                    ==> crate::blockdir::bd_lookup(final(archive).blocks_view(), h)
                    == crate::blockdir::bd_lookup(old(archive).blocks_view(), h),
            !step_keeps_file(
                options.pats_view(),
                old(self).excluded_dirs@.map_values(|p: Vec<u8>| p@),
                entry@,
            ) ==> final(archive).blocks_view() == old(archive).blocks_view() && final(report).count_of("block.write"@) == old(report).count_of("block.write"@),
            step_keeps_file(
                options.pats_view(),
                old(self).excluded_dirs@.map_values(|p: Vec<u8>| p@),
                entry@,
            ) ==> final(archive).blocks_view() == crate::blockdir::store_blocks(
                old(archive).blocks_view(),
                chunks_of(entry@.content),
            ) && all_chunks_present(final(archive).blocks_view(), entry@.content) && final(report).count_of("block.write"@) == (if old(report).count_of("block.write"@)
                + crate::blockdir::store_writes(
                old(archive).blocks_view(),
                chunks_of(entry@.content),
            ) <= u64::MAX {
                (old(report).count_of("block.write"@) + crate::blockdir::store_writes(
                    old(archive).blocks_view(),
                    chunks_of(entry@.content),
                )) as u64
            } else {
                u64::MAX
            }),
            (match step_counter(
                options.pats_view(),
                old(self).excluded_dirs@.map_values(|p: Vec<u8>| p@),
                entry@,
            ) {
                Some(name) => final(report).count_of(name) == (if old(report).count_of(name)
                    == u64::MAX {
                    u64::MAX
                } else {
                    (old(report).count_of(name) + 1) as u64
                }) && (forall|n: Seq<char>|
                    n != name && n != "block.write"@ ==> final(report).count_of(n) == old(report).count_of(n)),
                None => forall|n: Seq<char>|
                    n != "block.write"@ ==> final(report).count_of(n) == old(report).count_of(n),
            }),
    {
        let ghost pats = options.pats_view();
        let excluded_under = crate::excludes::under_excluded(&self.excluded_dirs, &entry.apath);
        proof {
            reveal_strlit("file");
            reveal_strlit("dir");
            reveal_strlit("symlink");
            reveal_strlit("skipped.unsupported_file_kind");
            reveal_strlit("skipped.excluded.files");
            reveal_strlit("skipped.excluded.directories");
            reveal_strlit("block.write");
            assert("file"@.len() == 4);
            assert("dir"@.len() == 3);
            assert("symlink"@.len() == 7);
            assert("skipped.unsupported_file_kind"@.len() == 29);
            assert("skipped.excluded.files"@.len() == 22);
            assert("skipped.excluded.directories"@.len() == 28);
            assert("block.write"@.len() == 11);
            lemma_witness_map(
                self.excluded_dirs@,
                self.excluded_dirs@.map_values(|p: Vec<u8>| p@),
                entry@.apath,
            );
        }
        if excluded_under {
            return Ok(());
        }
        if crate::excludes::is_match(&options.excludes, &entry.apath) {
            match entry.kind {
                Kind::Dir => {
                    report.increment("skipped.excluded.directories");
                    let ghost oxd = self.excluded_dirs@.map_values(|p: Vec<u8>| p@);
                    self.excluded_dirs.push(entry.apath.clone());
                    proof {
                        assert(self.excluded_dirs@.map_values(|p: Vec<u8>| p@) =~= oxd.push(
                            entry@.apath,
                        ));
                    }
                },
                _ => {
                    report.increment("skipped.excluded.files");
                },
            }
            return Ok(());
        }
        match entry.kind {
            Kind::Dir => {
                report.increment("dir");
                self.write_dir(archive, entry)
            },
            Kind::File => self.store_file(archive, report, entry),
            Kind::Symlink => {
                report.increment("symlink");
                self.write_symlink(archive, entry)
            },
            Kind::Unknown => {
                report.increment("skipped.unsupported_file_kind");
                Ok(())
            },
        }
    }

    /// Push one finished index record and flush if the hunk is full.
    fn push_entry(&mut self, archive: &mut Archive, index_entry: IndexEntry) -> (r: Result<
        (),
        Error,
    >)
        requires
            old(archive).wf(),
            entry_valid(index_entry@),
            !old(self).index_builder.is_done(),
            old(self).index_builder.buf_valid(),
            old(archive).band_at(old(self).index_builder.band_name_view()) is Some,
            match old(self).index_builder.last_view() {
                None => true,
                Some(la) => lex_lt(la, index_entry@.apath),
            },
        ensures
            final(archive).wf(),
            final(self).band == old(self).band,
            final(self).excluded_dirs == old(self).excluded_dirs,
            final(self).index_builder.band_name_view() == old(self).index_builder.band_name_view(),
            !final(self).index_builder.is_done(),
            final(self).index_builder.buf_valid(),
            final(self).index_builder.last_view() == Some(index_entry@.apath),
            final(archive).blocks_view() == old(archive).blocks_view(),
            final(archive).header_view() == old(archive).header_view(),
            final(archive).path_view() == old(archive).path_view(),
            final(archive).bands_view().len() == old(archive).bands_view().len(),
            (forall|k: int|
                0 <= k < old(archive).bands_view().len() ==> (
                #[trigger] final(archive).bands_view()[k]).0 == old(archive).bands_view()[k].0),
            match r {
                Ok(()) => {
                    &&& final(self).index_builder.pending(final(archive)) == (match old(self).index_builder.pending(old(archive)) {
                        Some(es) => Some(es.push(index_entry@)),
                        None => None::<Seq<IndexEntryV>>,
                    })
                    &&& (old(archive).band_at(old(self).index_builder.band_name_view())
                        matches Some(ofs) ==> (final(archive).band_at(
                        old(self).index_builder.band_name_view(),
                    ) matches Some(fs2) && {
                        &&& fs2.head == ofs.head
                        &&& fs2.tail == ofs.tail
                        &&& fs2.extra_files == ofs.extra_files
                        &&& fs2.extra_dirs == ofs.extra_dirs
                    }))
                    &&& (forall|n: Seq<u8>|
                        n != old(self).index_builder.band_name_view() ==> final(archive).band_at(n)
                            == old(archive).band_at(n))
                },
                Err(_) => false,
            },
            r is Ok,
    {
        self.index_builder.push(index_entry);
        let r = self.index_builder.maybe_flush(archive);
        match r {
            Ok(()) => Ok(()),
            Err(e) => Err(e),
        }
    }

    /// Store a file: its body goes into the block store chunk by chunk,
    /// its addresses and whole-content hash into the index.
    fn store_file(&mut self, archive: &mut Archive, report: &mut Report, entry: &LiveEntry) -> (r:
        Result<(), Error>)
        requires
            old(archive).wf(),
            live_valid(entry@),
            entry@.kind is File,
            !old(self).index_builder.is_done(),
            old(self).index_builder.buf_valid(),
            old(archive).band_at(old(self).index_builder.band_name_view()) is Some,
            match old(self).index_builder.last_view() {
                None => true,
                Some(la) => lex_lt(la, entry@.apath),
            },
        ensures
            final(archive).wf(),
            final(self).band == old(self).band,
            final(self).excluded_dirs == old(self).excluded_dirs,
            final(self).index_builder.band_name_view() == old(self).index_builder.band_name_view(),
            !final(self).index_builder.is_done(),
            final(self).index_builder.buf_valid(),
            final(archive).header_view() == old(archive).header_view(),
            final(archive).path_view() == old(archive).path_view(),
            final(archive).bands_view().len() == old(archive).bands_view().len(),
            (forall|k: int|
                0 <= k < old(archive).bands_view().len() ==> (
                #[trigger] final(archive).bands_view()[k]).0 == old(archive).bands_view()[k].0),
            forall|h: Seq<u8>|
                crate::blockdir::bd_lookup(old(archive).blocks_view(), h) is Some
                    ==> crate::blockdir::bd_lookup(final(archive).blocks_view(), h)
                    == crate::blockdir::bd_lookup(old(archive).blocks_view(), h),
            final(archive).blocks_view() == crate::blockdir::store_blocks(
                old(archive).blocks_view(),
                chunks_of(entry@.content),
            ),
            all_chunks_present(final(archive).blocks_view(), entry@.content),
            final(report).count_of("file"@) == (if old(report).count_of("file"@) == u64::MAX {
                u64::MAX
            } else {
                (old(report).count_of("file"@) + 1) as u64
            }),
            forall|n: Seq<char>|
                n != "file"@ && n != "block.write"@ ==> final(report).count_of(n) == old(report).count_of(n),
            final(report).count_of("block.write"@) == (if old(report).count_of("block.write"@)
                + crate::blockdir::store_writes(
                old(archive).blocks_view(),
                chunks_of(entry@.content),
            ) <= u64::MAX {
                (old(report).count_of("block.write"@) + crate::blockdir::store_writes(
                    old(archive).blocks_view(),
                    chunks_of(entry@.content),
                )) as u64
            } else {
                u64::MAX
            }),
            match r {
                Ok(()) => {
                    &&& final(self).index_builder.last_view() == Some(entry@.apath)
                    &&& final(self).index_builder.pending(final(archive)) == (match old(self).index_builder.pending(old(archive)) {
                        Some(es) => Some(es.push(entry_of(entry@))),
                        None => None::<Seq<IndexEntryV>>,
                    })
                    &&& (old(archive).band_at(old(self).index_builder.band_name_view())
                        matches Some(ofs) ==> (final(archive).band_at(
                        old(self).index_builder.band_name_view(),
                    ) matches Some(fs2) && {
                        &&& fs2.head == ofs.head
                        &&& fs2.tail == ofs.tail
                        &&& fs2.extra_files == ofs.extra_files
                        &&& fs2.extra_dirs == ofs.extra_dirs
                    }))
                    &&& (forall|n: Seq<u8>|
                        n != old(self).index_builder.band_name_view() ==> final(archive).band_at(n)
                            == old(archive).band_at(n))
                },
                Err(_) => false,
            },
            r is Ok,
    {
        proof {
            reveal_strlit("file");
            reveal_strlit("block.write");
            assert("file"@.len() == 4);
            assert("block.write"@.len() == 11);
            assert("file"@ != "block.write"@);
        }
        report.increment("file");
        let (addrs, body_hash) = archive.block_dir.store(&entry.content, report);
        proof {
            assert forall|h: Seq<u8>|
                crate::blockdir::bd_lookup(old(archive).blocks_view(), h) is Some implies crate::blockdir::bd_lookup(
                archive.blocks_view(),
                h,
            ) == crate::blockdir::bd_lookup(old(archive).blocks_view(), h) by {
                assert(old(archive).block_dir.lookup(h) is Some);
            }
            assert(all_chunks_present(archive.blocks_view(), entry@.content));
            assert forall|h: Seq<u8>|
                crate::blockdir::bd_lookup(archive.blocks_view(), h)
                    != crate::blockdir::bd_lookup(old(archive).blocks_view(), h) implies exists|
                k: int,
            |
                0 <= k < chunks_of(entry@.content).len() && h == hash_of(
                    #[trigger] chunks_of(entry@.content)[k],
                ) && crate::blockdir::bd_lookup(archive.blocks_view(), h) == Some(
                    chunks_of(entry@.content)[k],
                ) by {
                assert(archive.block_dir.lookup(h) != old(archive).block_dir.lookup(h));
            }
            crate::hashing::lemma_hex_safe(crate::hashing::digest_of(entry@.content));
            assert(crate::index::addrs_view(addrs@) =~= chunk_addrs(entry@.content));
            assert forall|k: int|
                0 <= k < crate::index::addrs_view(addrs@).len() implies crate::index::addr_valid(
                #[trigger] crate::index::addrs_view(addrs@)[k],
            ) by {
                assert(crate::index::addrs_view(addrs@)[k].hash == hash_of(
                    chunks_of(entry@.content)[k],
                ));
                crate::hashing::lemma_hex_safe(
                    crate::hashing::digest_of(chunks_of(entry@.content)[k]),
                );
            }
        }
        let ie = IndexEntry {
            apath: entry.apath.clone(),
            mtime: entry.mtime,
            kind: Kind::File,
            addrs,
            blake2b: Some(body_hash),
            target: None,
        };
        proof {
            assert(ie@ == entry_of(entry@));
        }
        self.push_entry(archive, ie)
    }

    /// Record a directory: no addresses, no hash.
    fn write_dir(&mut self, archive: &mut Archive, entry: &LiveEntry) -> (r: Result<(), Error>)
        requires
            old(archive).wf(),
            live_valid(entry@),
            entry@.kind is Dir,
            !old(self).index_builder.is_done(),
            old(self).index_builder.buf_valid(),
            old(archive).band_at(old(self).index_builder.band_name_view()) is Some,
            match old(self).index_builder.last_view() {
                None => true,
                Some(la) => lex_lt(la, entry@.apath),
            },
        ensures
            final(archive).wf(),
            final(self).band == old(self).band,
            final(self).excluded_dirs == old(self).excluded_dirs,
            final(self).index_builder.band_name_view() == old(self).index_builder.band_name_view(),
            !final(self).index_builder.is_done(),
            final(self).index_builder.buf_valid(),
            final(archive).blocks_view() == old(archive).blocks_view(),
            final(archive).header_view() == old(archive).header_view(),
            final(archive).path_view() == old(archive).path_view(),
            final(archive).bands_view().len() == old(archive).bands_view().len(),
            (forall|k: int|
                0 <= k < old(archive).bands_view().len() ==> (
                #[trigger] final(archive).bands_view()[k]).0 == old(archive).bands_view()[k].0),
            match r {
                Ok(()) => {
                    &&& final(self).index_builder.last_view() == Some(entry@.apath)
                    &&& final(self).index_builder.pending(final(archive)) == (match old(self).index_builder.pending(old(archive)) {
                        Some(es) => Some(es.push(entry_of(entry@))),
                        None => None::<Seq<IndexEntryV>>,
                    })
                    &&& (old(archive).band_at(old(self).index_builder.band_name_view())
                        matches Some(ofs) ==> (final(archive).band_at(
                        old(self).index_builder.band_name_view(),
                    ) matches Some(fs2) && {
                        &&& fs2.head == ofs.head
                        &&& fs2.tail == ofs.tail
                        &&& fs2.extra_files == ofs.extra_files
                        &&& fs2.extra_dirs == ofs.extra_dirs
                    }))
                    &&& (forall|n: Seq<u8>|
                        n != old(self).index_builder.band_name_view() ==> final(archive).band_at(n)
                            == old(archive).band_at(n))
                },
                Err(_) => false,
            },
            r is Ok,
    {
        let ie = IndexEntry {
            apath: entry.apath.clone(),
            mtime: entry.mtime,
            kind: Kind::Dir,
            addrs: Vec::new(),
            blake2b: None,
            target: None,
        };
        proof {
            assert(ie@.addrs =~= Seq::<AddressV>::empty());
            assert(ie@ == entry_of(entry@));
        }
        self.push_entry(archive, ie)
    }

    /// Record a symlink, which must carry its target.
    fn write_symlink(&mut self, archive: &mut Archive, entry: &LiveEntry) -> (r: Result<(), Error>)
        requires
            old(archive).wf(),
            live_valid(entry@),
            entry@.kind is Symlink,
            !old(self).index_builder.is_done(),
            old(self).index_builder.buf_valid(),
            old(archive).band_at(old(self).index_builder.band_name_view()) is Some,
            match old(self).index_builder.last_view() {
                None => true,
                Some(la) => lex_lt(la, entry@.apath),
            },
        ensures
            final(archive).wf(),
            final(self).band == old(self).band,
            final(self).excluded_dirs == old(self).excluded_dirs,
            final(self).index_builder.band_name_view() == old(self).index_builder.band_name_view(),
            !final(self).index_builder.is_done(),
            final(self).index_builder.buf_valid(),
            final(archive).blocks_view() == old(archive).blocks_view(),
            final(archive).header_view() == old(archive).header_view(),
            final(archive).path_view() == old(archive).path_view(),
            final(archive).bands_view().len() == old(archive).bands_view().len(),
            (forall|k: int|
                0 <= k < old(archive).bands_view().len() ==> (
                #[trigger] final(archive).bands_view()[k]).0 == old(archive).bands_view()[k].0),
            match r {
                Ok(()) => {
                    &&& final(self).index_builder.last_view() == Some(entry@.apath)
                    &&& final(self).index_builder.pending(final(archive)) == (match old(self).index_builder.pending(old(archive)) {
                        Some(es) => Some(es.push(entry_of(entry@))),
                        None => None::<Seq<IndexEntryV>>,
                    })
                    &&& (old(archive).band_at(old(self).index_builder.band_name_view())
                        matches Some(ofs) ==> (final(archive).band_at(
                        old(self).index_builder.band_name_view(),
                    ) matches Some(fs2) && {
                        &&& fs2.head == ofs.head
                        &&& fs2.tail == ofs.tail
                        &&& fs2.extra_files == ofs.extra_files
                        &&& fs2.extra_dirs == ofs.extra_dirs
                    }))
                    &&& (forall|n: Seq<u8>|
                        n != old(self).index_builder.band_name_view() ==> final(archive).band_at(n)
                            == old(archive).band_at(n))
                },
                Err(_) => false,
            },
            r is Ok,
    {
        let target = crate::excludes::clone_opt_bytes(&entry.target);
        let ie = IndexEntry {
            apath: entry.apath.clone(),
            mtime: entry.mtime,
            kind: Kind::Symlink,
            addrs: Vec::new(),
            blake2b: None,
            target,
        };
        proof {
            assert(ie@.addrs =~= Seq::<AddressV>::empty());
            assert(ie@ == entry_of(entry@));
        }
        self.push_entry(archive, ie)
    }

    /// Flush the index and close the band: closing is the last step, so a
    /// tail record exists only once all entries are durably written.
    fn finish(&mut self, archive: &mut Archive) -> (r: Result<(), Error>)
        requires
            old(archive).wf(),
            old(self).band.wf(),
            old(self).index_builder.band_name_view() == old(self).band.name_view(),
            !old(self).index_builder.is_done(),
            old(self).index_builder.buf_valid(),
            old(archive).band_at(old(self).band.name_view()) matches Some(fs) && head_ok(fs),
        ensures
            final(archive).wf(),
            final(archive).header_view() == old(archive).header_view(),
            final(archive).path_view() == old(archive).path_view(),
            final(archive).blocks_view() == old(archive).blocks_view(),
            final(archive).bands_view().len() == old(archive).bands_view().len(),
            (forall|k: int|
                0 <= k < old(archive).bands_view().len() ==> (
                #[trigger] final(archive).bands_view()[k]).0 == old(archive).bands_view()[k].0),
            match r {
                Ok(()) => {
                    &&& (final(archive).band_at(old(self).band.name_view()) matches Some(fs) && {
                        let ofs = old(archive).band_at(old(self).band.name_view()).unwrap();
                        &&& fs.tail is Some
                        &&& fs.head == ofs.head
                        &&& fs.extra_files == ofs.extra_files
                        &&& fs.extra_dirs == ofs.extra_dirs
                        &&& hunks_entries(fs.hunks) == old(self).index_builder.pending(
                            old(archive),
                        )
                    })
                    &&& (forall|n: Seq<u8>|
                        n != old(self).band.name_view() ==> final(archive).band_at(n) == old(archive).band_at(n))
                },
                Err(_) => false,
            },
            r is Ok,
    {
        let r = self.index_builder.finish(archive);
        match r {
            Ok(()) => {},
            Err(e) => {
                return Err(e);
            },
        }
        self.band.close(archive)
    }
}

/// A witness among a vector's elements lifts to its mapped views, and
/// its absence lifts too.
pub proof fn lemma_witness_map(xd: Seq<Vec<u8>>, m: Seq<Seq<u8>>, apath: Seq<u8>)
    requires
        m == xd.map_values(|p: Vec<u8>| p@),
    ensures
        (exists|j: int| 0 <= j < xd.len() && is_descendant((#[trigger] xd[j])@, apath)) <==> (
        exists|j: int| 0 <= j < m.len() && is_descendant(#[trigger] m[j], apath)),
{
    if exists|j: int| 0 <= j < xd.len() && is_descendant((#[trigger] xd[j])@, apath) {
        let j = choose|j: int| 0 <= j < xd.len() && is_descendant((#[trigger] xd[j])@, apath);
        assert(m[j] == xd[j]@);
        assert(is_descendant(m[j], apath));
    }
    if exists|j: int| 0 <= j < m.len() && is_descendant(#[trigger] m[j], apath) {
        let j = choose|j: int| 0 <= j < m.len() && is_descendant(#[trigger] m[j], apath);
        assert(m[j] == xd[j]@);
        assert(is_descendant(xd[j]@, apath));
    }
}

/// A band just pushed at the end of the list is found by its name.
pub proof fn lemma_last_band_at(bands: Seq<(Seq<u8>, crate::archive::BandFsV)>, name: Seq<u8>)
    requires
        bands.len() >= 1,
        bands.last().0 == name,
        forall|i: int, j: int|
            0 <= i < j < bands.len() ==> (#[trigger] bands[i]).0 != (#[trigger] bands[j]).0,
    ensures
        crate::archive::band_lookup(bands, name) == Some(bands.last().1),
    decreases bands.len(),
{
    if bands.len() == 1 {
    } else {
        assert(bands[0].0 != name);
        assert(bands.skip(1).last() == bands.last());
        assert forall|i: int, j: int|
            0 <= i < j < bands.skip(1).len() implies (#[trigger] bands.skip(1)[i]).0 != (
        #[trigger] bands.skip(1)[j]).0 by {
            assert(bands.skip(1)[i] == bands[i + 1]);
            assert(bands.skip(1)[j] == bands[j + 1]);
        }
        lemma_last_band_at(bands.skip(1), name);
    }
}

/// Pushing a new band does not change what other names find.
pub proof fn lemma_push_band_at(
    before: Seq<(Seq<u8>, crate::archive::BandFsV)>,
    after: Seq<(Seq<u8>, crate::archive::BandFsV)>,
    n: Seq<u8>,
)
    requires
        after.len() == before.len() + 1,
        after.take(before.len() as int) == before,
        n != after.last().0,
    ensures
        crate::archive::band_lookup(after, n) == crate::archive::band_lookup(before, n),
    decreases before.len(),
{
    if before.len() == 0 {
        assert(after[0].0 == after.last().0);
        assert(after.skip(1) =~= Seq::<(Seq<u8>, crate::archive::BandFsV)>::empty());
    } else {
        assert(after[0] == after.take(before.len() as int)[0]);
        assert(after[0] == before[0]);
        assert(after.skip(1).take(before.skip(1).len() as int) =~= before.skip(1)) by {
            assert forall|i: int| 0 <= i < before.len() - 1 implies after.skip(1)[i] == before.skip(
                1,
            )[i] by {
                assert(after.skip(1)[i] == after[i + 1]);
                assert(after.take(before.len() as int)[i + 1] == after[i + 1]);
                assert(before.skip(1)[i] == before[i + 1]);
            }
        }
        assert(after.skip(1).last() == after.last());
        lemma_push_band_at(before.skip(1), after.skip(1), n);
    }
}

} // verus!

//! Exclusion predicates over apaths, backed by glob patterns.
//!
//! The glob matching itself is the globset crate's; the core only relies
//! on it being a function of the pattern list and the path. Filtering a
//! stream of entries, including suppression of everything below an
//! excluded directory, is verified here.

use vstd::prelude::*;
use crate::apath::is_descendant;
use crate::error::Error;
use crate::index::{IndexEntry, IndexEntryV, Kind, entries_view};
use crate::report::Report;

verus! {

/// The globset crate's compiled pattern set, opaque to the logic.
#[verifier::external_type_specification]
#[verifier::external_body]
pub struct ExGlobSet(globset::GlobSet);

/// Whether any of the patterns matches the path: a function of the
/// pattern list and the path alone, decided by the globset crate.
pub uninterp spec fn glob_match(pats: Seq<Seq<u8>>, path: Seq<u8>) -> bool;

/// A set of exclusion patterns, kept together with its compiled matcher.
#[derive(Debug)]
pub struct Excludes {
    pats: Vec<Vec<u8>>,
    set: globset::GlobSet,
}

impl Excludes {
    /// The patterns this matcher was built from.
    pub closed spec fn pats_view(&self) -> Seq<Seq<u8>> {
        self.pats@.map_values(|p: Vec<u8>| p@)
    }
}

/// Relies on globset's `GlobSet::empty`, whose documentation states that
/// an empty set matches nothing.
#[verifier::external_body]
pub fn excludes_nothing() -> (r: Excludes)
    ensures
        r.pats_view() == Seq::<Seq<u8>>::empty(),
        forall|p: Seq<u8>| !glob_match(r.pats_view(), p),
{
    Excludes { pats: Vec::new(), set: globset::GlobSet::empty() }
}

/// Relies on globset's `Glob::new` and `GlobSetBuilder`: compile the
/// given patterns into one matcher, or fail on a malformed pattern.
#[verifier::external_body]
pub fn from_strings(pats: &Vec<Vec<u8>>) -> (r: Result<Excludes, Error>)
    ensures
        match r {
            Ok(e) => e.pats_view() == pats@.map_values(|p: Vec<u8>| p@),
            Err(e) => e is Glob,
        },
{
    let mut builder = globset::GlobSetBuilder::new();
    for p in pats.iter() {
        match std::str::from_utf8(p).ok().and_then(|s| globset::Glob::new(s).ok()) {
            Some(g) => builder.add(g),
            None => return Err(Error::Glob),
        };
    }
    match builder.build() {
        Ok(set) => Ok(Excludes { pats: pats.clone(), set }),
        Err(_) => Err(Error::Glob),
    }
}

/// Relies on globset's `GlobSet::is_match`: whether any pattern matches,
/// a deterministic function of the compiled patterns and the path. For
/// patterns containing a backslash the crate's default escape handling
/// differs per target platform, so the named function is fixed only per
/// build; no contract in this crate depends on such a pattern.
#[verifier::external_body]
pub fn is_match(e: &Excludes, path: &Vec<u8>) -> (r: bool)
    ensures
        r == glob_match(e.pats_view(), path@),
{
    match std::str::from_utf8(path.as_slice()) {
        Ok(s) => e.set.is_match(std::path::Path::new(s)),
        Err(_) => false,
    }
}

/// One step of exclusion filtering: the entries kept so far and the
/// apaths of excluded directories, extended by one entry. An entry below
/// an excluded directory is silently suppressed; an entry matching a
/// pattern is dropped, and remembered if it is a directory; anything
/// else is kept.
pub open spec fn filt(pats: Seq<Seq<u8>>, s: Seq<IndexEntryV>) -> (Seq<IndexEntryV>, Seq<Seq<u8>>)
    decreases s.len(),
{
    if s.len() == 0 {
        (Seq::empty(), Seq::empty())
    } else {
        let (ks, xd) = filt(pats, s.drop_last());
        let e = s.last();
        if exists|j: int| 0 <= j < xd.len() && is_descendant(#[trigger] xd[j], e.apath) {
            (ks, xd)
        } else if glob_match(pats, e.apath) {
            if e.kind is Dir {
                (ks, xd.push(e.apath))
            } else {
                (ks, xd)
            }
        } else {
            (ks.push(e), xd)
        }
    }
}

/// What exclusion filtering keeps, in order.
pub open spec fn filter_excl(pats: Seq<Seq<u8>>, s: Seq<IndexEntryV>) -> Seq<IndexEntryV> {
    filt(pats, s).0
}

/// A pattern set that matches nothing keeps every entry.
pub proof fn lemma_filter_nothing(pats: Seq<Seq<u8>>, s: Seq<IndexEntryV>)
    requires
        forall|p: Seq<u8>| !glob_match(pats, p),
    ensures
        filter_excl(pats, s) == s,
        filt(pats, s).1 == Seq::<Seq<u8>>::empty(),
    decreases s.len(),
{
    if s.len() == 0 {
        assert(filt(pats, s).0 =~= s);
    } else {
        lemma_filter_nothing(pats, s.drop_last());
        assert(filt(pats, s).0 =~= s) by {
            assert(filt(pats, s).0 == s.drop_last().push(s.last()));
            assert(s.drop_last().push(s.last()) =~= s);
        }
    }
}

/// Which counter one filtering step bumps, if any: mirrors `filt`.
pub open spec fn excl_step_counter(pats: Seq<Seq<u8>>, xd: Seq<Seq<u8>>, e: IndexEntryV) -> Option<
    Seq<char>,
> {
    if exists|j: int| 0 <= j < xd.len() && is_descendant(#[trigger] xd[j], e.apath) {
        None
    } else if glob_match(pats, e.apath) {
        if e.kind is Dir {
            Some("skipped.excluded.directories"@)
        } else {
            Some("skipped.excluded.files"@)
        }
    } else {
        None
    }
}

/// How often filtering a whole sequence bumps one counter.
pub open spec fn excl_count(pats: Seq<Seq<u8>>, s: Seq<IndexEntryV>, name: Seq<char>) -> int
    decreases s.len(),
{
    if s.len() == 0 {
        0
    } else {
        excl_count(pats, s.drop_last(), name) + (if excl_step_counter(
            pats,
            filt(pats, s.drop_last()).1,
            s.last(),
        ) == Some(name) {
            1int
        } else {
            0int
        })
    }
}

/// Filtering never decrements a counter.
pub proof fn lemma_excl_count_nonneg(pats: Seq<Seq<u8>>, s: Seq<IndexEntryV>, name: Seq<char>)
    ensures
        excl_count(pats, s, name) >= 0,
    decreases s.len(),
{
    if s.len() > 0 {
        lemma_excl_count_nonneg(pats, s.drop_last(), name);
    }
}

/// Is some recorded excluded directory an ancestor of this path?
pub fn under_excluded(xd: &Vec<Vec<u8>>, apath: &Vec<u8>) -> (r: bool)
    ensures
        r == exists|j: int|
            0 <= j < xd@.len() && is_descendant(#[trigger] xd@[j]@, apath@),
{
    let mut i: usize = 0;
    while i < xd.len()
        invariant
            i <= xd.len(),
            forall|j: int| 0 <= j < i ==> !is_descendant(#[trigger] xd@[j]@, apath@),
        decreases xd.len() - i,
    {
        let d = &xd[i];
        if d.len() < apath.len() {
            let prefix = crate::bytes::bytes_slice(apath, 0, d.len());
            if crate::bytes::bytes_eq(&prefix, d) && apath[d.len()] == 47 {
                proof {
                    assert(apath@.take(d@.len() as int) == d@);
                    assert(is_descendant(xd@[i as int]@, apath@));
                }
                return true;
            }
        }
        proof {
            assert(!is_descendant(xd@[i as int]@, apath@));
        }
        i = i + 1;
    }
    false
}

/// Apply exclusion filtering to a sequence of entries, counting what was
/// dropped: one count per excluded directory or file, nothing for the
/// suppressed contents of an excluded directory.
pub fn apply_excludes(entries: Vec<IndexEntry>, excludes: &Excludes, report: &mut Report) -> (r:
    Vec<IndexEntry>)
    ensures
        entries_view(r@) == filter_excl(excludes.pats_view(), entries_view(entries@)),
        forall|name: Seq<char>|
            (name == "skipped.excluded.files"@ || name == "skipped.excluded.directories"@)
                ==> final(report).count_of(name) == crate::backup::sat_add(
                old(report).count_of(name),
                excl_count(excludes.pats_view(), entries_view(entries@), name),
            ),
        forall|n: Seq<char>|
            n != "skipped.excluded.files"@ && n != "skipped.excluded.directories"@
                ==> final(report).count_of(n) == old(report).count_of(n),
{
    let ghost pats = excludes.pats_view();
    let ghost vs = entries_view(entries@);
    let mut out: Vec<IndexEntry> = Vec::new();
    let mut xd: Vec<Vec<u8>> = Vec::new();
    let mut i: usize = 0;
    proof {
        reveal_strlit("skipped.excluded.files");
        reveal_strlit("skipped.excluded.directories");
        assert("skipped.excluded.files"@.len() == 22);
        assert("skipped.excluded.directories"@.len() == 28);
        assert(vs.take(0) =~= Seq::<IndexEntryV>::empty());
        assert(filt(pats, vs.take(0)).0 =~= entries_view(out@));
        assert(filt(pats, vs.take(0)).1 =~= xd@.map_values(|p: Vec<u8>| p@));
        assert(forall|name: Seq<char>| excl_count(pats, vs.take(0), name) == 0);
    }
    while i < entries.len()
        invariant
            i <= entries.len(),
            pats == excludes.pats_view(),
            vs == entries_view(entries@),
            vs.len() == entries.len(),
            filt(pats, vs.take(i as int)).0 == entries_view(out@),
            filt(pats, vs.take(i as int)).1 == xd@.map_values(|p: Vec<u8>| p@),
            forall|name: Seq<char>|
                (name == "skipped.excluded.files"@ || name == "skipped.excluded.directories"@)
                    ==> report.count_of(name) == crate::backup::sat_add(
                    old(report).count_of(name),
                    excl_count(pats, vs.take(i as int), name),
                ),
            forall|n: Seq<char>|
                n != "skipped.excluded.files"@ && n != "skipped.excluded.directories"@
                    ==> report.count_of(n) == old(report).count_of(n),
        decreases entries.len() - i,
    {
        proof {
            reveal_strlit("skipped.excluded.files");
            reveal_strlit("skipped.excluded.directories");
            assert("skipped.excluded.files"@.len() == 22);
            assert("skipped.excluded.directories"@.len() == 28);
            assert(vs.take(i + 1 as int).drop_last() =~= vs.take(i as int));
            assert(vs.take(i + 1 as int).last() == vs[i as int]);
            assert(vs[i as int] == entries@[i as int]@);
            lemma_excl_count_nonneg(pats, vs.take(i as int), "skipped.excluded.files"@);
            lemma_excl_count_nonneg(pats, vs.take(i as int), "skipped.excluded.directories"@);
        }
        let e = &entries[i];
        if under_excluded(&xd, &e.apath) {
            proof {
                let xdv = xd@.map_values(|p: Vec<u8>| p@);
                assert(exists|j: int|
                    0 <= j < xdv.len() && is_descendant(#[trigger] xdv[j], vs[i as int].apath)) by {
                    let j = choose|j: int|
                        0 <= j < xd@.len() && is_descendant(#[trigger] xd@[j]@, e.apath@);
                    assert(xdv[j] == xd@[j]@);
                }
            }
            // Below an excluded directory: suppressed without counting.
        } else {
            proof {
                let xdv = xd@.map_values(|p: Vec<u8>| p@);
                assert forall|j: int|
                    0 <= j < xdv.len() implies !is_descendant(
                    #[trigger] xdv[j],
                    vs[i as int].apath,
                ) by {
                    assert(xdv[j] == xd@[j]@);
                }
            }
            if is_match(excludes, &e.apath) {
                match e.kind {
                    Kind::Dir => {
                        report.increment("skipped.excluded.directories");
                        let ap = e.apath.clone();
                        let ghost oxd = xd@.map_values(|p: Vec<u8>| p@);
                        xd.push(ap);
                        proof {
                            assert(xd@.map_values(|p: Vec<u8>| p@) =~= oxd.push(
                                vs[i as int].apath,
                            ));
                        }
                    },
                    _ => {
                        report.increment("skipped.excluded.files");
                    },
                }
            } else {
                let kept = IndexEntry {
                    apath: e.apath.clone(),
                    mtime: e.mtime,
                    kind: e.kind,
                    addrs: clone_addrs(&e.addrs),
                    blake2b: clone_opt_bytes(&e.blake2b),
                    target: clone_opt_bytes(&e.target),
                };
                let ghost oout = entries_view(out@);
                proof {
                    assert(kept@ == vs[i as int]);
                }
                out.push(kept);
                proof {
                    assert(entries_view(out@) =~= oout.push(vs[i as int]));
                }
            }
        }
        i = i + 1;
    }
    proof {
        assert(vs.take(vs.len() as int) =~= vs);
    }
    out
}

/// Clone a list of addresses, keeping every field.
pub fn clone_addrs(v: &Vec<crate::index::Address>) -> (r: Vec<crate::index::Address>)
    ensures
        crate::index::addrs_view(r@) == crate::index::addrs_view(v@),
{
    let mut r: Vec<crate::index::Address> = Vec::new();
    let mut i: usize = 0;
    while i < v.len()
        invariant
            i <= v.len(),
            r@.len() == i,
            forall|j: int| 0 <= j < i ==> r@[j]@ == v@[j]@,
        decreases v.len() - i,
    {
        let a = &v[i];
        r.push(crate::index::Address { hash: a.hash.clone(), start: a.start, len: a.len });
        i = i + 1;
    }
    proof {
        assert(crate::index::addrs_view(r@) =~= crate::index::addrs_view(v@));
    }
    r
}

/// Clone an optional byte string.
pub fn clone_opt_bytes(v: &Option<Vec<u8>>) -> (r: Option<Vec<u8>>)
    ensures
        (match (v, r) {
            (Some(a), Some(b)) => a@ == b@,
            (None, None) => true,
            _ => false,
        }),
{
    match v {
        Some(a) => Some(a.clone()),
        None => None,
    }
}

} // verus!

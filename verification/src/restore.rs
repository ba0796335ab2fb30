//! Restore: read the newest complete band back out of the archive,
//! reconstructing file bodies from their blocks.

use vstd::prelude::*;
use crate::archive::Archive;
use crate::backup::LiveEntry;
use crate::blockdir::read_spec;
use crate::error::Error;
use crate::index::{Kind, entries_view, hunks_entries};
use crate::report::Report;

verus! {

/// An archive a restore run is owed to succeed on: every band directory
/// is named by an id and has a readable head, some band is closed, and
/// every closed band's hunks decode with every file's addresses
/// resolving to matching blocks.
pub open spec fn restore_ready(a: &Archive) -> bool {
    &&& (forall|j: int|
        0 <= j < a.bands_view().len() ==> match crate::bandid::sp_band_name(
            #[trigger] a.bands_view()[j].0,
        ) {
            Some(s) => (a.band_at(crate::bandid::name_of(s)) matches Some(fs)
                && crate::band::head_ok(fs)),
            None => false,
        })
    &&& (exists|j: int|
        0 <= j < a.bands_view().len() && (match crate::bandid::sp_band_name(
            #[trigger] a.bands_view()[j].0,
        ) {
            Some(s) => a.band_at(crate::bandid::name_of(s)) matches Some(f2) && f2.tail is Some,
            None => false,
        }))
    &&& (forall|id: Seq<u32>|
        match #[trigger] a.band_at(crate::bandid::name_of(id)) {
            Some(fs) => fs.tail is Some ==> (hunks_entries(fs.hunks) matches Some(es) && (forall|
                x: int,
            |
                0 <= x < es.len() && (#[trigger] es[x]).kind is File ==> read_spec(
                    a.blocks_view(),
                    es[x].addrs,
                ) is Some)),
            None => true,
        })
}

/// This closed band holds a file whose addresses do not read back.
pub open spec fn band_has_unreadable_file(a: &Archive, id: Seq<u32>) -> bool {
    match a.band_at(crate::bandid::name_of(id)) {
        Some(fs) => fs.tail is Some && crate::band::head_ok(fs) && (match hunks_entries(
            fs.hunks,
        ) {
            Some(es) => exists|x: int|
                0 <= x < es.len() && (#[trigger] es[x]).kind is File && read_spec(
                    a.blocks_view(),
                    es[x].addrs,
                ) is None,
            None => false,
        }),
        None => false,
    }
}

/// Read the newest complete band: every index entry of the closed band
/// with the largest id comes back as a tree entry, and each file's
/// content is the concatenation of its addressed block ranges, re-checked
/// against their hashes.
pub fn restore(archive: &Archive, report: &mut Report) -> (r: Result<Vec<LiveEntry>, Error>)
    requires
        archive.wf(),
    ensures
        match r {
            Ok(v) => exists|id: Seq<u32>, es: Seq<crate::index::IndexEntryV>|
                {
                    &&& #[trigger] entries_view_len(es) == v@.len()
                    &&& (#[trigger] archive.band_at(crate::bandid::name_of(id)) matches Some(fs)
                        && fs.tail is Some && crate::band::head_ok(fs) && hunks_entries(fs.hunks)
                        == Some(es))
                    &&& (forall|j: int|
                        0 <= j < archive.bands_view().len() ==> match crate::bandid::sp_band_name(
                            #[trigger] archive.bands_view()[j].0,
                        ) {
                            Some(s) => ((archive.band_at(crate::bandid::name_of(s))
                                matches Some(f2) && f2.tail is Some) ==> !crate::bandid::id_lt(
                                id,
                                s,
                            )),
                            None => false,
                        })
                    &&& (forall|i: int|
                        0 <= i < v@.len() ==> {
                            let le = (#[trigger] v@[i])@;
                            let ie = es[i];
                            &&& le.apath == ie.apath
                            &&& le.kind == ie.kind
                            &&& le.mtime == ie.mtime
                            &&& (ie.kind is File ==> read_spec(archive.blocks_view(), ie.addrs)
                                == Some(le.content))
                            &&& le.target == ie.target
                        })
                },
            Err(e) => {
                &&& (e is NoCompleteBands || e is InvalidBandId || e is FileMissing || e is Json
                    || e is UnsupportedBandVersion || e is IndexCorrupt || e is BlockNotFound
                    || e is BlockCorrupt)
                &&& (e is NoCompleteBands ==> forall|j: int|
                    0 <= j < archive.bands_view().len() ==> match crate::bandid::sp_band_name(
                        #[trigger] archive.bands_view()[j].0,
                    ) {
                        Some(s) => (archive.band_at(crate::bandid::name_of(s)) matches Some(f2)
                            ==> f2.tail is None),
                        None => false,
                    })
                &&& (e is InvalidBandId ==> exists|j: int|
                    0 <= j < archive.bands_view().len() && crate::bandid::sp_band_name(
                        #[trigger] archive.bands_view()[j].0,
                    ) is None)
                &&& ((e is FileMissing || e is Json || e is UnsupportedBandVersion) ==> exists|
                    j: int,
                |
                    0 <= j < archive.bands_view().len() && (crate::bandid::sp_band_name(
                        #[trigger] archive.bands_view()[j].0,
                    ) matches Some(s) && !(archive.band_at(crate::bandid::name_of(s))
                        matches Some(fs) && crate::band::head_ok(fs))))
                &&& (e is IndexCorrupt ==> exists|id: Seq<u32>|
                    #[trigger] archive.band_at(crate::bandid::name_of(id)) matches Some(fs)
                        && fs.tail is Some && crate::band::head_ok(fs) && hunks_entries(
                        fs.hunks,
                    ) is None)
                &&& ((e is BlockNotFound || e is BlockCorrupt) ==> exists|id: Seq<u32>|
                    #[trigger] band_has_unreadable_file(archive, id))
            },
        },
        restore_ready(archive) ==> r is Ok,
{
    let band = match archive.last_complete_band(report) {
        Ok(b) => b,
        Err(e) => {
            proof {
                if restore_ready(archive) {
                    if e is NoCompleteBands {
                        let j = choose|j: int|
                            0 <= j < archive.bands_view().len() && (match crate::bandid::sp_band_name(
                                #[trigger] archive.bands_view()[j].0,
                            ) {
                                Some(s) => archive.band_at(crate::bandid::name_of(s))
                                    matches Some(f2) && f2.tail is Some,
                                None => false,
                            });
                        assert(false);
                    } else if e is InvalidBandId {
                        let j = choose|j: int|
                            0 <= j < archive.bands_view().len() && crate::bandid::sp_band_name(
                                #[trigger] archive.bands_view()[j].0,
                            ) is None;
                        assert(false);
                    } else {
                        let j = choose|j: int|
                            0 <= j < archive.bands_view().len() && (crate::bandid::sp_band_name(
                                #[trigger] archive.bands_view()[j].0,
                            ) matches Some(s) && !(archive.band_at(crate::bandid::name_of(s))
                                matches Some(fs) && crate::band::head_ok(fs)));
                        assert(false);
                    }
                }
            }
            return Err(e);
        },
    };
    let (entries, bad) = band.iter_entries(archive, report);
    match bad {
        Some(e) => {
            proof {
                let id = band.id_view();
                assert(archive.band_at(crate::bandid::name_of(id)) matches Some(fs) && fs.tail is Some
                    && crate::band::head_ok(fs) && hunks_entries(fs.hunks) is None);
            }
            return Err(e);
        },
        None => {},
    }
    let ghost es = entries_view(entries@);
    let mut out: Vec<LiveEntry> = Vec::new();
    let mut i: usize = 0;
    while i < entries.len()
        invariant
            i <= entries.len(),
            band.wf(),
            archive.band_at(crate::bandid::name_of(band.id_view())) matches Some(fs)
                && fs.tail is Some && crate::band::head_ok(fs) && hunks_entries(fs.hunks) == Some(
                es,
            ),
            es == entries_view(entries@),
            es.len() == entries.len(),
            out@.len() == i,
            forall|k: int|
                0 <= k < i ==> {
                    let le = (#[trigger] out@[k])@;
                    let ie = es[k];
                    &&& le.apath == ie.apath
                    &&& le.kind == ie.kind
                    &&& le.mtime == ie.mtime
                    &&& (ie.kind is File ==> read_spec(archive.blocks_view(), ie.addrs) == Some(
                        le.content,
                    ))
                    &&& le.target == ie.target
                },
        decreases entries.len() - i,
    {
        proof {
            assert(es[i as int] == entries@[i as int]@);
        }
        let e = &entries[i];
        let content: Vec<u8> = match e.kind {
            Kind::File => {
                match archive.block_dir.read(&e.addrs) {
                    Ok(c) => c,
                    Err(err) => {
                        proof {
                            let id = band.id_view();
                            assert(crate::index::addrs_view(e.addrs@) == es[i as int].addrs);
                            assert(band_has_unreadable_file(archive, id)) by {
                                assert(0 <= i < es.len() && es[i as int].kind is File
                                    && read_spec(archive.blocks_view(), es[i as int].addrs)
                                    is None);
                            }
                            if restore_ready(archive) {
                                assert(false);
                            }
                        }
                        return Err(err);
                    },
                }
            },
            _ => Vec::new(),
        };
        let le = LiveEntry {
            apath: e.apath.clone(),
            kind: e.kind,
            mtime: e.mtime,
            content,
            target: crate::excludes::clone_opt_bytes(&e.target),
        };
        out.push(le);
        i = i + 1;
    }
    proof {
        assert(entries_view_len(es) == es.len());
        let id = band.id_view();
        assert(entries_view_len(es) == out@.len() && (archive.band_at(
            crate::bandid::name_of(id),
        ) matches Some(fs) && fs.tail is Some && crate::band::head_ok(fs) && hunks_entries(
            fs.hunks,
        ) == Some(es)));
    }
    Ok(out)
}

/// The length of an entry sequence, as a named trigger.
pub open spec fn entries_view_len(es: Seq<crate::index::IndexEntryV>) -> int {
    es.len() as int
}

} // verus!

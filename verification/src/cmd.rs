//! Thin command fronts: each delegates to one core operation.

use vstd::prelude::*;
use crate::archive::Archive;
use crate::backup::{BackupOptions, LiveEntry, live_valid, live_view, make_backup};
use crate::bytes::lex_lt;
use crate::error::Error;
use crate::report::Report;

verus! {

/// Back up a walked source tree into a new band of the archive.
pub fn backup(archive: &mut Archive, source: &Vec<LiveEntry>, report: &mut Report) -> (r: Result<
    (),
    Error,
>)
    requires
        old(archive).wf(),
        forall|i: int| 0 <= i < source@.len() ==> live_valid(#[trigger] live_view(source@)[i]),
        forall|i: int, j: int|
            #![trigger live_view(source@)[i], live_view(source@)[j]]
            0 <= i < j < source@.len() ==> lex_lt(
                live_view(source@)[i].apath,
                live_view(source@)[j].apath,
            ),
    ensures
        final(archive).wf(),
        final(archive).header_view() == old(archive).header_view(),
        final(archive).path_view() == old(archive).path_view(),
        match r {
            Ok(()) => {
                &&& final(archive).bands_view().len() == old(archive).bands_view().len() + 1
                &&& final(archive).bands_view().take(old(archive).bands_view().len() as int)
                    == old(archive).bands_view()
                &&& {
                    let nb = final(archive).bands_view().last();
                    &&& crate::bandid::sp_band_name(nb.0) is Some
                    &&& nb.1.tail is Some
                    &&& crate::band::head_ok(nb.1)
                    &&& crate::index::hunks_entries(nb.1.hunks) == Some(
                        crate::backup::plain_entries(live_view(source@)),
                    )
                }
                &&& final(archive).blocks_view() == crate::backup::plain_blocks(
                    old(archive).blocks_view(),
                    live_view(source@),
                )
                &&& final(report).count_of("block.write"@) == crate::backup::sat_add(
                    old(report).count_of("block.write"@),
                    crate::backup::plain_writes(old(archive).blocks_view(), live_view(source@)),
                )
                &&& (forall|name: Seq<char>|
                    #[trigger] crate::backup::pipeline_counter_name(name) ==> final(report).count_of(name) == crate::backup::sat_add(
                        old(report).count_of(name),
                        crate::backup::plain_count(live_view(source@), name),
                    ))
                &&& (forall|n: Seq<char>|
                    !crate::backup::pipeline_counter_name(n) && n != "block.write"@ ==> final(report).count_of(n) == old(report).count_of(n))
            },
            Err(e) => {
                &&& *final(archive) == *old(archive)
                &&& *final(report) == *old(report)
                &&& ((e is InvalidBandId && exists|j: int|
                    0 <= j < old(archive).bands_view().len() && crate::bandid::sp_band_name(
                        #[trigger] old(archive).bands_view()[j].0,
                    ) is None) || (e is CreateBand && exists|m: Seq<u32>|
                    #[trigger] crate::archive::is_max_id(old(archive), m) && m.len() >= 1
                        && m.last() == u32::MAX))
            },
        },
{
    let options = BackupOptions::default();
    let r = make_backup(source, archive, &options, report);
    proof {
        crate::backup::lemma_bfilt_nothing(options.pats_view(), live_view(source@));
        crate::backup::lemma_backup_blocks_nothing(
            old(archive).blocks_view(),
            options.pats_view(),
            live_view(source@),
        );
        assert forall|name: Seq<char>|
            #[trigger] crate::backup::pipeline_counter_name(name) implies crate::backup::pipeline_count(
            options.pats_view(),
            live_view(source@),
            name,
        ) == crate::backup::plain_count(live_view(source@), name) by {
            crate::backup::lemma_pipeline_count_nothing(
                options.pats_view(),
                live_view(source@),
                name,
            );
        }
    }
    r
}

/// Make a new, empty archive at a location.
pub fn init(path: Vec<u8>) -> (r: Archive)
    ensures
        r.wf(),
        r.bands_view() == Seq::<(Seq<u8>, crate::archive::BandFsV)>::empty(),
        r.blocks_view() == Seq::<(Seq<u8>, Seq<u8>)>::empty(),
        r.path_view() == path@,
{
    Archive::create(path)
}

/// Read the newest complete band back out of the archive: the closed
/// band with the largest id, with each file's content reconstructed.
pub fn restore(archive: &Archive, report: &mut Report) -> (r: Result<Vec<LiveEntry>, Error>)
    requires
        archive.wf(),
    ensures
        r matches Ok(v) ==> exists|id: Seq<u32>, es: Seq<crate::index::IndexEntryV>|
            {
                &&& #[trigger] crate::restore::entries_view_len(es) == v@.len()
                &&& (#[trigger] archive.band_at(crate::bandid::name_of(id)) matches Some(fs)
                    && fs.tail is Some && crate::band::head_ok(fs) && crate::index::hunks_entries(
                    fs.hunks,
                ) == Some(es))
                &&& (forall|j: int|
                    0 <= j < archive.bands_view().len() ==> match crate::bandid::sp_band_name(
                        #[trigger] archive.bands_view()[j].0,
                    ) {
                        Some(s) => ((archive.band_at(crate::bandid::name_of(s)) matches Some(f2)
                            && f2.tail is Some) ==> !crate::bandid::id_lt(id, s)),
                        None => false,
                    })
                &&& (forall|i: int|
                    0 <= i < v@.len() ==> {
                        let le = (#[trigger] v@[i])@;
                        let ie = es[i];
                        &&& le.apath == ie.apath
                        &&& le.kind == ie.kind
                        &&& le.mtime == ie.mtime
                        &&& (ie.kind is File ==> crate::blockdir::read_spec(
                            archive.blocks_view(),
                            ie.addrs,
                        ) == Some(le.content))
                        &&& le.target == ie.target
                    })
            },
        crate::restore::restore_ready(archive) ==> r is Ok,
        r matches Err(e) ==> {
            &&& (e is NoCompleteBands || e is InvalidBandId || e is FileMissing || e is Json
                || e is UnsupportedBandVersion || e is IndexCorrupt || e is BlockNotFound
                || e is BlockCorrupt)
            &&& (e is NoCompleteBands ==> forall|j: int|
                0 <= j < archive.bands_view().len() ==> match crate::bandid::sp_band_name(
                    #[trigger] archive.bands_view()[j].0,
                ) {
                    Some(s) => (archive.band_at(crate::bandid::name_of(s)) matches Some(f2)
                        ==> f2.tail is None),
                    None => false,
                })
            &&& ((e is BlockNotFound || e is BlockCorrupt) ==> exists|id: Seq<u32>|
                #[trigger] crate::restore::band_has_unreadable_file(archive, id))
        },
{
    crate::restore::restore(archive, report)
}

} // verus!

//! Bands: one backup generation each, living under the archive root.
//!
//! A band's life is `Creating -> Open -> Closed`. The head record is
//! written at creation; the tail record is written only at a clean close,
//! and its presence is the sole signal that the band is complete. State
//! is never cached: it is recomputed from the archive image on each call.

use vstd::prelude::*;
use crate::archive::{Archive, BandFs, BandFsV};
use crate::bandid::{BandId, id_lt, name_of, sp_band_name, lemma_band_name_roundtrip, lemma_id_total, lemma_id_trans, lemma_id_irrefl};
use crate::bytes::{ascii_bytes, lit_bytes};
use crate::codec::json_safe;
use crate::error::Error;
use crate::records::{
    sp_head, sp_tail, encode_head, encode_tail, decode_head, decode_tail, lemma_head_roundtrip,
    lemma_tail_roundtrip,
};
use crate::report::Report;

verus! {

/// Band format version written into new heads. Bands written by this
/// code can be read back by any version at or after this one.
pub const BAND_FORMAT_VERSION: &'static str = "0.6.3";

/// Newest band format version this code reads.
pub const BAND_VERSION_REQUIREMENT: &'static str = "<=0.6.3";

/// Whether version string `v` is a semantic version that satisfies
/// requirement `req`: a function of the two strings alone, decided by
/// the semver crate.
pub uninterp spec fn semver_matches(req: Seq<u8>, v: Seq<u8>) -> bool;

/// Relies on semver's `VersionReq::parse`, `Version::parse` and
/// `VersionReq::matches`: `0.6.3` satisfies `<=0.6.3`, `0.8.8` does not,
/// and an unparseable string satisfies nothing.
#[verifier::external_body]
fn version_matches_req(req: &Vec<u8>, v: &Vec<u8>) -> (r: bool)
    ensures
        r == semver_matches(req@, v@),
        req@ == ascii_bytes("<=0.6.3"@) && v@ == ascii_bytes("0.6.3"@) ==> r,
        req@ == ascii_bytes("<=0.6.3"@) && v@ == ascii_bytes("0.8.8"@) ==> !r,
{
    let (req, v) = match (std::str::from_utf8(req.as_slice()), std::str::from_utf8(v.as_slice())) {
        (Ok(a), Ok(b)) => (a, b),
        _ => return false,
    };
    match (semver::VersionReq::parse(req), semver::Version::parse(v)) {
        (Ok(rq), Ok(ver)) => rq.matches(&ver),
        _ => false,
    }
}

/// Relies on chrono's `DateTime::from_timestamp` and `timestamp`, over
/// the system clock: the current wall-clock time in seconds since the
/// Unix epoch. Nothing is promised of the value: the clock may move
/// arbitrarily between calls. Never panics: a clock before the epoch or
/// outside chrono's range reads as 0.
#[verifier::external_body]
fn now_unix_seconds() -> i64 {
    let secs = match std::time::SystemTime::now().duration_since(std::time::UNIX_EPOCH) {
        Ok(d) => d.as_secs() as i64,
        Err(_) => 0,
    };
    match chrono::DateTime::<chrono::Utc>::from_timestamp(secs, 0) {
        Some(t) => t.timestamp(),
        None => 0,
    }
}

/// Is a band head's format version one this code reads?
pub fn band_version_supported(v: &Vec<u8>) -> (r: bool)
    ensures
        r == semver_matches(ascii_bytes(BAND_VERSION_REQUIREMENT@), v@),
        v@ == ascii_bytes("0.6.3"@) ==> r,
        v@ == ascii_bytes("0.8.8"@) ==> !r,
{
    proof {
        reveal_strlit("<=0.6.3");
    }
    let req = lit_bytes(BAND_VERSION_REQUIREMENT);
    version_matches_req(&req, v)
}

/// A band's head decodes and names a readable format version; a head
/// with no version marker at all is a legacy band and is accepted.
pub open spec fn head_ok(b: BandFsV) -> bool {
    match b.head {
        None => false,
        Some(h) => match sp_head(h) {
            None => false,
            Some((t, None)) => true,
            Some((t, Some(v))) => semver_matches(ascii_bytes(BAND_VERSION_REQUIREMENT@), v),
        },
    }
}

/// Start time recorded in a band's head.
pub open spec fn head_start_time(b: BandFsV) -> i64
    recommends
        head_ok(b),
{
    sp_head(b.head.unwrap()).unwrap().0
}

/// Readonly summary info about a band, from `Band::get_info`.
#[derive(Debug)]
pub struct Info {
    /// Which band this is.
    pub id: BandId,
    /// Whether a tail record exists.
    pub is_closed: bool,
    /// Seconds since the epoch when writing of this band began.
    pub start_time: i64,
    /// Seconds since the epoch when the band was closed, if it was.
    pub end_time: Option<i64>,
}

/// A handle on one band of an archive. The band's state lives in the
/// archive image; the handle only names it.
#[derive(Debug)]
pub struct Band {
    band_id: BandId,
}

impl Band {
    /// The id this handle names.
    pub closed spec fn id_view(&self) -> Seq<u32> {
        self.band_id@
    }

    /// A handle is well formed when its id is.
    pub open spec fn wf(&self) -> bool {
        self.id_view().len() >= 1
    }

    /// The directory name of the band this handle names.
    pub open spec fn name_view(&self) -> Seq<u8> {
        name_of(self.id_view())
    }

    /// The id of this band.
    pub fn id(&self) -> (r: &BandId)
        ensures
            r@ == self.id_view(),
    {
        &self.band_id
    }

    /// Make a new band in the archive: it gets the next id after those
    /// that already exist, a directory with an index subdirectory, and a
    /// head record carrying the start time and the current band format
    /// version. The new band is open: it has no tail.
    pub fn create(archive: &mut Archive) -> (r: Result<Band, Error>)
        requires
            old(archive).wf(),
        ensures
            match r {
                Ok(b) => {
                    &&& b.wf()
                    &&& final(archive).wf()
                    &&& final(archive).bands_view() == old(archive).bands_view().push(
                        final(archive).bands_view().last(),
                    )
                    &&& final(archive).bands_view().last().0 == name_of(b.id_view())
                    &&& sp_band_name(name_of(b.id_view())) == Some(b.id_view())
                    &&& {
                        let fs = final(archive).bands_view().last().1;
                        &&& fs.tail is None
                        &&& fs.hunks == Seq::<Seq<u8>>::empty()
                        &&& fs.extra_files == Seq::<Seq<u8>>::empty()
                        &&& fs.extra_dirs == Seq::<Seq<u8>>::empty()
                        &&& head_ok(fs)
                        &&& (fs.head matches Some(h) && sp_head(h) matches Some((t, v)) && v
                            == Some(ascii_bytes(BAND_FORMAT_VERSION@)))
                    }
                    &&& (old(archive).bands_view().len() == 0 ==> b.id_view() == seq![0u32])
                    &&& (old(archive).bands_view().len() > 0 ==> exists|m: Seq<u32>|
                        #[trigger] crate::archive::is_max_id(old(archive), m) && m.len() >= 1
                            && m.last() < u32::MAX && b.id_view() == m.update(
                            m.len() - 1,
                            (m.last() + 1) as u32,
                        ))
                    &&& (forall|j: int|
                        0 <= j < old(archive).bands_view().len() ==> match sp_band_name(
                            #[trigger] old(archive).bands_view()[j].0,
                        ) {
                            Some(s) => id_lt(s, b.id_view()),
                            None => false,
                        })
                    &&& final(archive).blocks_view() == old(archive).blocks_view()
                    &&& final(archive).header_view() == old(archive).header_view()
                    &&& final(archive).path_view() == old(archive).path_view()
                },
                Err(e) => {
                    &&& *final(archive) == *old(archive)
                    &&& (e is InvalidBandId || e is CreateBand)
                    &&& (e is InvalidBandId ==> exists|j: int|
                        0 <= j < old(archive).bands_view().len() && sp_band_name(
                            #[trigger] old(archive).bands_view()[j].0,
                        ) is None)
                    &&& (e is CreateBand ==> exists|m: Seq<u32>|
                        #[trigger] crate::archive::is_max_id(old(archive), m) && m.len() >= 1
                            && m.last() == u32::MAX)
                },
            },
    {
        proof {
            reveal_strlit("0.6.3");
        }
        let band_id = if archive.bands_list().len() == 0 {
            BandId::zero()
        } else {
            let last = match archive.last_band_id() {
                Ok(id) => id,
                Err(e) => {
                    return Err(e);
                },
            };
            proof {
                assert(crate::archive::is_max_id(old(archive), last@));
            }
            if last.last_segment() == 4294967295u32 {
                return Err(Error::CreateBand);
            }
            let nid = last.next_sibling();
            proof {
                // Every old band id is strictly below the new one.
                assert forall|j: int|
                    0 <= j < old(archive).bands_view().len() implies match sp_band_name(
                    #[trigger] old(archive).bands_view()[j].0,
                ) {
                    Some(s) => id_lt(s, nid@),
                    None => false,
                } by {
                    match sp_band_name(old(archive).bands_view()[j].0) {
                        Some(s) => {
                            lemma_id_total(s, last@);
                            if id_lt(s, last@) {
                                lemma_id_trans(s, last@, nid@);
                            } else if id_lt(last@, s) {
                                assert(false);
                            }
                        },
                        None => {},
                    }
                }
            }
            nid
        };
        let name = band_id.name();
        proof {
            lemma_band_name_roundtrip(band_id@);
            // So the new directory name is fresh.
            assert forall|j: int|
                0 <= j < old(archive).bands_view().len() implies #[trigger] old(
                archive,
            ).bands_view()[j].0 != name@ by {
                if old(archive).bands_view()[j].0 == name@ {
                    assert(sp_band_name(old(archive).bands_view()[j].0) == Some(band_id@));
                    assert(id_lt(band_id@, band_id@));
                    lemma_id_irrefl(band_id@);
                }
            }
        }
        let head_version = lit_bytes(BAND_FORMAT_VERSION);
        let vok = band_version_supported(&head_version);
        let start = now_unix_seconds();
        let head = encode_head(start, Some(&head_version));
        let mut fs = BandFs::empty();
        fs.head = Some(head);
        proof {
            lemma_head_roundtrip(start, Some(ascii_bytes(BAND_FORMAT_VERSION@)));
        }
        archive.push_band(name, fs);
        proof {
            assert(final(archive).bands_view().take(old(archive).bands_view().len() as int)
                =~= old(archive).bands_view());
            assert(final(archive).bands_view() =~= old(archive).bands_view().push(
                final(archive).bands_view().last(),
            ));
        }
        Ok(Band { band_id })
    }

    /// Open the band with the given id: its head must exist, decode, and
    /// name a readable format version (or none, for legacy bands).
    pub fn open(archive: &Archive, band_id: &BandId) -> (r: Result<Band, Error>)
        requires
            band_id@.len() >= 1,
        ensures
            match r {
                Ok(b) => {
                    &&& b.wf()
                    &&& b.id_view() == band_id@
                    &&& archive.band_at(name_of(band_id@)) matches Some(fs) && head_ok(fs)
                },
                Err(e) => {
                    &&& (e is FileMissing || e is Json || e is UnsupportedBandVersion)
                    &&& (archive.band_at(name_of(band_id@)) matches Some(fs) ==> !head_ok(fs))
                    &&& (e is FileMissing ==> (match archive.band_at(name_of(band_id@)) {
                        None => true,
                        Some(fs) => fs.head is None,
                    }))
                    &&& (e is Json ==> (archive.band_at(name_of(band_id@)) matches Some(fs)
                        && fs.head matches Some(h) && sp_head(h) is None))
                    &&& (e is UnsupportedBandVersion ==> (archive.band_at(name_of(band_id@))
                        matches Some(fs) && fs.head matches Some(h) && sp_head(h) matches Some(
                        (t, Some(v),
                    )) && !semver_matches(ascii_bytes(BAND_VERSION_REQUIREMENT@), v)))
                },
            },
    {
        let name = band_id.name();
        let i = match archive.find_band(&name) {
            Some(i) => i,
            None => {
                return Err(Error::FileMissing);
            },
        };
        let fs = archive.band_fs_at(i);
        let head = match &fs.head {
            Some(h) => h,
            None => {
                return Err(Error::FileMissing);
            },
        };
        let (_start, version) = match decode_head(head) {
            Some(x) => x,
            None => {
                return Err(Error::Json);
            },
        };
        match version {
            Some(v) => {
                if !band_version_supported(&v) {
                    return Err(Error::UnsupportedBandVersion { band_name: name, version: v });
                }
            },
            None => {
                // Unmarked legacy bands are accepted.
            },
        }
        Ok(Band { band_id: band_id.clone() })
    }

    /// Is this band closed? Recomputed from the tail file's existence on
    /// every call, never cached.
    pub fn is_closed(&self, archive: &Archive) -> (r: Result<bool, Error>)
        requires
            self.wf(),
        ensures
            match r {
                Ok(c) => archive.band_at(self.name_view()) matches Some(fs) && c == (
                fs.tail is Some),
                Err(e) => archive.band_at(self.name_view()) is None && e is FileMissing,
            },
    {
        let name = self.band_id.name();
        let i = match archive.find_band(&name) {
            Some(i) => i,
            None => {
                return Err(Error::FileMissing);
            },
        };
        let fs = archive.band_fs_at(i);
        match &fs.tail {
            Some(_) => Ok(true),
            None => Ok(false),
        }
    }

    /// Mark this band closed by writing its tail record. The recorded end
    /// time never precedes the recorded start time, even if the clock
    /// stepped backwards between the two writes.
    pub fn close(&self, archive: &mut Archive) -> (r: Result<(), Error>)
        requires
            self.wf(),
            old(archive).wf(),
        ensures
            final(archive).wf(),
            final(archive).blocks_view() == old(archive).blocks_view(),
            final(archive).header_view() == old(archive).header_view(),
            final(archive).path_view() == old(archive).path_view(),
            final(archive).bands_view().len() == old(archive).bands_view().len(),
            forall|k: int|
                0 <= k < old(archive).bands_view().len() ==> (
                #[trigger] final(archive).bands_view()[k]).0 == old(archive).bands_view()[k].0,
            match r {
                Ok(()) => {
                    &&& old(archive).band_at(self.name_view()) matches Some(ofs) && sp_head(
                        ofs.head.unwrap(),
                    ) is Some
                    &&& final(archive).band_at(self.name_view()) matches Some(fs) && {
                        let ofs = old(archive).band_at(self.name_view()).unwrap();
                        &&& fs.head == ofs.head
                        &&& fs.hunks == ofs.hunks
                        &&& fs.extra_files == ofs.extra_files
                        &&& fs.extra_dirs == ofs.extra_dirs
                        &&& fs.tail matches Some(t) && sp_tail(t) matches Some(et) && et
                            >= head_start_time(ofs)
                    }
                    &&& (forall|n: Seq<u8>|
                        n != self.name_view() ==> final(archive).band_at(n) == old(
                            archive,
                        ).band_at(n))
                },
                Err(e) => {
                    &&& *final(archive) == *old(archive)
                    &&& (e is FileMissing || e is Json)
                    &&& (e is FileMissing ==> match old(archive).band_at(self.name_view()) {
                        None => true,
                        Some(fs) => fs.head is None,
                    })
                    &&& (e is Json ==> (old(archive).band_at(self.name_view()) matches Some(fs)
                        && fs.head matches Some(h) && sp_head(h) is None))
                },
            },
    {
        let name = self.band_id.name();
        let i = match archive.find_band(&name) {
            Some(i) => i,
            None => {
                return Err(Error::FileMissing);
            },
        };
        let fs = archive.band_fs_at(i);
        let head = match &fs.head {
            Some(h) => h.clone(),
            None => {
                return Err(Error::FileMissing);
            },
        };
        let (start, _version) = match decode_head(&head) {
            Some(x) => x,
            None => {
                return Err(Error::Json);
            },
        };
        let now = now_unix_seconds();
        let end: i64 = if now >= start {
            now
        } else {
            start
        };
        let tail = encode_tail(end);
        proof {
            lemma_tail_roundtrip(end);
        }
        let old_fs = archive.band_fs_at(i);
        let new_fs = BandFs {
            head: Some(head),
            tail: Some(tail),
            hunks: crate::bytes::byte_vecs_clone(&old_fs.hunks),
            extra_files: crate::bytes::byte_vecs_clone(&old_fs.extra_files),
            extra_dirs: crate::bytes::byte_vecs_clone(&old_fs.extra_dirs),
        };
        let ghost obv = archive.bands_view();
        archive.set_band(i, new_fs);
        proof {
            assert forall|k: int|
                0 <= k < obv.len() implies (#[trigger] archive.bands_view()[k]).0 == obv[k].0 by {
            }
            lemma_band_update_lookup(obv, archive.bands_view(), i as int, self.name_view());
            assert(final(archive).band_at(self.name_view()) == Some(
                final(archive).bands_view()[i as int].1,
            ));
        }
        Ok(())
    }

    /// Info about the current state of this band: id, closed flag, start
    /// time, and, only once closed, the end time.
    pub fn get_info(&self, archive: &Archive) -> (r: Result<Info, Error>)
        requires
            self.wf(),
        ensures
            match r {
                Ok(info) => archive.band_at(self.name_view()) matches Some(fs) && {
                    &&& info.id@ == self.id_view()
                    &&& fs.head matches Some(h) && sp_head(h) matches Some((t, v)) && info.start_time
                        == t
                    &&& info.is_closed == (fs.tail is Some)
                    &&& (match fs.tail {
                        None => info.end_time is None,
                        Some(tb) => sp_tail(tb) matches Some(et) && info.end_time == Some(et),
                    })
                },
                Err(e) => {
                    &&& (e is FileMissing || e is Json)
                    &&& (e is FileMissing ==> match archive.band_at(self.name_view()) {
                        None => true,
                        Some(fs) => fs.head is None,
                    })
                    &&& (e is Json ==> (archive.band_at(self.name_view()) matches Some(fs)
                        && fs.head matches Some(h) && (sp_head(h) is None || (fs.tail
                        matches Some(t) && sp_tail(t) is None))))
                },
            },
    {
        let name = self.band_id.name();
        let i = match archive.find_band(&name) {
            Some(i) => i,
            None => {
                return Err(Error::FileMissing);
            },
        };
        let fs = archive.band_fs_at(i);
        let head = match &fs.head {
            Some(h) => h,
            None => {
                return Err(Error::FileMissing);
            },
        };
        let (start, _version) = match decode_head(head) {
            Some(x) => x,
            None => {
                return Err(Error::Json);
            },
        };
        let (is_closed, end_time) = match &fs.tail {
            Some(t) => {
                match decode_tail(t) {
                    Some(et) => (true, Some(et)),
                    None => {
                        return Err(Error::Json);
                    },
                }
            },
            None => (false, None),
        };
        Ok(Info { id: self.band_id.clone(), is_closed, start_time: start, end_time })
    }

    /// An index builder writing into this band's index directory.
    pub fn index_builder(&self) -> (r: crate::index::IndexBuilder)
        requires
            self.wf(),
        ensures
            r.band_name_view() == self.name_view(),
            r.buf_view() == Seq::<crate::index::IndexEntryV>::empty(),
            r.last_view() is None,
            !r.is_done(),
            r.buf_valid(),
    {
        crate::index::IndexBuilder::new(self.band_id.name())
    }

    /// Read-only access to the index of this band.
    pub fn index(&self) -> (r: crate::index::IndexRead)
        requires
            self.wf(),
        ensures
            r.band_name_view() == self.name_view(),
    {
        crate::index::IndexRead::open(self.band_id.name())
    }

    /// All entries in this band, in apath order, with nothing excluded.
    /// A hunk that fails to decode ends the scan with `IndexCorrupt`, but
    /// the entries of the hunks before it are still handed back.
    pub fn iter_entries(&self, archive: &Archive, report: &mut Report) -> (r: (
        Vec<crate::index::IndexEntry>,
        Option<Error>,
    ))
        requires
            self.wf(),
        ensures
            match archive.band_at(self.name_view()) {
                None => r.1 matches Some(e) && e is FileMissing && r.0@.len() == 0,
                Some(fs) => match crate::index::hunks_entries(fs.hunks) {
                    Some(es) => r.1 is None && crate::index::entries_view(r.0@) == es,
                    None => r.1 matches Some(e) && e is IndexCorrupt && exists|k: int|
                        0 <= k < fs.hunks.len() && crate::index::sp_hunk(
                            #[trigger] fs.hunks[k],
                        ) is None && (crate::index::hunks_entries(fs.hunks.take(k))
                            matches Some(pre) && crate::index::entries_view(r.0@) == pre),
                },
            },
    {
        let nothing = crate::excludes::excludes_nothing();
        let rd = self.index();
        let (entries, err) = rd.iter(archive, &nothing, report);
        proof {
            match archive.band_at(self.name_view()) {
                Some(fs) => {
                    match crate::index::hunks_entries(fs.hunks) {
                        Some(es) => {
                            crate::excludes::lemma_filter_nothing(nothing.pats_view(), es);
                        },
                        None => {
                            let k = choose|k: int|
                                0 <= k < fs.hunks.len() && crate::index::sp_hunk(
                                    #[trigger] fs.hunks[k],
                                ) is None && (crate::index::hunks_entries(fs.hunks.take(k))
                                    matches Some(pre) && crate::index::entries_view(entries@)
                                    == crate::excludes::filter_excl(nothing.pats_view(), pre));
                            match crate::index::hunks_entries(fs.hunks.take(k)) {
                                Some(pre) => {
                                    crate::excludes::lemma_filter_nothing(
                                        nothing.pats_view(),
                                        pre,
                                    );
                                    assert(0 <= k < fs.hunks.len() && crate::index::sp_hunk(
                                        fs.hunks[k],
                                    ) is None && (crate::index::hunks_entries(fs.hunks.take(k))
                                        matches Some(pre2) && crate::index::entries_view(entries@)
                                        == pre2));
                                },
                                None => {},
                            }
                        },
                    }
                },
                None => {},
            }
        }
        (entries, err)
    }

    /// Check the band directory holds exactly the expected entries and
    /// count each anomaly, without aborting.
    pub fn validate(&self, archive: &Archive, report: &mut Report) -> (r: Result<(), Error>)
        requires
            self.wf(),
        ensures
            match r {
                Ok(()) => archive.band_at(self.name_view()) matches Some(fs) && {
                    let anomalies = (if fs.head is None {
                        1int
                    } else {
                        0int
                    }) + (if fs.extra_files.len() > 0 {
                        1int
                    } else {
                        0int
                    }) + (if fs.extra_dirs.len() > 0 {
                        1int
                    } else {
                        0int
                    });
                    &&& final(report).count_of("band.problem"@) == (if old(report).count_of(
                        "band.problem"@,
                    ) + anomalies <= u64::MAX {
                        (old(report).count_of("band.problem"@) + anomalies) as u64
                    } else {
                        u64::MAX
                    })
                    &&& (forall|n: Seq<char>|
                        n != "band.problem"@ ==> final(report).count_of(n) == old(
                            report,
                        ).count_of(n))
                },
                Err(e) => archive.band_at(self.name_view()) is None && e is FileMissing
                    && *final(report) == *old(report),
            },
    {
        let name = self.band_id.name();
        let i = match archive.find_band(&name) {
            Some(i) => i,
            None => {
                return Err(Error::FileMissing);
            },
        };
        let fs = archive.band_fs_at(i);
        match &fs.head {
            None => {
                report.increment("band.problem");
            },
            Some(_) => {},
        }
        if fs.extra_files.len() > 0 {
            report.increment("band.problem");
        }
        if fs.extra_dirs.len() > 0 {
            report.increment("band.problem");
        }
        Ok(())
    }
}

/// Updating the band at the first index holding `name` changes that
/// band's contents and no other.
pub proof fn lemma_band_update_lookup(
    before: Seq<(Seq<u8>, BandFsV)>,
    after: Seq<(Seq<u8>, BandFsV)>,
    i: int,
    name: Seq<u8>,
)
    requires
        0 <= i < before.len(),
        after.len() == before.len(),
        before[i].0 == name,
        after[i].0 == name,
        forall|j: int| 0 <= j < i ==> #[trigger] before[j].0 != name,
        forall|j: int| 0 <= j < before.len() && j != i ==> after[j] == before[j],
    ensures
        crate::archive::band_lookup(after, name) == Some(after[i].1),
        forall|n: Seq<u8>|
            n != name ==> crate::archive::band_lookup(after, n) == crate::archive::band_lookup(
                before,
                n,
            ),
    decreases before.len(),
{
    if i == 0 {
        assert forall|n: Seq<u8>|
            n != name implies crate::archive::band_lookup(after, n)
            == crate::archive::band_lookup(before, n) by {
            assert(after.skip(1) =~= before.skip(1));
            assert(crate::archive::band_lookup(after, n) == crate::archive::band_lookup(
                after.skip(1),
                n,
            ));
            assert(crate::archive::band_lookup(before, n) == crate::archive::band_lookup(
                before.skip(1),
                n,
            ));
        }
    } else {
        assert(after[0] == before[0]);
        assert(after.skip(1).len() == before.skip(1).len());
        assert forall|j: int| 0 <= j < i - 1 implies #[trigger] before.skip(1)[j].0 != name by {
            assert(before.skip(1)[j] == before[j + 1]);
        }
        assert forall|j: int|
            0 <= j < before.skip(1).len() && j != i - 1 implies after.skip(1)[j] == before.skip(
            1,
        )[j] by {
            assert(after.skip(1)[j] == after[j + 1]);
            assert(before.skip(1)[j] == before[j + 1]);
        }
        assert(after.skip(1)[i - 1] == after[i]);
        assert(before.skip(1)[i - 1] == before[i]);
        lemma_band_update_lookup(before.skip(1), after.skip(1), i - 1, name);
        assert(crate::archive::band_lookup(after, name) == crate::archive::band_lookup(
            after.skip(1),
            name,
        ));
        assert forall|n: Seq<u8>|
            n != name implies crate::archive::band_lookup(after, n)
            == crate::archive::band_lookup(before, n) by {
            if before[0].0 != n {
                assert(crate::archive::band_lookup(after, n) == crate::archive::band_lookup(
                    after.skip(1),
                    n,
                ));
                assert(crate::archive::band_lookup(before, n) == crate::archive::band_lookup(
                    before.skip(1),
                    n,
                ));
            }
        }
    }
}

} // verus!

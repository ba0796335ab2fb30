//! Archive-level behavior: creation, reopening, listing and bands.

use conserve_core::archive::{Archive, BandFs};
use conserve_core::band::Band;
use conserve_core::bandid::BandId;
use conserve_core::error::Error;
use conserve_core::report::Report;

fn reopen(archive: &Archive) -> Result<Archive, Error> {
    let mut bands: Vec<(Vec<u8>, BandFs)> = Vec::new();
    for (name, fs) in archive.bands_list() {
        bands.push((
            name.clone(),
            BandFs {
                head: fs.head.clone(),
                tail: fs.tail.clone(),
                hunks: fs.hunks.clone(),
                extra_files: fs.extra_files.clone(),
                extra_dirs: fs.extra_dirs.clone(),
            },
        ));
    }
    Archive::open(
        archive.path().clone(),
        Some(archive.header_bytes().clone()),
        archive.block_dir().pairs().clone(),
        bands,
    )
}

#[test]
fn create_then_open_archive() {
    let arch_path = b"conserve-tests/arch".to_vec();
    let arch = Archive::create(arch_path.clone());

    assert_eq!(arch.path(), &arch_path);
    assert!(arch.list_bands().unwrap().is_empty());

    // We can re-open it.
    reopen(&arch).unwrap();
    assert!(arch.list_bands().unwrap().is_empty());
    let mut report = Report::new();
    assert!(arch.last_complete_band(&mut report).is_err());
}

#[test]
fn init_empty_dir() {
    let arch_path = b"conserve-tests".to_vec();
    let arch = Archive::create(arch_path.clone());

    assert_eq!(arch.path(), &arch_path);
    assert!(arch.list_bands().unwrap().is_empty());

    reopen(&arch).unwrap();
    assert!(arch.list_bands().unwrap().is_empty());
}

/// A new archive contains just one header file.
/// The header is readable json containing only a version number.
#[test]
fn empty_archive() {
    let af = Archive::create(b"a".to_vec());
    let (file_names, dir_names) = af.list_dir();
    assert_eq!(file_names, vec![b"CONSERVE".to_vec()]);
    assert_eq!(dir_names, vec![b"d".to_vec()]);

    let contents = af.header_bytes();
    assert_eq!(contents, &b"{\"conserve_archive_version\":\"0.5\"}\n".to_vec());

    match af.last_band_id().unwrap_err() {
        Error::ArchiveEmpty => (),
        ref x => panic!("Unexpected error {:?}", x),
    }

    let mut report = Report::new();
    match af.last_complete_band(&mut report).unwrap_err() {
        Error::NoCompleteBands => (),
        ref x => panic!("Unexpected error {:?}", x),
    }

    assert!(af.referenced_blocks(&mut report).unwrap().is_empty());
    assert!(af.block_dir().blocks().is_empty());
}

#[test]
fn create_bands() {
    let mut af = Archive::create(b"a".to_vec());

    // Make one band
    let _band1 = Band::create(&mut af).unwrap();
    let (_file_names, mut dir_names) = af.list_dir();
    dir_names.sort();
    assert_eq!(dir_names, vec![b"b0000".to_vec(), b"d".to_vec()]);

    assert_eq!(af.list_bands().unwrap(), vec![BandId::new(vec![0])]);
    assert_eq!(af.last_band_id().unwrap(), BandId::new(vec![0]));

    // Try creating a second band.
    let _band2 = Band::create(&mut af).unwrap();
    assert_eq!(
        af.list_bands().unwrap(),
        vec![BandId::new(vec![0]), BandId::new(vec![1])]
    );
    assert_eq!(af.last_band_id().unwrap(), BandId::new(vec![1]));

    let mut report = Report::new();
    assert!(af.referenced_blocks(&mut report).unwrap().is_empty());
    assert!(af.block_dir().blocks().is_empty());
}

#[test]
fn open_rejects_missing_header() {
    let r = Archive::open(b"p".to_vec(), None, Vec::new(), Vec::new());
    assert!(matches!(r.unwrap_err(), Error::NotAnArchive));
}

#[test]
fn open_rejects_unsupported_version() {
    let other = conserve_core::records::encode_header(&b"0.4".to_vec());
    let r = Archive::open(b"p".to_vec(), Some(other), Vec::new(), Vec::new());
    match r.unwrap_err() {
        Error::UnsupportedArchiveVersion { version } => assert_eq!(version, b"0.4".to_vec()),
        x => panic!("Unexpected error {:?}", x),
    }
}

#[test]
fn open_rejects_garbage_header() {
    let r = Archive::open(b"p".to_vec(), Some(b"nonsense".to_vec()), Vec::new(), Vec::new());
    assert!(matches!(r.unwrap_err(), Error::Json));
}

#[test]
fn list_bands_rejects_stray_directory() {
    let fs = BandFs::empty();
    let af = Archive::open(
        Archive::create(b"a".to_vec()).path().clone(),
        Some(Archive::create(b"a".to_vec()).header_bytes().clone()),
        Vec::new(),
        vec![(b"junk".to_vec(), fs)],
    )
    .unwrap();
    assert!(matches!(af.list_bands().unwrap_err(), Error::InvalidBandId { .. }));
}

/// An archive with one closed band and one newer, still-open band hands
/// back the closed one.
#[test]
fn last_complete_band_skips_open_band() {
    let mut af = Archive::create(b"a".to_vec());
    let band0 = Band::create(&mut af).unwrap();
    band0.close(&mut af).unwrap();
    let band1 = Band::create(&mut af).unwrap();
    assert!(!band1.is_closed(&af).unwrap());

    let mut report = Report::new();
    let found = af.last_complete_band(&mut report).unwrap();
    assert_eq!(found.id().name(), b"b0000".to_vec());
}

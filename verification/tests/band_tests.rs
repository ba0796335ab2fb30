//! Band lifecycle: creation, closing, reopening, the version gate, and
//! band ids.

use conserve_core::archive::{Archive, BandFs};
use conserve_core::band::{Band, band_version_supported};
use conserve_core::bandid::BandId;
use conserve_core::error::Error;
use conserve_core::records::encode_head;
use conserve_core::report::Report;

#[test]
fn create_and_reopen_band() {
    let mut af = Archive::create(b"a".to_vec());
    let band = Band::create(&mut af).unwrap();

    {
        let bands = af.bands_list();
        assert_eq!(bands.len(), 1);
        let (name, fs) = &bands[0];
        assert_eq!(name, &b"b0000".to_vec());
        assert!(fs.head.is_some());
        assert!(fs.tail.is_none());
    }
    assert!(!band.is_closed(&af).unwrap());

    band.close(&mut af).unwrap();
    {
        let bands = af.bands_list();
        let (_, fs) = &bands[0];
        assert!(fs.head.is_some());
        assert!(fs.tail.is_some());
    }
    assert!(band.is_closed(&af).unwrap());

    let band_id = BandId::from_string(&b"b0000".to_vec()).unwrap();
    let band2 = Band::open(&af, &band_id).expect("failed to open band");
    assert!(band2.is_closed(&af).unwrap());

    // Try get_info
    let info = band2.get_info(&af).expect("get_info failed");
    assert_eq!(info.id.name(), b"b0000".to_vec());
    assert_eq!(info.is_closed, true);
    let end = info.end_time.expect("info has an end_time");
    let dur = end - info.start_time;
    // Test should have taken (much) less than 5s between starting and
    // finishing the band.
    assert!(dur < 5);
    assert!(dur >= 0);
}

#[test]
fn unsupported_band_version() {
    let template = Archive::create(b"a".to_vec());
    let head = encode_head(0, Some(&b"0.8.8".to_vec()));
    let fs = BandFs {
        head: Some(head),
        tail: None,
        hunks: Vec::new(),
        extra_files: Vec::new(),
        extra_dirs: Vec::new(),
    };
    let af = Archive::open(
        template.path().clone(),
        Some(template.header_bytes().clone()),
        Vec::new(),
        vec![(b"b0000".to_vec(), fs)],
    )
    .unwrap();

    let e = Band::open(&af, &BandId::zero());
    match e.unwrap_err() {
        Error::UnsupportedBandVersion { band_name, version } => {
            assert_eq!(band_name, b"b0000".to_vec());
            assert_eq!(version, b"0.8.8".to_vec());
        },
        x => panic!("Unexpected error {:?}", x),
    }
}

#[test]
fn version_gate() {
    assert!(band_version_supported(&b"0.6.3".to_vec()));
    assert!(band_version_supported(&b"0.5.0".to_vec()));
    assert!(!band_version_supported(&b"0.8.8".to_vec()));
    assert!(!band_version_supported(&b"junk".to_vec()));
}

#[test]
fn band_id_roundtrip() {
    let id = BandId::new(vec![5, 10000, 0]);
    let name = id.name();
    assert_eq!(name, b"b0005-10000-0000".to_vec());
    let back = BandId::from_string(&name).unwrap();
    assert_eq!(back, id);

    assert_eq!(BandId::zero().name(), b"b0000".to_vec());
    assert_eq!(
        BandId::from_string(&b"b0000".to_vec()).unwrap(),
        BandId::zero()
    );
}

#[test]
fn next_sibling_is_greater() {
    let a = BandId::new(vec![0, 7]);
    let b = a.next_sibling();
    assert_eq!(b.name(), b"b0000-0008".to_vec());
    assert!(a.is_before(&b));
    assert!(!b.is_before(&a));
}

#[test]
fn malformed_band_names_are_rejected() {
    for bad in [&b""[..], b"x", b"b", b"b-", b"b01x", b"b0000-", b"5"] {
        let r = BandId::from_string(&bad.to_vec());
        assert!(
            matches!(r, Err(Error::InvalidBandId { .. })),
            "{:?} should be rejected",
            bad
        );
    }
}

#[test]
fn band_validate_counts_anomalies() {
    let mut af = Archive::create(b"a".to_vec());
    let band = Band::create(&mut af).unwrap();
    let mut report = Report::new();
    band.validate(&af, &mut report).unwrap();
    assert_eq!(report.get_count("band.problem"), 0);

    // A band directory with stray entries is reported, not fatal.
    let template = Archive::create(b"a".to_vec());
    let fs = BandFs {
        head: Some(encode_head(0, None)),
        tail: None,
        hunks: Vec::new(),
        extra_files: vec![b"GARBAGE".to_vec()],
        extra_dirs: vec![b"odd".to_vec()],
    };
    let af2 = Archive::open(
        template.path().clone(),
        Some(template.header_bytes().clone()),
        Vec::new(),
        vec![(b"b0000".to_vec(), fs)],
    )
    .unwrap();
    let band2 = Band::open(&af2, &BandId::zero()).unwrap();
    let mut report2 = Report::new();
    band2.validate(&af2, &mut report2).unwrap();
    assert_eq!(report2.get_count("band.problem"), 2);
}

#[test]
fn legacy_band_without_version_marker_opens() {
    let template = Archive::create(b"a".to_vec());
    let fs = BandFs {
        head: Some(encode_head(123, None)),
        tail: None,
        hunks: Vec::new(),
        extra_files: Vec::new(),
        extra_dirs: Vec::new(),
    };
    let af = Archive::open(
        template.path().clone(),
        Some(template.header_bytes().clone()),
        Vec::new(),
        vec![(b"b0000".to_vec(), fs)],
    )
    .unwrap();
    let band = Band::open(&af, &BandId::zero()).unwrap();
    let info = band.get_info(&af).unwrap();
    assert_eq!(info.start_time, 123);
    assert_eq!(info.end_time, None);
    assert!(!info.is_closed);
}

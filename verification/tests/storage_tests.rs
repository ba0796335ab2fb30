//! The block store and the record codec: round trips, deduplication, and
//! integrity errors.

use conserve_core::archive::Archive;
use conserve_core::blockdir::BlockDir;
use conserve_core::error::Error;
use conserve_core::index::{Address, IndexEntry, Kind};
use conserve_core::records::{decode_head, decode_tail, encode_head, encode_tail, encode_header};
use conserve_core::report::Report;

#[test]
fn store_then_read_roundtrip() {
    let mut bd = BlockDir::new();
    let mut report = Report::new();
    let data = b"some file body".to_vec();
    let (addrs, hash) = bd.store(&data, &mut report);
    assert_eq!(addrs.len(), 1);
    assert_eq!(addrs[0].hash, hash);
    assert_eq!(addrs[0].start, 0);
    assert_eq!(addrs[0].len, data.len() as u64);
    assert_eq!(hash.len(), 128);

    let back = bd.read(&addrs).unwrap();
    assert_eq!(back, data);
    assert_eq!(report.get_count("block.write"), 1);
}

#[test]
fn storing_twice_writes_once() {
    let mut bd = BlockDir::new();
    let mut report = Report::new();
    let data = b"dedup me".to_vec();
    let (addrs1, hash1) = bd.store(&data, &mut report);
    let (addrs2, hash2) = bd.store(&data, &mut report);
    assert_eq!(hash1, hash2);
    assert_eq!(addrs1[0].hash, addrs2[0].hash);
    assert_eq!(bd.blocks().len(), 1);
    assert_eq!(report.get_count("block.write"), 1);
}

#[test]
fn zero_length_stream_stores_nothing() {
    let mut bd = BlockDir::new();
    let mut report = Report::new();
    let (addrs, hash) = bd.store(&Vec::new(), &mut report);
    assert_eq!(addrs.len(), 0);
    assert_eq!(hash.len(), 128);
    assert!(bd.blocks().is_empty());
    assert_eq!(report.get_count("block.write"), 0);
    assert_eq!(bd.read(&addrs).unwrap(), Vec::<u8>::new());
}

#[test]
fn read_missing_block_fails() {
    let bd = BlockDir::new();
    let addrs = vec![Address { hash: b"beef".to_vec(), start: 0, len: 1 }];
    match bd.read(&addrs).unwrap_err() {
        Error::BlockNotFound { hash } => assert_eq!(hash, b"beef".to_vec()),
        x => panic!("Unexpected error {:?}", x),
    }
}

#[test]
fn read_corrupt_block_fails_and_validate_counts_it() {
    // A block whose content does not match its name.
    let bd = BlockDir::from_pairs(vec![(b"0abc".to_vec(), b"not what was stored".to_vec())]);
    let addrs = vec![Address { hash: b"0abc".to_vec(), start: 0, len: 3 }];
    match bd.read(&addrs).unwrap_err() {
        Error::BlockCorrupt { hash } => assert_eq!(hash, b"0abc".to_vec()),
        x => panic!("Unexpected error {:?}", x),
    }

    let mut report = Report::new();
    bd.validate(&mut report).unwrap();
    assert_eq!(report.get_count("block.corrupt"), 1);

    // A store whose blocks were written by `store` validates clean.
    let mut good = BlockDir::new();
    let mut report2 = Report::new();
    good.store(&b"fine".to_vec(), &mut report2);
    good.validate(&mut report2).unwrap();
    assert_eq!(report2.get_count("block.corrupt"), 0);
}

#[test]
fn header_encoding_is_byte_exact() {
    let h = encode_header(&b"0.5".to_vec());
    assert_eq!(h, b"{\"conserve_archive_version\":\"0.5\"}\n".to_vec());
    let af = Archive::create(b"a".to_vec());
    assert_eq!(af.header_bytes(), &h);
}

#[test]
fn head_and_tail_roundtrip() {
    let h = encode_head(1234, Some(&b"0.6.3".to_vec()));
    assert_eq!(decode_head(&h), Some((1234, Some(b"0.6.3".to_vec()))));

    // A legacy head has no version marker.
    let legacy = encode_head(-5, None);
    assert_eq!(decode_head(&legacy), Some((-5, None)));

    let t = encode_tail(99);
    assert_eq!(t, b"{\"end_time\":99}\n".to_vec());
    assert_eq!(decode_tail(&t), Some(99));

    assert_eq!(decode_head(&b"garbage".to_vec()), None);
    assert_eq!(decode_tail(&b"{\"end_time\":}\n".to_vec()), None);
}

#[test]
fn hunk_roundtrip_and_corruption() {
    let entries = vec![
        IndexEntry {
            apath: b"/a".to_vec(),
            mtime: -3,
            kind: Kind::Dir,
            addrs: Vec::new(),
            blake2b: None,
            target: None,
        },
        IndexEntry {
            apath: b"/a/f".to_vec(),
            mtime: 77,
            kind: Kind::File,
            addrs: vec![Address { hash: b"00ff".to_vec(), start: 0, len: 9 }],
            blake2b: Some(b"00ff".to_vec()),
            target: None,
        },
        IndexEntry {
            apath: b"/a/s".to_vec(),
            mtime: 0,
            kind: Kind::Symlink,
            addrs: Vec::new(),
            blake2b: None,
            target: Some(b"over there".to_vec()),
        },
    ];
    let hunk = conserve_core::index::encode_hunk(&entries);
    let back = conserve_core::index::decode_hunk(&hunk).unwrap();
    assert_eq!(back.len(), 3);
    assert_eq!(back[0].apath, b"/a".to_vec());
    assert_eq!(back[0].mtime, -3);
    assert_eq!(back[1].addrs[0].hash, b"00ff".to_vec());
    assert_eq!(back[1].addrs[0].len, 9);
    assert_eq!(back[2].target, Some(b"over there".to_vec()));

    assert!(conserve_core::index::decode_hunk(&b"[not json".to_vec()).is_none());

    let empty = conserve_core::index::encode_hunk(&Vec::new());
    assert_eq!(empty, b"[]\n".to_vec());
    assert_eq!(conserve_core::index::decode_hunk(&empty).unwrap().len(), 0);
}

/// A hunk that fails to decode ends the scan, but the entries of the
/// hunks before it are still handed back.
#[test]
fn corrupt_later_hunk_keeps_earlier_entries() {
    let good = conserve_core::index::encode_hunk(&vec![IndexEntry {
        apath: b"/kept".to_vec(),
        mtime: 1,
        kind: Kind::Dir,
        addrs: Vec::new(),
        blake2b: None,
        target: None,
    }]);
    let template = Archive::create(b"a".to_vec());
    let fs = conserve_core::archive::BandFs {
        head: Some(encode_head(0, None)),
        tail: Some(encode_tail(1)),
        hunks: vec![good, b"ruined".to_vec()],
        extra_files: Vec::new(),
        extra_dirs: Vec::new(),
    };
    let af = Archive::open(
        template.path().clone(),
        Some(template.header_bytes().clone()),
        Vec::new(),
        vec![(b"b0000".to_vec(), fs)],
    )
    .unwrap();
    let band = conserve_core::band::Band::open(&af, &conserve_core::bandid::BandId::zero()).unwrap();
    let mut report = Report::new();
    let (partial, entries_err) = band.iter_entries(&af, &mut report);
    assert_eq!(partial.len(), 1);
    assert_eq!(partial[0].apath, b"/kept".to_vec());
    assert!(matches!(entries_err, Some(Error::IndexCorrupt)));
}

#[test]
fn corrupt_hunk_surfaces_index_corrupt() {
    let template = Archive::create(b"a".to_vec());
    let fs = conserve_core::archive::BandFs {
        head: Some(encode_head(0, None)),
        tail: Some(encode_tail(1)),
        hunks: vec![b"not a hunk".to_vec()],
        extra_files: Vec::new(),
        extra_dirs: Vec::new(),
    };
    let af = Archive::open(
        template.path().clone(),
        Some(template.header_bytes().clone()),
        Vec::new(),
        vec![(b"b0000".to_vec(), fs)],
    )
    .unwrap();
    let band = conserve_core::band::Band::open(&af, &conserve_core::bandid::BandId::zero()).unwrap();
    let mut report = Report::new();
    let (partial, entries_err) = band.iter_entries(&af, &mut report);
    // The earlier hunks' entries are still handed back.
    assert_eq!(partial.len(), 0);
    match entries_err {
        Some(Error::IndexCorrupt) => (),
        x => panic!("Unexpected error {:?}", x),
    }
}

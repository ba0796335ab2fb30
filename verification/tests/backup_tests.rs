//! The backup pipeline: kinds, exclusion, deduplication and restore.

use conserve_core::archive::Archive;
use conserve_core::backup::{make_backup, BackupOptions, LiveEntry};
use conserve_core::band::Band;
use conserve_core::excludes::from_strings;
use conserve_core::index::Kind;
use conserve_core::report::Report;

fn dir(apath: &[u8]) -> LiveEntry {
    LiveEntry { apath: apath.to_vec(), kind: Kind::Dir, mtime: 0, content: Vec::new(), target: None }
}

fn file(apath: &[u8], content: &[u8]) -> LiveEntry {
    LiveEntry {
        apath: apath.to_vec(),
        kind: Kind::File,
        mtime: 0,
        content: content.to_vec(),
        target: None,
    }
}

fn symlink_entry(apath: &[u8], target: &[u8]) -> LiveEntry {
    LiveEntry {
        apath: apath.to_vec(),
        kind: Kind::Symlink,
        mtime: 0,
        content: Vec::new(),
        target: Some(target.to_vec()),
    }
}

#[test]
pub fn symlink() {
    let mut af = Archive::create(b"a".to_vec());
    let src = vec![dir(b"/"), symlink_entry(b"/symlink", b"/a/broken/destination")];
    let mut report = Report::new();
    make_backup(&src, &mut af, &BackupOptions::default(), &mut report).unwrap();
    assert_eq!(0, report.get_count("block.write"));
    assert_eq!(0, report.get_count("file"));
    assert_eq!(1, report.get_count("symlink"));
    assert_eq!(0, report.get_count("skipped.unsupported_file_kind"));

    let band_ids = af.list_bands().unwrap();
    assert_eq!(1, band_ids.len());
    assert_eq!(b"b0000".to_vec(), band_ids[0].name());

    let band = Band::open(&af, &band_ids[0]).unwrap();
    assert!(band.is_closed(&af).unwrap());

    let (index_entries, entries_err) = band.iter_entries(&af, &mut report);
    assert!(entries_err.is_none());
    assert_eq!(2, index_entries.len());

    let e2 = &index_entries[1];
    assert_eq!(e2.kind, Kind::Symlink);
    assert_eq!(e2.apath, b"/symlink".to_vec());
    assert_eq!(e2.target.as_ref().unwrap(), &b"/a/broken/destination".to_vec());
}

#[test]
pub fn excludes() {
    let mut af = Archive::create(b"a".to_vec());
    let src = vec![
        dir(b"/"),
        file(b"/bar", b"contents"),
        file(b"/baz", b"contents"),
        file(b"/foo", b"contents"),
        file(b"/fooBar", b"contents"),
        dir(b"/foooooo"),
        file(b"/foooooo/test", b"contents"),
        dir(b"/test"),
        file(b"/test/baz", b"contents"),
    ];
    let patterns = vec![b"/**/foo*".to_vec(), b"/**/baz".to_vec()];
    let backup_options = BackupOptions::default().with_excludes(from_strings(&patterns).unwrap());
    let mut report = Report::new();
    make_backup(&src, &mut af, &backup_options, &mut report).unwrap();

    assert_eq!(1, report.get_count("block.write"));
    assert_eq!(1, report.get_count("file"));
    assert_eq!(2, report.get_count("dir"));
    assert_eq!(0, report.get_count("symlink"));
    assert_eq!(0, report.get_count("skipped.unsupported_file_kind"));
    assert_eq!(4, report.get_count("skipped.excluded.files"));
    assert_eq!(1, report.get_count("skipped.excluded.directories"));
}

#[test]
pub fn empty_file_uses_zero_blocks() {
    let mut af = Archive::create(b"a".to_vec());
    let src = vec![dir(b"/"), file(b"/empty", b"")];
    let mut report = Report::new();
    make_backup(&src, &mut af, &BackupOptions::default(), &mut report).unwrap();

    assert_eq!(0, report.get_count("block.write"));
    assert_eq!(1, report.get_count("file"), "file count");

    // Read back the empty file.
    let restored = conserve_core::restore::restore(&af, &mut report).unwrap();
    let empty_entry = restored
        .iter()
        .find(|e| e.apath == b"/empty".to_vec())
        .expect("found one entry");
    assert_eq!(0, empty_entry.content.len(), "reading empty file has zero chunks");

    // And the index entry itself carries no addresses.
    let band_ids = af.list_bands().unwrap();
    let band = Band::open(&af, &band_ids[0]).unwrap();
    let (entries, entries_err) = band.iter_entries(&af, &mut report);
    assert!(entries_err.is_none());
    let fe = entries.iter().find(|e| e.apath == b"/empty".to_vec()).unwrap();
    assert_eq!(fe.kind, Kind::File);
    assert_eq!(fe.addrs.len(), 0);
}

/// One directory, one file with content, one symlink: three entries in
/// apath order, one block whose name is the hash of the content, and the
/// symlink target kept.
#[test]
fn small_tree_backup_and_restore() {
    let mut af = Archive::create(b"a".to_vec());
    let src = vec![
        symlink_entry(b"/baz", b"/nowhere"),
        dir(b"/foo"),
        file(b"/foo/bar.txt", b"hi"),
    ];
    let mut report = Report::new();
    make_backup(&src, &mut af, &BackupOptions::default(), &mut report).unwrap();

    let band_ids = af.list_bands().unwrap();
    let band = Band::open(&af, &band_ids[0]).unwrap();
    let (entries, entries_err) = band.iter_entries(&af, &mut report);
    assert!(entries_err.is_none());
    assert_eq!(entries.len(), 3);
    assert_eq!(entries[0].apath, b"/baz".to_vec());
    assert_eq!(entries[1].apath, b"/foo".to_vec());
    assert_eq!(entries[2].apath, b"/foo/bar.txt".to_vec());
    assert_eq!(entries[1].kind, Kind::Dir);
    assert_eq!(entries[0].target.as_ref().unwrap(), &b"/nowhere".to_vec());

    // Exactly one block, named by the content hash the index records.
    let blocks = af.block_dir().blocks();
    assert_eq!(blocks.len(), 1);
    assert_eq!(Some(&blocks[0]), entries[2].blake2b.as_ref());
    assert_eq!(entries[2].addrs.len(), 1);
    assert_eq!(entries[2].addrs[0].hash, blocks[0]);

    // Restore gives the content back.
    let restored = conserve_core::restore::restore(&af, &mut report).unwrap();
    let f = restored.iter().find(|e| e.apath == b"/foo/bar.txt".to_vec()).unwrap();
    assert_eq!(f.content, b"hi".to_vec());
}

/// Backing up the same unchanged tree twice produces two bands that
/// reference the same block hash, stored only once.
#[test]
fn unchanged_tree_twice_deduplicates() {
    let mut af = Archive::create(b"a".to_vec());
    let src = vec![dir(b"/"), file(b"/f", b"same bytes")];
    let mut report = Report::new();
    make_backup(&src, &mut af, &BackupOptions::default(), &mut report).unwrap();
    make_backup(&src, &mut af, &BackupOptions::default(), &mut report).unwrap();

    let ids = af.list_bands().unwrap();
    assert_eq!(ids.len(), 2);
    let mut hashes = Vec::new();
    for id in &ids {
        let band = Band::open(&af, id).unwrap();
        assert!(band.is_closed(&af).unwrap());
        let (entries, entries_err) = band.iter_entries(&af, &mut report);
    assert!(entries_err.is_none());
        let fe = entries.iter().find(|e| e.apath == b"/f".to_vec()).unwrap();
        hashes.push(fe.blake2b.clone().unwrap());
    }
    assert_eq!(hashes[0], hashes[1]);
    assert_eq!(af.block_dir().blocks().len(), 1);
    assert_eq!(1, report.get_count("block.write"));

    let mut refs = af.referenced_blocks(&mut report).unwrap();
    refs.dedup();
    assert_eq!(refs.len(), 1);
    assert_eq!(refs[0], hashes[0]);
}

/// Names outside ASCII pass through the format as their UTF-8 bytes.
#[test]
fn non_ascii_names_round_trip() {
    let mut af = Archive::create(b"a".to_vec());
    // "/cafe" with an acute accent: the final 0xC3 0xA9 pair is above 127.
    let name: Vec<u8> = vec![b'/', b'c', b'a', b'f', 0xC3, 0xA9];
    let src = vec![dir(b"/"), file(&name, b"au lait")];
    let mut report = Report::new();
    make_backup(&src, &mut af, &BackupOptions::default(), &mut report).unwrap();

    let band_ids = af.list_bands().unwrap();
    let band = Band::open(&af, &band_ids[0]).unwrap();
    let (entries, entries_err) = band.iter_entries(&af, &mut report);
    assert!(entries_err.is_none());
    assert_eq!(entries.len(), 2);
    assert_eq!(entries[1].apath, name);

    let restored = conserve_core::restore::restore(&af, &mut report).unwrap();
    let f = restored.iter().find(|e| e.apath == name).unwrap();
    assert_eq!(f.content, b"au lait".to_vec());
}

/// Unsupported kinds are counted and skipped, not fatal.
#[test]
fn unknown_kind_is_skipped() {
    let mut af = Archive::create(b"a".to_vec());
    let src = vec![
        dir(b"/"),
        LiveEntry {
            apath: b"/weird".to_vec(),
            kind: Kind::Unknown,
            mtime: 0,
            content: Vec::new(),
            target: None,
        },
    ];
    let mut report = Report::new();
    make_backup(&src, &mut af, &BackupOptions::default(), &mut report).unwrap();
    assert_eq!(1, report.get_count("skipped.unsupported_file_kind"));
    let band_ids = af.list_bands().unwrap();
    let band = Band::open(&af, &band_ids[0]).unwrap();
    let (entries, entries_err) = band.iter_entries(&af, &mut report);
    assert!(entries_err.is_none());
    assert_eq!(entries.len(), 1);
    assert_eq!(entries[0].apath, b"/".to_vec());
}

use gitrs::index::{Entry, Extension, FileMeta, Index, Time};

fn meta(size: i32) -> FileMeta {
    FileMeta {
        ctime: Time { sec: 1617174650, nsec: 12 },
        mtime: Time { sec: 1617174651, nsec: 34 },
        dev: 16777220,
        inode: 1234567,
        mode: 0o100644,
        uid: 501,
        gid: 20,
        file_size: size,
    }
}

fn entry(name: &str, content: &str) -> Entry {
    Entry::from(name.to_string(), meta(content.len() as i32), content.as_bytes())
}

#[test]
fn test_entry() {
    let mut index = Index::default();
    let ent = entry("test_data/f1", "f1\n");
    index.add_entry(ent);
    let ent = entry("test_data/f2", "f2\n");
    index.add_entry(ent.clone());

    assert_eq!(index.entry_count, 2);
    index.add_entry(ent);
    assert_eq!(index.entry_count, 2);
}

#[test]
fn restaging_a_path_replaces_its_entry_in_place() {
    let mut index = Index::default();
    index.add_entry(entry("a", "1\n"));
    index.add_entry(entry("p", "old\n"));
    index.add_entry(entry("z", "2\n"));
    let newer = entry("p", "new\n");
    let digest = newer.hasher.clone();
    index.add_entry(newer);
    assert_eq!(index.entry_count, 3);
    assert_eq!(index.entries.len(), 3);
    let named: Vec<&Entry> = index.entries.iter().filter(|e| e.name == "p").collect();
    assert_eq!(named.len(), 1);
    assert_eq!(named[0].hasher, digest);
    assert_eq!(index.entries[1].name, "p");
    assert_eq!(index.entries[2].name, "z");
}

#[test]
fn staging_known_content_changes_nothing() {
    let mut index = Index::default();
    index.add_entry(entry("a", "same\n"));
    assert!(index.is_exists_entrie(entry("b", "same\n").hasher));
    index.add_entry(entry("b", "same\n"));
    assert_eq!(index.entry_count, 1);
    assert_eq!(index.entries.len(), 1);
    assert_eq!(index.entries[0].name, "a");
    assert!(!index.is_exists_entrie("00".repeat(20)));
}

#[test]
fn entry_records_digest_flags_and_padding() {
    let e = entry("test_data/f1", "f1\n");
    assert_eq!(e.hasher, "8e1e71d5ce34c01b6fe83bc5051545f2918c8c2b");
    assert_eq!(e.hasher_vec.len(), 20);
    assert_eq!(e.flag, 12);
    assert_eq!(e.pad, vec![0u8; 6]);
    assert_eq!((62 + 12 + e.pad.len()) % 8, 0);
    let e2 = entry("ab", "x");
    assert_eq!(e2.pad.len(), 8);
    let long = "n".repeat(5000);
    let e3 = entry(&long, "x");
    assert_eq!(e3.flag & 0xfff, 0xfff);
    assert!((1..=8).contains(&e3.pad.len()));
    assert_eq!((62 + 5000 + e3.pad.len()) % 8, 0);
}

fn sample_index() -> Index {
    let mut index = Index::default();
    for (n, c) in [
        ("test_data/d1/d1d/d1df", "d1df\n"),
        ("test_data/d1/df1", "df1\n"),
        ("test_data/f1", "f1\n"),
        ("test_data/f2", "f2\n"),
    ] {
        index.add_entry(entry(n, c));
    }
    index.extensions.push(Extension {
        extension: String::new(),
        signature: b"TREE".to_vec(),
        size: 3,
        data: vec![1, 2, 3],
    });
    index.checksum = vec![7u8; 20];
    index
}

#[test]
fn test_parser_index() {
    let mut bytes = vec![];
    sample_index().write(&mut bytes);
    let idx = Index::from_index_file(&bytes).unwrap();
    assert_eq!(idx.entry_count, 4);
}

#[test]
fn index_round_trips_through_its_bytes() {
    let index = sample_index();
    let mut bytes = vec![];
    index.write(&mut bytes);
    assert_eq!(&bytes[0..4], b"DIRC");
    assert_eq!(&bytes[4..12], &[0, 0, 0, 2, 0, 0, 0, 4]);
    let back = Index::from_index_file(&bytes).unwrap();
    assert_eq!(back.signature, index.signature);
    assert_eq!(back.version, index.version);
    assert_eq!(back.entry_count, index.entry_count);
    assert_eq!(back.entries.len(), index.entries.len());
    for (a, b) in back.entries.iter().zip(index.entries.iter()) {
        assert_eq!(a.name, b.name);
        assert_eq!(a.hasher, b.hasher);
        assert_eq!(a.hasher_vec, b.hasher_vec);
        assert_eq!(a.ctime, b.ctime);
        assert_eq!(a.mtime, b.mtime);
        assert_eq!((a.dev, a.inode, a.mode, a.uid, a.gid, a.file_size), (b.dev, b.inode, b.mode, b.uid, b.gid, b.file_size));
        assert_eq!(a.flag, b.flag);
        assert_eq!(a.pad, b.pad);
        assert_eq!((62 + a.name.len() + a.pad.len()) % 8, 0);
    }
    assert_eq!(back.extensions.len(), 1);
    assert_eq!(back.extensions[0].signature, b"TREE".to_vec());
    assert_eq!(back.extensions[0].data, vec![1, 2, 3]);
    assert_eq!(back.checksum, index.checksum);
    let mut again = vec![];
    back.write(&mut again);
    assert_eq!(again, bytes);
}

#[test]
fn long_names_round_trip_through_the_sentinel() {
    let mut index = Index::default();
    index.add_entry(entry(&"n".repeat(5000), "x"));
    index.checksum = vec![0u8; 20];
    let mut bytes = vec![];
    index.write(&mut bytes);
    let back = Index::from_index_file(&bytes).unwrap();
    assert_eq!(back.entries[0].name, "n".repeat(5000));
}

#[test]
fn truncated_or_bad_index_is_a_format_error() {
    let mut bytes = vec![];
    sample_index().write(&mut bytes);
    for cut in [0, 11, 12, 70, bytes.len() - 1] {
        assert_eq!(Index::from_index_file(&bytes[..cut]).unwrap_err(), gitrs::GitError::FormatError);
    }
    let mut neg = bytes.clone();
    neg[8] = 0xff;
    assert!(Index::from_index_file(&neg).is_err());
    let mut bad_name = bytes.clone();
    bad_name[12 + 62] = 0xff;
    assert_eq!(Index::from_index_file(&bad_name).unwrap_err(), gitrs::GitError::FormatError);
}

#[test]
fn updating_mtime_touches_the_named_entry_only() {
    let mut index = sample_index();
    let t = Time { sec: 1, nsec: 2 };
    index.update_entrie_mtime(&"test_data/f1".to_string(), t);
    assert_eq!(index.entries[2].mtime, t);
    assert_ne!(index.entries[1].mtime, t);
    index.update_entrie_mtime(&"missing".to_string(), Time { sec: 9, nsec: 9 });
    assert_eq!(index.entry_count, 4);
}

#[test]
fn extension_signatures_are_opaque_bytes() {
    let mut index = Index::default();
    index.extensions.push(Extension {
        extension: String::new(),
        signature: vec![0xff, 0xfe, 0x00, 0x01],
        size: 2,
        data: vec![9, 8],
    });
    let mut bytes = vec![];
    index.write(&mut bytes);
    assert_eq!(&bytes[12..22], &[0xff, 0xfe, 0x00, 0x01, 0, 0, 0, 2, 9, 8]);
    let back = Index::from_index_file(&bytes).unwrap();
    assert_eq!(back.extensions[0].signature, vec![0xff, 0xfe, 0x00, 0x01]);
    assert_eq!(back.extensions[0].data, vec![9, 8]);
    assert_eq!(back.checksum, vec![0u8; 20]);
}

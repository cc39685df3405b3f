use gitrs::blob::{parse_blob, Blob};
use gitrs::codec::{compression, decimal, decoder, parse_decimal, slice_to_sha_string};
use gitrs::commit::{attribution, encode_commit, parse_commit, CommitRecord};
use gitrs::hasher::{
    classify, generic_blob_hash, generic_symlink_hash, generic_tree_hash, lex_less, EntryMode,
    FsNode, LooseObject, NodeKind,
};
use gitrs::store::{read_object, StoredObject};
use gitrs::tree::{parse_tree, Tree};
use gitrs::GitError;

fn file(name: &str, content: &str) -> FsNode {
    FsNode {
        name: name.to_string(),
        kind: NodeKind::File { content: content.as_bytes().to_vec(), executable: false },
    }
}

fn dir(name: &str, children: Vec<FsNode>) -> FsNode {
    FsNode { name: name.to_string(), kind: NodeKind::Dir(children) }
}

fn test_data() -> FsNode {
    dir(
        "test_data",
        vec![
            file("f2", "f2\n"),
            dir("d1", vec![file("df1", "df1\n"), dir("d1d", vec![file("d1df", "d1df\n")])]),
            file("f1", "f1\n"),
        ],
    )
}

fn hex(b: &[u8]) -> String {
    slice_to_sha_string(b)
}

fn store_of(objects: &[LooseObject]) -> Vec<StoredObject> {
    objects
        .iter()
        .map(|o| StoredObject { name: hex(&o.digest), data: compression(&o.body).unwrap() })
        .collect()
}

#[test]
fn test_decoder_encoder() {
    let c = "test data";
    let v = c.as_bytes().to_vec();
    let _encoder = compression(&v).unwrap();
    assert_ne!(v, _encoder);
    let _decoder = decoder(&_encoder).unwrap();
    assert_eq!(v, _decoder);
}

#[test]
fn round_trip_of_empty_and_binary_bytes() {
    let empty: Vec<u8> = vec![];
    assert_eq!(decoder(&compression(&empty).unwrap()).unwrap(), empty);
    let bin: Vec<u8> = (0..=255u8).chain(0..=255u8).collect();
    assert_eq!(decoder(&compression(&bin).unwrap()).unwrap(), bin);
}

#[test]
fn decoder_rejects_bytes_that_are_not_a_stream() {
    assert_eq!(decoder(&b"not zlib at all".to_vec()), Err(GitError::CorruptData));
}

#[test]
fn test_generic_blob_hash() {
    let (sha, body) = generic_blob_hash(b"f1\n");
    assert_eq!(body, b"blob 3\0f1\n".to_vec());
    assert_eq!(hex(&sha), "8e1e71d5ce34c01b6fe83bc5051545f2918c8c2b");
}

#[test]
fn blob_digest_of_d1df() {
    let (sha, body) = generic_blob_hash(b"d1df\n");
    assert_eq!(body, b"blob 5\0d1df\n".to_vec());
    assert_eq!(hex(&sha), "353e81709e49f3e29d2354d77d98c84534f7fe03");
}

#[test]
fn symlink_digest_is_that_of_the_target_bytes() {
    let d = generic_symlink_hash(b"abc");
    assert_eq!(hex(&d), "a9993e364706816aba3e25717850c26c9cd0d89d");
}

#[test]
fn test_parse_blob() {
    let stored = compression(&b"blob 5\0d1df\n".to_vec()).unwrap();
    let bytes = decoder(&stored).unwrap();
    let blob = parse_blob(bytes.as_slice()).unwrap();
    let content = String::from_utf8(blob.content).unwrap();
    assert_eq!(content, "d1df\n");
    assert_eq!(blob.count, 5);
}

#[test]
fn parse_blob_rejects_missing_tag_or_nul() {
    assert_eq!(parse_blob(b"blub 5\0d1df\n").unwrap_err(), GitError::FormatError);
    assert_eq!(parse_blob(b"blob 5d1df\n").unwrap_err(), GitError::FormatError);
    assert_eq!(parse_blob(b"blob \0x").unwrap_err(), GitError::FormatError);
    assert_eq!(parse_blob(b"blob 99999999999\0x").unwrap_err(), GitError::FormatError);
}

#[test]
fn decimal_writes_and_reads_numbers() {
    assert_eq!(decimal(0), b"0".to_vec());
    assert_eq!(decimal(1234), b"1234".to_vec());
    assert_eq!(parse_decimal(b"x1234\0", 1), (5, Some(1234)));
    assert_eq!(parse_decimal(b"x\0", 1), (1, None));
    assert_eq!(parse_decimal(b"2147483648", 0), (10, None));
    assert_eq!(parse_decimal(b"2147483647", 0), (10, Some(2147483647)));
}

#[test]
fn hex_renders_two_lowercase_digits_per_byte() {
    assert_eq!(hex(&[0x00, 0x0f, 0xa0, 0xff]), "000fa0ff");
    assert_eq!(hex(&[]), "");
}

#[test]
fn test_generic_tree_hash() {
    let root = test_data();
    let mut tree = Tree::new(String::new());
    let mut filter = vec![
        String::from("test_data/d1/d1d/d1df"),
        String::from("test_data/d1/df1"),
        String::from("test_data/f1"),
    ];
    let mut pending = vec![];
    generic_tree_hash(&mut tree, &root, b"test_data", &filter, &mut pending);
    assert_eq!(tree.sha1.to_string().as_str(), "47fd5b86940d6be173bc765d3df2757d8ad7d609");

    filter.push(String::from("test_data/f2"));
    let mut pending = vec![];
    generic_tree_hash(&mut tree, &root, b"test_data", &filter, &mut pending);
    assert_eq!(tree.sha1.to_string().as_str(), "481651d9ca42c91589b10fe1c35b4ba83b2cf057");
}

#[test]
fn tree_hash_twice_gives_the_same_digest_and_writes() {
    let root = test_data();
    let filter = vec![String::from("test_data/d1/df1"), String::from("test_data/f2")];
    let (mut t1, mut t2) = (Tree::new(String::new()), Tree::new(String::new()));
    let (mut pend_a, mut pend_b) = (vec![], vec![]);
    let r1 = generic_tree_hash(&mut t1, &root, b"test_data", &filter, &mut pend_a);
    let r2 = generic_tree_hash(&mut t2, &root, b"test_data", &filter, &mut pend_b);
    assert_eq!(r1, r2);
    assert_eq!(pend_a.len(), pend_b.len());
    assert_eq!(pend_a.len(), 1);
    assert_eq!(pend_a[0].body, pend_b[0].body);
}

#[test]
fn tree_hash_stores_subtrees_before_their_parents() {
    let root = test_data();
    let filter = vec![String::from("test_data/d1/d1d/d1df")];
    let mut tree = Tree::new(String::new());
    let mut pending = vec![];
    let (digest, body) = generic_tree_hash(&mut tree, &root, b"test_data", &filter, &mut pending);
    assert_eq!(pending.len(), 2);
    assert_eq!(pending[0].body, {
        let (d, _) = generic_blob_hash(b"d1df\n");
        let mut b = b"tree 32\0100644 d1df\0".to_vec();
        b.extend_from_slice(&d);
        b
    });
    let (inner, _) = parse_tree(&pending[1].body).unwrap();
    assert_eq!(inner, 30);
    assert_eq!(tree.size, body.len() - b"tree 30\0".len());
    assert_eq!(tree.sha1, hex(&digest));
    assert_eq!(tree.child_tree.len(), 1);
    assert_eq!(tree.child_tree[0].name, "d1");
    assert!(tree.blobs.is_empty());
}

#[test]
fn empty_selection_gives_the_empty_tree() {
    let root = test_data();
    let mut tree = Tree::new(String::new());
    let mut pending = vec![];
    let (digest, body) = generic_tree_hash(&mut tree, &root, b"test_data", &vec![], &mut pending);
    assert_eq!(body, b"tree 0\0".to_vec());
    assert_eq!(hex(&digest), "4b825dc642cb6eb9a060e54bf8d69288fbee4904");
    assert!(pending.is_empty());
    assert!(tree.blobs.is_empty());
    assert!(tree.child_tree.is_empty());
    assert_eq!(tree.size, 0);
}

#[test]
fn file_sorts_before_directory_of_the_same_name() {
    assert!(lex_less(b"ab", b"ab/"));
    assert!(!lex_less(b"ab/", b"ab"));
    assert!(lex_less(b"ab-", b"ab/"));
    assert!(lex_less(b"ab/", b"ab0"));
    let root = dir(
        "",
        vec![dir("ab", vec![file("x", "x\n")]), file("ab0", "0\n"), file("ab", "a\n"), file("ab-", "-\n")],
    );
    let filter = vec![
        String::from("ab/x"),
        String::from("ab"),
        String::from("ab-"),
        String::from("ab0"),
    ];
    let mut tree = Tree::new(String::new());
    let mut pending = vec![];
    let (_, body) = generic_tree_hash(&mut tree, &root, b"", &filter, &mut pending);
    let (_, items) = parse_tree(&body).unwrap();
    let names: Vec<(Vec<u8>, String)> = items.into_iter().map(|i| (i.mode, i.name)).collect();
    assert_eq!(
        names,
        vec![
            (b"100644".to_vec(), "ab".to_string()),
            (b"100644".to_vec(), "ab-".to_string()),
            (b"40000".to_vec(), "ab".to_string()),
            (b"100644".to_vec(), "ab0".to_string()),
        ]
    );
}

#[test]
fn modes_follow_the_kind_of_entry() {
    let exe = FsNode {
        name: "run".to_string(),
        kind: NodeKind::File { content: vec![], executable: true },
    };
    let link = FsNode { name: "l".to_string(), kind: NodeKind::Symlink { target: b"t".to_vec() } };
    assert_eq!(classify(&exe), EntryMode::Executable);
    assert_eq!(classify(&link), EntryMode::Symlink);
    assert_eq!(classify(&file("a", "")), EntryMode::Regular);
    assert_eq!(classify(&dir("d", vec![])), EntryMode::Directory);
    assert_eq!(EntryMode::Executable.as_bytes(), b"100755".to_vec());
    assert_eq!(EntryMode::Symlink.as_bytes(), b"120000".to_vec());
    assert_eq!(EntryMode::Directory.as_bytes(), b"40000".to_vec());
    assert_eq!(EntryMode::Regular.as_bytes(), b"100644".to_vec());
}

#[test]
fn parse_tree_rejects_malformed_bodies() {
    assert_eq!(parse_tree(b"tree 3\0abc").unwrap_err(), GitError::FormatError);
    assert_eq!(parse_tree(b"tree 5\0abc").unwrap_err(), GitError::FormatError);
    assert_eq!(parse_tree(b"tre 0\0").unwrap_err(), GitError::FormatError);
    let (size, items) = parse_tree(b"tree 0\0").unwrap();
    assert_eq!(size, 0);
    assert!(items.is_empty());
}

#[test]
fn trees_load_back_from_the_store() {
    let root = test_data();
    let filter = vec![
        String::from("test_data/d1/d1d/d1df"),
        String::from("test_data/d1/df1"),
        String::from("test_data/f1"),
    ];
    let mut tree = Tree::new(String::new());
    let mut pending = vec![];
    let (digest, body) = generic_tree_hash(&mut tree, &root, b"test_data", &filter, &mut pending);
    pending.push(LooseObject { digest: digest.clone(), body });
    for content in ["f1\n", "df1\n", "d1df\n"] {
        let (d, b) = generic_blob_hash(content.as_bytes());
        pending.push(LooseObject { digest: d, body: b });
    }
    let store = store_of(&pending);
    let loaded = Tree::from_hasher(&store, &hex(&digest)).unwrap();
    assert_eq!(loaded.sha1, hex(&digest));
    assert_eq!(loaded.size, tree.size);
    let b = loaded.find_blob("d1/d1d/d1df").unwrap();
    assert_eq!(b.content, b"d1df\n".to_vec());
    assert_eq!(b.name, "d1df");
    assert_eq!(loaded.find_blob("f1").unwrap().content, b"f1\n".to_vec());
    assert!(loaded.find_blob("f2").is_none());
    assert!(loaded.find_blob("d2/x").is_none());
    let blob = Blob::from(&store, &"f1".to_string(), generic_blob_hash(b"f1\n").0).unwrap();
    assert_eq!(blob.content, b"f1\n".to_vec());
}

#[test]
fn a_missing_child_is_not_found() {
    let root = test_data();
    let filter = vec![String::from("test_data/d1/df1"), String::from("test_data/f1")];
    let mut tree = Tree::new(String::new());
    let mut pending = vec![];
    let (digest, body) = generic_tree_hash(&mut tree, &root, b"test_data", &filter, &mut pending);
    pending.push(LooseObject { digest: digest.clone(), body });
    let (d, b) = generic_blob_hash(b"f1\n");
    pending.push(LooseObject { digest: d, body: b });
    let store = store_of(&pending);
    assert_eq!(Tree::from_hasher(&store, &hex(&digest)).unwrap_err(), GitError::NotFound);
    let (d, b) = generic_blob_hash(b"df1\n");
    pending.push(LooseObject { digest: d, body: b });
    let store = store_of(&pending);
    let t = Tree::from_hasher(&store, &hex(&digest)).unwrap();
    assert_eq!(t.blobs.len(), 1);
    assert_eq!(t.child_tree.len(), 1);
    assert_eq!(t.child_tree[0].blobs[0].content, b"df1\n".to_vec());
}

#[test]
fn reading_a_missing_object_is_not_found() {
    let store: Vec<StoredObject> = vec![];
    assert_eq!(read_object(&store, &"00".repeat(20)), Err(GitError::NotFound));
    assert_eq!(Tree::from_hasher(&store, &"00".repeat(20)).unwrap_err(), GitError::NotFound);
    let bad = vec![StoredObject { name: "ab".repeat(20), data: b"junk".to_vec() }];
    assert_eq!(read_object(&bad, &"ab".repeat(20)), Err(GitError::CorruptData));
}

#[test]
fn commit_body_parses_back() {
    let rec = CommitRecord {
        tree: "47fd5b86940d6be173bc765d3df2757d8ad7d609".to_string(),
        parent: None,
        author: "bernie <b@example.com> 1617174650 +0800".to_string(),
        committer: "bernie <b@example.com> 1617174650 +0800".to_string(),
        msg: "v1".to_string(),
    };
    let (digest, body) = encode_commit(&rec);
    let content = "tree 47fd5b86940d6be173bc765d3df2757d8ad7d609\nauthor bernie <b@example.com> 1617174650 +0800\ncommitter bernie <b@example.com> 1617174650 +0800\n\nv1\n";
    let expected = format!("commit {}\0{}", content.len(), content);
    assert_eq!(content.len(), 147);
    assert_eq!(body, expected.as_bytes().to_vec());
    let back = parse_commit(&body).unwrap();
    assert_eq!(back.tree, rec.tree);
    assert_eq!(back.parent, None);
    assert_eq!(back.author, rec.author);
    assert_eq!(back.committer, rec.committer);
    assert_eq!(back.msg, rec.msg);
    assert_eq!(encode_commit(&back).0, digest);
}

#[test]
fn commit_with_parent_parses_back() {
    let rec = CommitRecord {
        tree: "ab".repeat(20),
        parent: Some("cd".repeat(20)),
        author: "a <a@x> 1 +0000".to_string(),
        committer: "c <c@x> 2 +0000".to_string(),
        msg: "second".to_string(),
    };
    let (_, body) = encode_commit(&rec);
    let text = String::from_utf8(body.clone()).unwrap();
    assert!(text.contains(&format!("\0tree {}\nparent {}\nauthor ", "ab".repeat(20), "cd".repeat(20))));
    let back = parse_commit(&body).unwrap();
    assert_eq!(back.parent, Some("cd".repeat(20)));
    assert_eq!(back.msg, "second");
}

#[test]
fn commit_without_tree_line_is_a_format_error() {
    let body = b"commit 10\0author a\ncommitter c\n\nm\n";
    assert_eq!(parse_commit(body).unwrap_err(), GitError::FormatError);
    let no_msg_end = b"commit 10\0tree x\nauthor a\ncommitter c\n\nm";
    assert_eq!(parse_commit(no_msg_end).unwrap_err(), GitError::FormatError);
}

#[test]
fn attribution_writes_identity_time_and_offset() {
    let id = "bernie <b@example.com>".to_string();
    assert_eq!(attribution(&id, 1617174650, 480), "bernie <b@example.com> 1617174650 +0800");
    assert_eq!(attribution(&id, 0, -330), "bernie <b@example.com> 0 -0530");
}

use gitrs::codec::compression;
use gitrs::hasher::{FsNode, NodeKind};
use gitrs::index::{FileMeta, Index, Time};
use gitrs::rep::{Repository, StagedFile};
use gitrs::store::StoredObject;
use gitrs::GitError;

fn file(name: &str, content: &str) -> FsNode {
    FsNode {
        name: name.to_string(),
        kind: NodeKind::File { content: content.as_bytes().to_vec(), executable: false },
    }
}

fn staged(name: &str, content: &str) -> StagedFile {
    let t = Time { sec: 0, nsec: 0 };
    StagedFile {
        name: name.to_string(),
        meta: FileMeta { ctime: t, mtime: t, dev: 0, inode: 0, mode: 0, uid: 0, gid: 0, file_size: content.len() as i32 },
        content: content.as_bytes().to_vec(),
    }
}

#[test]
fn test_repository() {}

#[test]
fn opening_without_a_repository_is_not_found() {
    assert_eq!(Repository::new(false, None).unwrap_err(), GitError::NotFound);
    let rep = Repository::new(true, None).unwrap();
    assert_eq!(rep.stage.entry_count, 0);
    assert_eq!(Repository::new(true, Some(b"DIRC")).unwrap_err(), GitError::FormatError);
    let mut bytes = vec![];
    let mut ix = Index::default();
    ix.checksum = vec![0; 20];
    ix.write(&mut bytes);
    assert_eq!(Repository::new(true, Some(&bytes)).unwrap().stage.version, 2);
}

#[test]
fn add_commit_and_checkout() {
    let mut rep = Repository::new(true, None).unwrap();
    let blobs = rep.add(&vec![staged("d1/df1", "df1\n"), staged("f1", "f1\n")]);
    assert_eq!(blobs.len(), 2);
    assert_eq!(blobs[1].body, b"blob 3\0f1\n".to_vec());
    assert_eq!(rep.stage.entry_count, 2);
    assert_eq!(rep.stage.entries[0].name, "d1/df1");
    assert_eq!(rep.stage.entries[1].hasher, "8e1e71d5ce34c01b6fe83bc5051545f2918c8c2b");
    assert_eq!(rep.stage.signature, "DIRC");
    let root = FsNode {
        name: String::new(),
        kind: NodeKind::Dir(vec![
            file("f1", "f1\n"),
            file("f2", "f2\n"),
            FsNode { name: "d1".to_string(), kind: NodeKind::Dir(vec![file("df1", "df1\n")]) },
        ]),
    };
    let plan = rep.commit(&root, "v1".to_string(), "a <a@x> 1 +0000".to_string(), "a <a@x> 1 +0000".to_string());
    assert_eq!(plan.objects.len(), 3);
    assert!(plan.objects[2].body.starts_with(b"commit "));
    let mut store: Vec<StoredObject> = plan
        .objects
        .iter()
        .chain(blobs.iter())
        .map(|o| StoredObject { name: gitrs::codec::slice_to_sha_string(&o.digest), data: compression(&o.body).unwrap() })
        .collect();
    let files = rep.checkout_branch(&store, &plan.commit_hex).unwrap();
    let mut got: Vec<(String, Vec<u8>)> = files.into_iter().map(|w| (String::from_utf8(w.path).unwrap(), w.content)).collect();
    got.sort();
    assert_eq!(got, vec![("d1/df1".to_string(), b"df1\n".to_vec()), ("f1".to_string(), b"f1\n".to_vec())]);
    store.clear();
    assert_eq!(rep.checkout_branch(&store, &plan.commit_hex).unwrap_err(), GitError::NotFound);
    rep.status();
}

#[test]
fn head_and_branch_refs() {
    let rep = Repository::new(true, None).unwrap();
    assert_eq!(rep.create_new_branch("dev"), b"ref: refs/heads/dev".to_vec());
    assert_eq!(rep.head_path(b"ref: refs/heads/master\n").unwrap(), b"refs/heads/master".to_vec());
    assert_eq!(rep.head_path(b"0123abcd").unwrap_err(), GitError::FormatError);
}

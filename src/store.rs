//! The loose-object store: where an object lives, and the resolution of
//! digests against the objects that were read from it.
use vstd::prelude::*;
use crate::blob::{parse_blob, parse_blob_spec, Blob};
use crate::codec::{decoder, hex_of, inflate_of, slice_to_sha_string};
use crate::commit::{parse_commit, parse_commit_spec, Commit};
use crate::error::GitError;
use crate::tree::{parse_tree, parse_tree_spec, Tree, TreeItem, TreeItemView};

verus! {

/// One stored object: its 40-digit hex digest and its compressed bytes.
#[derive(Debug, Clone)]
pub struct StoredObject {
    pub name: String,
    pub data: Vec<u8>,
}

/// The position of the first object stored under `name`, or the length.
pub open spec fn object_position(store: Seq<StoredObject>, name: Seq<char>, i: int) -> int
    decreases store.len() - i,
{
    if i < 0 || i >= store.len() {
        store.len() as int
    } else if store[i].name@ == name {
        i
    } else {
        object_position(store, name, i + 1)
    }
}

/// The body stored under `name`: what the bytes of the first object of that
/// name decompress to.
pub open spec fn stored_body(store: Seq<StoredObject>, name: Seq<char>) -> Option<Seq<u8>> {
    let i = object_position(store, name, 0);
    if 0 <= i < store.len() {
        inflate_of(store[i].data@)
    } else {
        None
    }
}

/// Whether an object is stored under `name`.
pub open spec fn is_stored(store: Seq<StoredObject>, name: Seq<char>) -> bool {
    0 <= object_position(store, name, 0) < store.len()
}

/// Why reading the object stored under `name` fails, if it does.
pub open spec fn read_error(store: Seq<StoredObject>, name: Seq<char>) -> Option<GitError> {
    if !is_stored(store, name) {
        Some(GitError::NotFound)
    } else if stored_body(store, name) is None {
        Some(GitError::CorruptData)
    } else {
        None
    }
}

/// The text `40000`, the mode of a subtree entry.
pub open spec fn dir_mode() -> Seq<u8> {
    seq![52u8, 48, 48, 48, 48]
}

/// Why loading the blob stored under the hex digest `hex` fails, if it does.
pub open spec fn blob_error(store: Seq<StoredObject>, hex: Seq<char>) -> Option<GitError> {
    match read_error(store, hex) {
        Some(e) => Some(e),
        None => if parse_blob_spec(stored_body(store, hex)->Some_0) is None {
            Some(GitError::FormatError)
        } else {
            None
        },
    }
}

/// Whether `b` is the blob stored under the raw digest `digest`, known by
/// `name`.
pub open spec fn blob_loaded(store: Seq<StoredObject>, name: Seq<char>, digest: Seq<u8>, b: Blob) -> bool {
    &&& stored_body(store, hex_of(digest)) matches Some(body)
    &&& parse_blob_spec(body) matches Some((count, content))
    &&& b.name@ == name
    &&& b.hasher@ == digest
    &&& b.count == count
    &&& b.content@ == content
}

/// Why loading the tree stored under `hex` fails, if it does: its own body,
/// then its entries in order; `depth` more levels of trees may be loaded.
pub open spec fn tree_error(store: Seq<StoredObject>, hex: Seq<char>, depth: nat) -> Option<GitError>
    decreases depth, 1nat, 0nat,
{
    if depth == 0 {
        Some(GitError::FormatError)
    } else {
        match read_error(store, hex) {
            Some(e) => Some(e),
            None => match parse_tree_spec(stored_body(store, hex)->Some_0) {
                None => Some(GitError::FormatError),
                Some((_, items)) => items_error(store, items, (depth - 1) as nat, items.len()),
            },
        }
    }
}

/// The first failure among the first `k` entries of a tree.
pub open spec fn items_error(store: Seq<StoredObject>, items: Seq<TreeItemView>, d: nat, k: nat) -> Option<
    GitError,
>
    decreases d + 1, 0nat, k,
{
    if k == 0 || k > items.len() {
        None
    } else {
        match items_error(store, items, d, (k - 1) as nat) {
            Some(e) => Some(e),
            None => if items[k - 1].mode == dir_mode() {
                tree_error(store, hex_of(items[k - 1].digest), d)
            } else {
                blob_error(store, hex_of(items[k - 1].digest))
            },
        }
    }
}

/// Whether `t` is the tree stored under `hex`, known by `name`: its digest,
/// declared size, and one subtree or blob per entry, in entry order.
pub open spec fn tree_loaded(store: Seq<StoredObject>, hex: Seq<char>, name: Seq<char>, depth: nat, t: Tree) -> bool
    decreases depth, 1nat, 0nat,
{
    &&& depth > 0
    &&& stored_body(store, hex) matches Some(b)
    &&& parse_tree_spec(b) matches Some((size, items))
    &&& t.name@ == name
    &&& t.sha1@ == hex
    &&& t.size == size
    &&& items_loaded(store, items, (depth - 1) as nat, t.blobs@, t.child_tree@, items.len())
}

/// Whether `blobs` and `trees` are what the first `k` entries load to: a
/// subtree for each entry of mode `40000`, a blob for each other entry.
pub open spec fn items_loaded(
    store: Seq<StoredObject>,
    items: Seq<TreeItemView>,
    d: nat,
    blobs: Seq<Blob>,
    trees: Seq<Tree>,
    k: nat,
) -> bool
    decreases d + 1, 0nat, k,
{
    if k == 0 || k > items.len() {
        blobs.len() == 0 && trees.len() == 0
    } else if items[k - 1].mode == dir_mode() {
        &&& trees.len() > 0
        &&& tree_loaded(store, hex_of(items[k - 1].digest), items[k - 1].name, d, trees.last())
        &&& items_loaded(store, items, d, blobs, trees.drop_last(), (k - 1) as nat)
    } else {
        &&& blobs.len() > 0
        &&& blob_loaded(store, items[k - 1].name, items[k - 1].digest, blobs.last())
        &&& items_loaded(store, items, d, blobs.drop_last(), trees, (k - 1) as nat)
    }
}

/// How many levels of trees loading goes down: a chain of nested trees
/// longer than the store must visit some object twice.
pub open spec fn load_depth(store: Seq<StoredObject>) -> nat {
    if store.len() < usize::MAX {
        store.len() + 1
    } else {
        store.len()
    }
}

/// Why loading the commit stored under `hex`, with its tree, fails, if it
/// does.
pub open spec fn commit_error(store: Seq<StoredObject>, hex: Seq<char>) -> Option<GitError> {
    match read_error(store, hex) {
        Some(e) => Some(e),
        None => match parse_commit_spec(stored_body(store, hex)->Some_0) {
            None => Some(GitError::FormatError),
            Some(c) => tree_error(store, c.tree, load_depth(store)),
        },
    }
}

/// Whether `k` is the commit stored under `hex`, with its tree loaded.
pub open spec fn commit_loaded(store: Seq<StoredObject>, hex: Seq<char>, k: Commit) -> bool {
    &&& stored_body(store, hex) matches Some(b)
    &&& parse_commit_spec(b) matches Some(c)
    &&& k.author@ == c.author
    &&& k.committer@ == c.committer
    &&& k.msg@ == c.msg
    &&& match k.parent {
        Some(p) => c.parent == Some(p@),
        None => c.parent is None,
    }
    &&& tree_loaded(store, c.tree, Seq::empty(), load_depth(store), k.tree)
}

proof fn lemma_items_error_stays(
    store: Seq<StoredObject>,
    items: Seq<TreeItemView>,
    d: nat,
    k: nat,
    m: nat,
)
    requires
        k <= m <= items.len(),
        0 < k,
        items_error(store, items, d, k) is Some,
    ensures
        items_error(store, items, d, m) == items_error(store, items, d, k),
    decreases m - k,
{
    if m > k {
        lemma_items_error_stays(store, items, d, k, (m - 1) as nat);
    }
}

proof fn lemma_object_position(store: Seq<StoredObject>, name: Seq<char>, i: int)
    requires
        0 <= i <= store.len(),
    ensures
        i <= object_position(store, name, i) <= store.len(),
    decreases store.len() - i,
{
    if i < store.len() && store[i].name@ != name {
        lemma_object_position(store, name, i + 1);
    }
}

/// The body of the object stored under `hasher`: `NotFound` when there is
/// none, `CorruptData` when its bytes do not decompress.
pub fn read_object(store: &Vec<StoredObject>, hasher: &String) -> (r: Result<Vec<u8>, GitError>)
    ensures
        match read_error(store@, hasher@) {
            Some(e) => r == Err::<Vec<u8>, GitError>(e),
            None => r matches Ok(v) && stored_body(store@, hasher@) == Some(v@),
        },
{
    proof {
        lemma_object_position(store@, hasher@, 0);
    }
    let mut i: usize = 0;
    while i < store.len()
        invariant
            i <= store@.len(),
            object_position(store@, hasher@, i as int) == object_position(store@, hasher@, 0),
        decreases store@.len() - i,
    {
        if store[i].name == *hasher {
            return decoder(&store[i].data);
        }
        i = i + 1;
    }
    Err(GitError::NotFound)
}

impl Blob {
    /// The blob stored under the raw digest `hasher`, known by `name`.
    pub fn from(store: &Vec<StoredObject>, name: &String, hasher: Vec<u8>) -> (r: Result<Blob, GitError>)
        requires
            2 * hasher@.len() <= usize::MAX,
        ensures
            match blob_error(store@, hex_of(hasher@)) {
                Some(e) => r == Err::<Blob, GitError>(e),
                None => r matches Ok(b) && blob_loaded(store@, name@, hasher@, b) && b.hasher
                    == hasher,
            },
    {
        let hex = slice_to_sha_string(hasher.as_slice());
        let bytes = read_object(store, &hex)?;
        let mut blob = parse_blob(bytes.as_slice())?;
        blob.name = name.clone();
        blob.hasher = hasher;
        Ok(blob)
    }
}

/// Whether a mode is that of a subtree entry.
fn is_dir_mode(mode: &Vec<u8>) -> (r: bool)
    ensures
        r == (mode@ == dir_mode()),
{
    let d: [u8; 5] = [52u8, 48, 48, 48, 48];
    let r = crate::tree::bytes_eq(mode.as_slice(), d.as_slice());
    assert(d@ =~= dir_mode());
    r
}

/// Loads the tree stored under `hasher` with every subtree and blob below
/// it, `depth` levels down at most.
fn load_tree(store: &Vec<StoredObject>, hasher: String, name: String, depth: usize) -> (r: Result<Tree, GitError>)
    ensures
        match tree_error(store@, hasher@, depth as nat) {
            Some(e) => r == Err::<Tree, GitError>(e),
            None => r matches Ok(t) && tree_loaded(store@, hasher@, name@, depth as nat, t),
        },
    decreases depth,
{
    if depth == 0 {
        return Err(GitError::FormatError);
    }
    let bytes = read_object(store, &hasher)?;
    let (size, items) = parse_tree(bytes.as_slice())?;
    let ghost iv = items@.map_values(|it: TreeItem| it@);
    let ghost d = (depth - 1) as nat;
    proof {
        let end = crate::codec::digits_end(bytes@, 5);
        crate::tree::lemma_tree_items_digest_len(bytes@, end + 1);
    }
    let mut tree = Tree::new(name);
    tree.size = size;
    let mut i: usize = 0;
    while i < items.len()
        invariant
            i <= items@.len(),
            depth > 0,
            d == depth - 1,
            iv == items@.map_values(|it: TreeItem| it@),
            forall|j: int| 0 <= j < iv.len() ==> (#[trigger] iv[j]).digest.len() == 20,
            items_error(store@, iv, d, i as nat) is None,
            stored_body(store@, hasher@) == Some(bytes@),
            read_error(store@, hasher@) is None,
            parse_tree_spec(bytes@) == Some((size as i32, iv)),
            size == parse_tree_spec(bytes@)->Some_0.0,
            items_loaded(store@, iv, d, tree.blobs@, tree.child_tree@, i as nat),
            tree.sha1@.len() == 0,
            tree.size == size,
            tree.name@ == name@,
        decreases items@.len() - i,
    {
        let item = &items[i];
        assert(iv[i as int] == item@);
        let hex = slice_to_sha_string(item.digest.as_slice());
        if is_dir_mode(&item.mode) {
            let child = match load_tree(store, hex, item.name.clone(), depth - 1) {
                Ok(c) => c,
                Err(e) => {
                    proof {
                        lemma_items_error_stays(store@, iv, d, (i + 1) as nat, iv.len());
                    }
                    return Err(e);
                },
            };
            let ghost before = tree.child_tree@;
            tree.child_tree.push(child);
            assert(tree.child_tree@.drop_last() =~= before);
        } else {
            let digest = item.digest.clone();
            assert(digest@ =~= item.digest@);
            let blob = match Blob::from(store, &item.name, digest) {
                Ok(b) => b,
                Err(e) => {
                    proof {
                        lemma_items_error_stays(store@, iv, d, (i + 1) as nat, iv.len());
                    }
                    return Err(e);
                },
            };
            let ghost before = tree.blobs@;
            tree.blobs.push(blob);
            assert(tree.blobs@.drop_last() =~= before);
        }
        i = i + 1;
    }
    tree.sha1 = hasher;
    Ok(tree)
}

impl Tree {
    /// Loads the tree stored under the hex digest `hasher`, with every
    /// subtree and blob below it: one subtree per entry of mode `40000` and
    /// one blob per other entry, in entry order. The first failure met, in
    /// that order, is returned: `NotFound` for an object not stored,
    /// `CorruptData` for one that does not decompress, `FormatError` for one
    /// that does not parse or for trees nested deeper than the store holds
    /// objects.
    pub fn from_hasher(store: &Vec<StoredObject>, hasher: &String) -> (r: Result<Tree, GitError>)
        ensures
            match tree_error(store@, hasher@, load_depth(store@)) {
                Some(e) => r == Err::<Tree, GitError>(e),
                None => r matches Ok(t) && tree_loaded(store@, hasher@, Seq::empty(), load_depth(store@), t),
            },
    {
        let depth: usize = if store.len() < usize::MAX { store.len() + 1 } else { store.len() };
        let name = String::new();
        load_tree(store, hasher.clone(), name, depth)
    }
}

impl Commit {
    /// Loads the commit stored under the hex digest `hasher`, with its tree.
    pub fn from_hasher(store: &Vec<StoredObject>, hasher: &String) -> (r: Result<Commit, GitError>)
        ensures
            match commit_error(store@, hasher@) {
                Some(e) => r == Err::<Commit, GitError>(e),
                None => r matches Ok(k) && commit_loaded(store@, hasher@, k),
            },
    {
        let bytes = read_object(store, hasher)?;
        let record = parse_commit(bytes.as_slice())?;
        let tree = Tree::from_hasher(store, &record.tree)?;
        let c = Commit::from_objects_file(record, tree);
        Ok(c)
    }
}

} // verus!

//! Tree objects: the in-memory directory snapshot, lookup of a blob by path,
//! and the parser of a tree's canonical body.
use vstd::prelude::*;
use vstd::utf8::{decode_utf8, encode_utf8, valid_utf8};
use crate::blob::Blob;
use crate::bytes::{find_byte, find_byte_from, lemma_find_byte, read_n_length_bytes, read_n_length_string, slice_from};
use crate::codec::{decimal_at, digits_end, parse_decimal};
use crate::error::GitError;
use crate::hasher::tree_tag;

verus! {

/// A directory snapshot: its name, the length of its encoded entries, its
/// hex digest, its files and its subdirectories.
#[derive(Debug)]
pub struct Tree {
    pub name: String,
    pub size: usize,
    pub sha1: String,
    pub blobs: Vec<Blob>,
    pub child_tree: Vec<Tree>,
}

/// The position of the first blob whose name has the UTF-8 bytes `name`, or
/// the length.
pub open spec fn blob_position(bs: Seq<Blob>, name: Seq<u8>, i: int) -> int
    decreases bs.len() - i,
{
    if i < 0 || i >= bs.len() {
        bs.len() as int
    } else if encode_utf8(bs[i].name@) == name {
        i
    } else {
        blob_position(bs, name, i + 1)
    }
}

/// The position of the first subtree whose name has the UTF-8 bytes `name`,
/// or the length.
pub open spec fn tree_position(ts: Seq<Tree>, name: Seq<u8>, i: int) -> int
    decreases ts.len() - i,
{
    if i < 0 || i >= ts.len() {
        ts.len() as int
    } else if encode_utf8(ts[i].name@) == name {
        i
    } else {
        tree_position(ts, name, i + 1)
    }
}

/// The blob at a `/`-separated path below a tree: the part before the first
/// `/` names a subtree, the last part a blob.
pub open spec fn find_blob_spec(t: Tree, path: Seq<u8>) -> Option<Blob>
    decreases path.len(),
{
    let k = find_byte(path, 0, 47u8);
    if k < path.len() {
        let i = tree_position(t.child_tree@, path.subrange(0, k), 0);
        if 0 <= i < t.child_tree@.len() && 0 <= k < path.len() {
            find_blob_spec(t.child_tree@[i], path.subrange(k + 1, path.len() as int))
        } else {
            None
        }
    } else {
        let i = blob_position(t.blobs@, path, 0);
        if 0 <= i < t.blobs@.len() {
            Some(t.blobs@[i])
        } else {
            None
        }
    }
}

/// Whether two byte slices are equal.
pub fn bytes_eq(a: &[u8], b: &[u8]) -> (r: bool)
    ensures
        r == (a@ == b@),
{
    if a.len() != b.len() {
        return false;
    }
    let mut i: usize = 0;
    while i < a.len()
        invariant
            i <= a@.len(),
            a@.len() == b@.len(),
            forall|k: int| 0 <= k < i ==> a@[k] == b@[k],
        decreases a@.len() - i,
    {
        if a[i] != b[i] {
            return false;
        }
        i = i + 1;
    }
    assert(a@ =~= b@);
    true
}

impl Tree {
    /// An empty tree known by `name`.
    pub fn new(name: String) -> (r: Tree)
        ensures
            r.name == name,
            r.size == 0,
            r.sha1@.len() == 0,
            r.blobs@.len() == 0,
            r.child_tree@.len() == 0,
    {
        Tree { name, size: 0, sha1: String::new(), blobs: Vec::new(), child_tree: Vec::new() }
    }

    fn blob_index(&self, name: &[u8]) -> (r: usize)
        ensures
            r == blob_position(self.blobs@, name@, 0),
    {
        let mut i: usize = 0;
        while i < self.blobs.len()
            invariant
                i <= self.blobs@.len(),
                blob_position(self.blobs@, name@, i as int) == blob_position(self.blobs@, name@, 0),
            decreases self.blobs@.len() - i,
        {
            if bytes_eq(self.blobs[i].name.as_str().as_bytes(), name) {
                return i;
            }
            i = i + 1;
        }
        i
    }

    fn tree_index(&self, name: &[u8]) -> (r: usize)
        ensures
            r == tree_position(self.child_tree@, name@, 0),
    {
        let mut i: usize = 0;
        while i < self.child_tree.len()
            invariant
                i <= self.child_tree@.len(),
                tree_position(self.child_tree@, name@, i as int) == tree_position(
                    self.child_tree@,
                    name@,
                    0,
                ),
            decreases self.child_tree@.len() - i,
        {
            if bytes_eq(self.child_tree[i].name.as_str().as_bytes(), name) {
                return i;
            }
            i = i + 1;
        }
        i
    }

    /// Records a blob under `name`, in place of one already recorded under
    /// that name.
    pub fn add_blob(&mut self, name: String, blob: Blob)
        ensures
            ({
                let nb = Blob { name, ..blob };
                let k = blob_position(old(self).blobs@, encode_utf8(name@), 0);
                if k < old(self).blobs@.len() {
                    final(self).blobs@ == old(self).blobs@.update(k, nb)
                } else {
                    final(self).blobs@ == old(self).blobs@.push(nb)
                }
            }),
            final(self).child_tree == old(self).child_tree,
            final(self).name == old(self).name,
            final(self).size == old(self).size,
            final(self).sha1 == old(self).sha1,
    {
        let k = self.blob_index(name.as_str().as_bytes());
        let mut blob = blob;
        blob.name = name;
        if k < self.blobs.len() {
            self.blobs.set(k, blob);
        } else {
            self.blobs.push(blob);
        }
    }

    /// Records a subtree under `name`, in place of one already recorded under
    /// that name.
    pub fn add_child_tree(&mut self, name: String, child: Tree)
        ensures
            ({
                let nc = Tree { name, ..child };
                let k = tree_position(old(self).child_tree@, encode_utf8(name@), 0);
                if k < old(self).child_tree@.len() {
                    final(self).child_tree@ == old(self).child_tree@.update(k, nc)
                } else {
                    final(self).child_tree@ == old(self).child_tree@.push(nc)
                }
            }),
            final(self).blobs == old(self).blobs,
            final(self).name == old(self).name,
            final(self).size == old(self).size,
            final(self).sha1 == old(self).sha1,
    {
        let k = self.tree_index(name.as_str().as_bytes());
        let mut child = child;
        child.name = name;
        if k < self.child_tree.len() {
            self.child_tree.set(k, child);
        } else {
            self.child_tree.push(child);
        }
    }

    /// Sets the length of the encoded entries.
    pub fn set_size(&mut self, c: usize)
        ensures
            *final(self) == (Tree { size: c, ..*old(self) }),
    {
        self.size = c;
    }

    /// The blob at a `/`-separated path below this tree, if there is one.
    pub fn find_blob(&self, name: &str) -> (r: Option<&Blob>)
        ensures
            r is Some <==> find_blob_spec(*self, encode_utf8(name@)) is Some,
            r matches Some(b) ==> *b == find_blob_spec(*self, encode_utf8(name@))->Some_0,
    {
        self.find_blob_at(name.as_bytes())
    }

    fn find_blob_at(&self, path: &[u8]) -> (r: Option<&Blob>)
        ensures
            r is Some <==> find_blob_spec(*self, path@) is Some,
            r matches Some(b) ==> *b == find_blob_spec(*self, path@)->Some_0,
        decreases path@.len(),
    {
        let k = find_byte_from(path, 0, 47u8);
        proof {
            lemma_find_byte(path@, 0, 47u8);
        }
        if k < path.len() {
            let (first, rest) = path.split_at(k);
            let i = self.tree_index(first);
            if i < self.child_tree.len() {
                let tail = slice_from(rest, 1);
                assert(tail@ =~= path@.subrange(k + 1, path@.len() as int));
                self.child_tree[i].find_blob_at(tail)
            } else {
                None
            }
        } else {
            let i = self.blob_index(path);
            if i < self.blobs.len() {
                Some(&self.blobs[i])
            } else {
                None
            }
        }
    }
}

/// One parsed tree entry: its mode, its name and the raw digest it refers to.
#[derive(Debug, Clone)]
pub struct TreeItem {
    pub mode: Vec<u8>,
    pub name: String,
    pub digest: Vec<u8>,
}

pub struct TreeItemView {
    pub mode: Seq<u8>,
    pub name: Seq<char>,
    pub digest: Seq<u8>,
}

impl View for TreeItem {
    type V = TreeItemView;

    open spec fn view(&self) -> TreeItemView {
        TreeItemView { mode: self.mode@, name: self.name@, digest: self.digest@ }
    }
}

/// The entry `<mode> <name>\0<20 digest bytes>` at `p`, and where the next
/// one starts.
pub open spec fn tree_item_at(b: Seq<u8>, p: int) -> Option<(TreeItemView, int)> {
    let sp = find_byte(b, p, 32u8);
    let nul = find_byte(b, sp + 1, 0u8);
    if p < 0 || sp >= b.len() || nul >= b.len() || nul + 21 > b.len() || !valid_utf8(
        b.subrange(sp + 1, nul),
    ) {
        None
    } else {
        Some(
            (
                TreeItemView {
                    mode: b.subrange(p, sp),
                    name: decode_utf8(b.subrange(sp + 1, nul)),
                    digest: b.subrange(nul + 1, nul + 21),
                },
                nul + 21,
            ),
        )
    }
}

/// The entries from `p` to the end.
pub open spec fn tree_items_from(b: Seq<u8>, p: int) -> Option<Seq<TreeItemView>>
    decreases b.len() - p,
{
    if p < 0 || p >= b.len() {
        Some(Seq::empty())
    } else {
        match tree_item_at(b, p) {
            None => None,
            Some((it, q)) => if q <= p {
                None
            } else {
                match tree_items_from(b, q) {
                    None => None,
                    Some(rest) => Some(seq![it] + rest),
                }
            },
        }
    }
}

/// What a tree body holds: the declared length of its entries and the
/// entries, when it starts with `"tree "`, a decimal length and a NUL, and
/// that length of well-formed entries follows.
pub open spec fn parse_tree_spec(b: Seq<u8>) -> Option<(i32, Seq<TreeItemView>)> {
    let end = digits_end(b, 5);
    if b.len() < 5 || b.subrange(0, 5) != tree_tag().push(32u8) {
        None
    } else if decimal_at(b, 5) is None || end >= b.len() || b[end] != 0 {
        None
    } else if decimal_at(b, 5)->Some_0 != b.len() - (end + 1) {
        None
    } else {
        match tree_items_from(b, end + 1) {
            None => None,
            Some(items) => Some((decimal_at(b, 5)->Some_0, items)),
        }
    }
}

fn parse_tree_item(b: &[u8], p: usize) -> (r: Option<(TreeItem, usize)>)
    requires
        p <= b@.len(),
    ensures
        match r {
            None => tree_item_at(b@, p as int) is None,
            Some((it, q)) => p < q <= b@.len() && tree_item_at(b@, p as int) == Some((it@, q as int)),
        },
{
    let sp = find_byte_from(b, p, 32u8);
    proof {
        lemma_find_byte(b@, p as int, 32u8);
    }
    if sp >= b.len() {
        return None;
    }
    let nul = find_byte_from(b, sp + 1, 0u8);
    proof {
        lemma_find_byte(b@, sp + 1, 0u8);
    }
    if nul >= b.len() || 21 > b.len() - nul {
        return None;
    }
    let name = match read_n_length_string(b, sp + 1, nul - (sp + 1)) {
        Some(s) => s,
        None => return None,
    };
    let mode = read_n_length_bytes(b, p, sp - p).unwrap();
    let digest = read_n_length_bytes(b, nul + 1, 20).unwrap();
    Some((TreeItem { mode, name, digest }, nul + 21))
}

/// Parses a tree's canonical body into its declared entry length and its
/// entries, in order. A missing tag, length or NUL, a length that differs
/// from what follows, or a truncated or malformed entry is a `FormatError`.
pub fn parse_tree(b: &[u8]) -> (r: Result<(usize, Vec<TreeItem>), GitError>)
    ensures
        r is Ok <==> parse_tree_spec(b@) is Some,
        r matches Ok((size, items)) ==> parse_tree_spec(b@) == Some(
            (size as i32, items@.map_values(|it: TreeItem| it@)),
        ) && size == parse_tree_spec(b@)->Some_0.0,
        r matches Err(e) ==> e == GitError::FormatError,
{
    if b.len() < 5 || b[0] != 116 || b[1] != 114 || b[2] != 101 || b[3] != 101 || b[4] != 32 {
        proof {
            if b@.len() >= 5 {
                assert(b@.subrange(0, 5)[0] == b@[0]);
                assert(b@.subrange(0, 5)[1] == b@[1]);
                assert(b@.subrange(0, 5)[2] == b@[2]);
                assert(b@.subrange(0, 5)[3] == b@[3]);
                assert(b@.subrange(0, 5)[4] == b@[4]);
            }
        }
        return Err(GitError::FormatError);
    }
    assert(b@.subrange(0, 5) =~= tree_tag().push(32u8));
    let (end, count) = parse_decimal(b, 5);
    proof {
        crate::codec::lemma_digits_end_bounds(b@, 5);
    }
    let count = match count {
        None => return Err(GitError::FormatError),
        Some(c) => c,
    };
    if end >= b.len() || b[end] != 0 || count < 0 || count as usize != b.len() - (end + 1) {
        return Err(GitError::FormatError);
    }
    let ghost start = end + 1;
    let mut items: Vec<TreeItem> = Vec::new();
    let mut pos: usize = end + 1;
    while pos < b.len()
        invariant
            start <= pos <= b@.len(),
            b@.len() >= 5,
            b@.subrange(0, 5) == tree_tag().push(32u8),
            end == digits_end(b@, 5),
            start == end + 1,
            end < b@.len(),
            b@[end as int] == 0,
            decimal_at(b@, 5) == Some(count),
            count == b@.len() - start,
            match tree_items_from(b@, pos as int) {
                None => tree_items_from(b@, start) is None,
                Some(rest) => tree_items_from(b@, start) == Some(
                    items@.map_values(|it: TreeItem| it@) + rest,
                ),
            },
        decreases b@.len() - pos,
    {
        match parse_tree_item(b, pos) {
            None => {
                return Err(GitError::FormatError);
            },
            Some((it, q)) => {
                let ghost before = items@.map_values(|it: TreeItem| it@);
                let ghost iv = it@;
                items.push(it);
                proof {
                    assert(items@.map_values(|it: TreeItem| it@) =~= before.push(iv));
                    match tree_items_from(b@, q as int) {
                        None => {},
                        Some(rest) => {
                            assert(before + (seq![iv] + rest) =~= before.push(iv) + rest);
                        },
                    }
                }
                pos = q;
            },
        }
    }
    assert(items@.map_values(|it: TreeItem| it@) + Seq::<TreeItemView>::empty() =~= items@.map_values(
        |it: TreeItem| it@,
    ));
    Ok((count as usize, items))
}

/// Every parsed entry refers to a digest of 20 bytes.
pub proof fn lemma_tree_items_digest_len(b: Seq<u8>, p: int)
    requires
        tree_items_from(b, p) is Some,
    ensures
        forall|i: int|
            0 <= i < tree_items_from(b, p)->Some_0.len() ==> (#[trigger] tree_items_from(
                b,
                p,
            )->Some_0[i]).digest.len() == 20,
    decreases b.len() - p,
{
    if 0 <= p < b.len() {
        let (it, q) = tree_item_at(b, p)->Some_0;
        let sp = find_byte(b, p, 32u8);
        lemma_find_byte(b, p, 32u8);
        let nul = find_byte(b, sp + 1, 0u8);
        lemma_find_byte(b, sp + 1, 0u8);
        assert(it.digest == b.subrange(nul + 1, nul + 21));
        assert(q > p);
        lemma_tree_items_digest_len(b, q);
        let rest = tree_items_from(b, q)->Some_0;
        assert(tree_items_from(b, p)->Some_0 == seq![it] + rest);
        assert forall|i: int| 0 <= i < tree_items_from(b, p)->Some_0.len() implies (
        #[trigger] tree_items_from(b, p)->Some_0[i]).digest.len() == 20 by {
            if i > 0 {
                assert(tree_items_from(b, p)->Some_0[i] == rest[i - 1]);
            } else {
                assert(tree_items_from(b, p)->Some_0[i] == it);
            }
        }
    }
}

pub proof fn lemma_blob_position(bs: Seq<Blob>, name: Seq<u8>, i: int)
    requires
        0 <= i <= bs.len(),
    ensures
        i <= blob_position(bs, name, i) <= bs.len(),
    decreases bs.len() - i,
{
    if i < bs.len() {
        lemma_blob_position(bs, name, i + 1);
    }
}

pub proof fn lemma_tree_position(ts: Seq<Tree>, name: Seq<u8>, i: int)
    requires
        0 <= i <= ts.len(),
    ensures
        i <= tree_position(ts, name, i) <= ts.len(),
    decreases ts.len() - i,
{
    if i < ts.len() {
        lemma_tree_position(ts, name, i + 1);
    }
}

} // verus!

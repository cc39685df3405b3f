//! Hashing of file contents and of directory snapshots into tree objects.
use vstd::prelude::*;
use vstd::utf8::encode_utf8;
use crate::blob::Blob;
use crate::codec::{append_bytes, dec_of, decimal, hex_of, sha1_digest, sha1_of, slice_to_sha_string};
use crate::tree::{bytes_eq, Tree};

verus! {

/// `"blob"` in ASCII.
pub open spec fn blob_tag() -> Seq<u8> {
    seq![98u8, 108, 111, 98]
}

/// `"tree"` in ASCII.
pub open spec fn tree_tag() -> Seq<u8> {
    seq![116u8, 114, 101, 101]
}

/// `"commit"` in ASCII.
pub open spec fn commit_tag() -> Seq<u8> {
    seq![99u8, 111, 109, 109, 105, 116]
}

/// The header of a canonical object body: tag, space, decimal length, NUL.
pub open spec fn object_header(tag: Seq<u8>, len: nat) -> Seq<u8> {
    tag + seq![32u8] + dec_of(len) + seq![0u8]
}

/// The canonical body of a blob.
pub open spec fn blob_body(content: Seq<u8>) -> Seq<u8> {
    object_header(blob_tag(), content.len()) + content
}

/// Writes the header of a canonical object body for `tag` and `len`.
pub fn object_header_bytes(tag: &[u8], len: usize) -> (r: Vec<u8>)
    ensures
        r@ == object_header(tag@, len as nat),
{
    let mut out: Vec<u8> = Vec::new();
    append_bytes(&mut out, tag);
    out.push(32u8);
    let d = decimal(len);
    append_bytes(&mut out, d.as_slice());
    out.push(0u8);
    assert(out@ =~= object_header(tag@, len as nat));
    out
}

/// The digest of a file's content as a blob, with the blob's canonical body.
pub fn generic_blob_hash(content: &[u8]) -> (r: (Vec<u8>, Vec<u8>))
    ensures
        r.1@ == blob_body(content@),
        r.0@ == sha1_of(blob_body(content@)),
        r.0@.len() == 20,
{
    let tag: [u8; 4] = [98u8, 108, 111, 98];
    assert(tag@ =~= blob_tag());
    let mut body = object_header_bytes(tag.as_slice(), content.len());
    append_bytes(&mut body, content);
    let digest = sha1_digest(body.as_slice());
    (digest, body)
}

/// The digest recorded for a symbolic link: that of its target path's bytes.
pub fn generic_symlink_hash(target: &[u8]) -> (r: Vec<u8>)
    ensures
        r@ == sha1_of(target@),
        r@.len() == 20,
{
    sha1_digest(target)
}

/// A file-system entry as read from a working directory: its name and what
/// it is.
#[derive(Debug)]
pub struct FsNode {
    pub name: String,
    pub kind: NodeKind,
}

/// What a file-system entry is: a directory with its entries, a regular file
/// with its content and whether it is executable, or a symbolic link with
/// the bytes of its target path.
#[derive(Debug)]
pub enum NodeKind {
    Dir(Vec<FsNode>),
    File { content: Vec<u8>, executable: bool },
    Symlink { target: Vec<u8> },
}

/// The mode an entry is recorded with in a tree.
#[derive(Debug, Clone, Copy, PartialEq, Eq, Structural)]
pub enum EntryMode {
    Directory,
    Regular,
    Executable,
    Symlink,
}

/// The ASCII text of a mode: `40000`, `100644`, `100755` or `120000`.
pub open spec fn mode_bytes(m: EntryMode) -> Seq<u8> {
    match m {
        EntryMode::Directory => seq![52u8, 48, 48, 48, 48],
        EntryMode::Regular => seq![49u8, 48, 48, 54, 52, 52],
        EntryMode::Executable => seq![49u8, 48, 48, 55, 53, 53],
        EntryMode::Symlink => seq![49u8, 50, 48, 48, 48, 48],
    }
}

/// The mode of a file-system entry.
pub open spec fn mode_of(k: NodeKind) -> EntryMode {
    match k {
        NodeKind::Dir(_) => EntryMode::Directory,
        NodeKind::File { executable, .. } => if executable {
            EntryMode::Executable
        } else {
            EntryMode::Regular
        },
        NodeKind::Symlink { .. } => EntryMode::Symlink,
    }
}

impl EntryMode {
    /// The ASCII text of this mode.
    pub fn as_bytes(&self) -> (r: Vec<u8>)
        ensures
            r@ == mode_bytes(*self),
    {
        match self {
            EntryMode::Directory => vec![52u8, 48, 48, 48, 48],
            EntryMode::Regular => vec![49u8, 48, 48, 54, 52, 52],
            EntryMode::Executable => vec![49u8, 48, 48, 55, 53, 53],
            EntryMode::Symlink => vec![49u8, 50, 48, 48, 48, 48],
        }
    }
}

/// The mode a file-system entry is recorded with.
pub fn classify(node: &FsNode) -> (r: EntryMode)
    ensures
        r == mode_of(node.kind),
{
    match &node.kind {
        NodeKind::Dir(_) => EntryMode::Directory,
        NodeKind::File { executable, .. } => if *executable {
            EntryMode::Executable
        } else {
            EntryMode::Regular
        },
        NodeKind::Symlink { .. } => EntryMode::Symlink,
    }
}

/// The UTF-8 bytes of an entry's name.
pub open spec fn name_bytes(n: FsNode) -> Seq<u8> {
    encode_utf8(n.name@)
}

/// The path of an entry named `name` inside the directory at `dir`; the
/// root directory's path is empty.
pub open spec fn child_path(dir: Seq<u8>, name: Seq<u8>) -> Seq<u8> {
    if dir.len() == 0 {
        name
    } else {
        dir.push(47u8) + name
    }
}

/// Whether the staged path `f` is `path` itself or lies beneath it.
pub open spec fn selects(f: Seq<u8>, path: Seq<u8>) -> bool {
    f == path || (f.len() > path.len() && f.subrange(0, path.len() as int) == path && f[path.len()
        as int] == 47u8)
}

/// Whether some staged path selects `path`.
pub open spec fn selected(files: Seq<Seq<u8>>, path: Seq<u8>) -> bool {
    exists|i: int| 0 <= i < files.len() && selects(#[trigger] files[i], path)
}

/// The UTF-8 bytes of each staged path.
pub open spec fn filter_bytes(files: Seq<String>) -> Seq<Seq<u8>> {
    files.map_values(|f: String| encode_utf8(f@))
}

/// The positions of the entries of a directory that the staged paths select,
/// in directory order.
pub open spec fn kept_indices(cs: Seq<FsNode>, dir: Seq<u8>, files: Seq<Seq<u8>>) -> Seq<int> {
    Seq::new(cs.len(), |i: int| i).filter(keep_pred(cs, dir, files))
}

/// Whether position `i` holds an entry that the staged paths select.
pub open spec fn keep_pred(cs: Seq<FsNode>, dir: Seq<u8>, files: Seq<Seq<u8>>) -> spec_fn(int) -> bool {
    |i: int| 0 <= i < cs.len() && selected(files, child_path(dir, name_bytes(cs[i])))
}

/// The key that orders the entries of a tree: the name, with a `/` after it
/// for a directory.
pub open spec fn sort_key(n: FsNode) -> Seq<u8> {
    if n.kind is Dir {
        name_bytes(n).push(47u8)
    } else {
        name_bytes(n)
    }
}

/// Byte-wise lexicographic order from position `i` on.
pub open spec fn lex_lt_from(a: Seq<u8>, b: Seq<u8>, i: int) -> bool
    decreases a.len() - i,
{
    if i < 0 {
        false
    } else if i >= a.len() {
        i < b.len()
    } else if i >= b.len() {
        false
    } else if a[i] != b[i] {
        a[i] < b[i]
    } else {
        lex_lt_from(a, b, i + 1)
    }
}

/// Byte-wise lexicographic order: a proper prefix comes first.
pub open spec fn lex_lt(a: Seq<u8>, b: Seq<u8>) -> bool {
    lex_lt_from(a, b, 0)
}

/// Where entry `x` goes among the ordered positions `order`: before the
/// first one whose key is greater, so that equal keys keep their order.
pub open spec fn insert_pos(cs: Seq<FsNode>, order: Seq<int>, x: int, j: int) -> int
    decreases order.len() - j,
{
    if j < 0 || j >= order.len() {
        order.len() as int
    } else if lex_lt(sort_key(cs[x]), sort_key(cs[order[j]])) {
        j
    } else {
        insert_pos(cs, order, x, j + 1)
    }
}

/// The positions `ks` ordered by the keys of their entries (insertion sort,
/// stable on equal keys).
pub open spec fn sorted_order(cs: Seq<FsNode>, ks: Seq<int>) -> Seq<int>
    decreases ks.len(),
{
    if ks.len() == 0 {
        ks
    } else {
        let o = sorted_order(cs, ks.drop_last());
        o.insert(insert_pos(cs, o, ks.last(), 0), ks.last())
    }
}

/// The canonical body of the tree of directory `n` at path `dir`, with only
/// the entries that `files` selects.
pub open spec fn tree_body(n: FsNode, dir: Seq<u8>, files: Seq<Seq<u8>>) -> Seq<u8>
    decreases n, 1nat,
{
    match n.kind {
        NodeKind::Dir(cs) => {
            let order = sorted_order(cs@, kept_indices(cs@, dir, files));
            let es = tree_entries(cs@, order, dir, files, order.len());
            object_header(tree_tag(), es.len()) + es
        },
        _ => Seq::empty(),
    }
}

/// The encoded entries `<mode> <name>\0<digest>` of the first `k` positions
/// of `order`.
pub open spec fn tree_entries(
    cs: Seq<FsNode>,
    order: Seq<int>,
    dir: Seq<u8>,
    files: Seq<Seq<u8>>,
    k: nat,
) -> Seq<u8>
    decreases cs, k,
{
    if k == 0 || k > order.len() {
        Seq::empty()
    } else {
        let prev = tree_entries(cs, order, dir, files, (k - 1) as nat);
        let i = order[k - 1];
        if 0 <= i < cs.len() {
            prev + mode_bytes(mode_of(cs[i].kind)) + seq![32u8] + name_bytes(cs[i]) + seq![0u8]
                + node_digest(cs[i], child_path(dir, name_bytes(cs[i])), files)
        } else {
            prev
        }
    }
}

/// The digest an entry at `path` is recorded with: that of its tree, of its
/// content as a blob, or of its link target.
pub open spec fn node_digest(n: FsNode, path: Seq<u8>, files: Seq<Seq<u8>>) -> Seq<u8>
    decreases n, 2nat,
{
    match n.kind {
        NodeKind::Dir(_) => sha1_of(tree_body(n, path, files)),
        NodeKind::File { content, .. } => sha1_of(blob_body(content@)),
        NodeKind::Symlink { target } => sha1_of(target@),
    }
}

/// What a tree records of a blob: name, digest, declared length, content.
pub open spec fn blob_keys(bs: Seq<Blob>) -> Seq<(Seq<char>, Seq<u8>, i32, Seq<u8>)> {
    bs.map_values(|b: Blob| (b.name@, b.hasher@, b.count, b.content@))
}

/// What a tree records of a subtree: name and hex digest.
pub open spec fn tree_keys(ts: Seq<Tree>) -> Seq<(Seq<char>, Seq<char>)> {
    ts.map_values(|t: Tree| (t.name@, t.sha1@))
}

/// The position of the first blob record named by the UTF-8 bytes `name`.
pub open spec fn blob_key_pos(ks: Seq<(Seq<char>, Seq<u8>, i32, Seq<u8>)>, name: Seq<u8>, i: int) -> int
    decreases ks.len() - i,
{
    if i < 0 || i >= ks.len() {
        ks.len() as int
    } else if encode_utf8(ks[i].0) == name {
        i
    } else {
        blob_key_pos(ks, name, i + 1)
    }
}

/// The position of the first subtree record named by the UTF-8 bytes `name`.
pub open spec fn tree_key_pos(ks: Seq<(Seq<char>, Seq<char>)>, name: Seq<u8>, i: int) -> int
    decreases ks.len() - i,
{
    if i < 0 || i >= ks.len() {
        ks.len() as int
    } else if encode_utf8(ks[i].0) == name {
        i
    } else {
        tree_key_pos(ks, name, i + 1)
    }
}

/// The blob records after recording `k` under its name.
pub open spec fn put_blob_key(
    ks: Seq<(Seq<char>, Seq<u8>, i32, Seq<u8>)>,
    k: (Seq<char>, Seq<u8>, i32, Seq<u8>),
) -> Seq<(Seq<char>, Seq<u8>, i32, Seq<u8>)> {
    let p = blob_key_pos(ks, encode_utf8(k.0), 0);
    if p < ks.len() {
        ks.update(p, k)
    } else {
        ks.push(k)
    }
}

/// The subtree records after recording `k` under its name.
pub open spec fn put_tree_key(ks: Seq<(Seq<char>, Seq<char>)>, k: (Seq<char>, Seq<char>)) -> Seq<
    (Seq<char>, Seq<char>),
> {
    let p = tree_key_pos(ks, encode_utf8(k.0), 0);
    if p < ks.len() {
        ks.update(p, k)
    } else {
        ks.push(k)
    }
}

/// The blob records of a parent after hashing the first `k` kept entries:
/// each file or link is recorded by name with its digest and no content.
pub open spec fn recorded_blobs(
    start: Seq<(Seq<char>, Seq<u8>, i32, Seq<u8>)>,
    cs: Seq<FsNode>,
    order: Seq<int>,
    dir: Seq<u8>,
    files: Seq<Seq<u8>>,
    k: nat,
) -> Seq<(Seq<char>, Seq<u8>, i32, Seq<u8>)>
    decreases k,
{
    if k == 0 || k > order.len() {
        start
    } else {
        let prev = recorded_blobs(start, cs, order, dir, files, (k - 1) as nat);
        let i = order[k - 1];
        if 0 <= i < cs.len() && !(cs[i].kind is Dir) {
            put_blob_key(
                prev,
                (
                    cs[i].name@,
                    node_digest(cs[i], child_path(dir, name_bytes(cs[i])), files),
                    0i32,
                    Seq::empty(),
                ),
            )
        } else {
            prev
        }
    }
}

/// The subtree records of a parent after hashing the first `k` kept
/// entries: each directory is recorded by name with its hex digest.
pub open spec fn recorded_trees(
    start: Seq<(Seq<char>, Seq<char>)>,
    cs: Seq<FsNode>,
    order: Seq<int>,
    dir: Seq<u8>,
    files: Seq<Seq<u8>>,
    k: nat,
) -> Seq<(Seq<char>, Seq<char>)>
    decreases k,
{
    if k == 0 || k > order.len() {
        start
    } else {
        let prev = recorded_trees(start, cs, order, dir, files, (k - 1) as nat);
        let i = order[k - 1];
        if 0 <= i < cs.len() && cs[i].kind is Dir {
            put_tree_key(
                prev,
                (cs[i].name@, hex_of(node_digest(cs[i], child_path(dir, name_bytes(cs[i])), files))),
            )
        } else {
            prev
        }
    }
}

/// The kept entries of directory `n`, in tree order.
pub open spec fn kept_order(n: FsNode, dir: Seq<u8>, files: Seq<Seq<u8>>) -> Seq<int> {
    sorted_order(n.kind->Dir_0@, kept_indices(n.kind->Dir_0@, dir, files))
}

proof fn lemma_blob_key_pos(bs: Seq<Blob>, name: Seq<u8>, i: int)
    requires
        0 <= i <= bs.len(),
    ensures
        blob_key_pos(blob_keys(bs), name, i) == crate::tree::blob_position(bs, name, i),
    decreases bs.len() - i,
{
    if i < bs.len() {
        lemma_blob_key_pos(bs, name, i + 1);
    }
}

proof fn lemma_tree_key_pos(ts: Seq<Tree>, name: Seq<u8>, i: int)
    requires
        0 <= i <= ts.len(),
    ensures
        tree_key_pos(tree_keys(ts), name, i) == crate::tree::tree_position(ts, name, i),
    decreases ts.len() - i,
{
    if i < ts.len() {
        lemma_tree_key_pos(ts, name, i + 1);
    }
}

/// An object to be stored: its raw digest and its canonical body.
#[derive(Debug, Clone)]
pub struct LooseObject {
    pub digest: Vec<u8>,
    pub body: Vec<u8>,
}

impl View for LooseObject {
    type V = (Seq<u8>, Seq<u8>);

    open spec fn view(&self) -> (Seq<u8>, Seq<u8>) {
        (self.digest@, self.body@)
    }
}

/// The subtrees below directory `n` that hashing it stores, each after the
/// subtrees below it, in the order of the entries.
pub open spec fn tree_writes(n: FsNode, dir: Seq<u8>, files: Seq<Seq<u8>>) -> Seq<
    (Seq<u8>, Seq<u8>),
>
    decreases n, 1nat,
{
    match n.kind {
        NodeKind::Dir(cs) => {
            let order = sorted_order(cs@, kept_indices(cs@, dir, files));
            writes_of(cs@, order, dir, files, order.len())
        },
        _ => Seq::empty(),
    }
}

/// The subtrees stored for the first `k` positions of `order`.
pub open spec fn writes_of(
    cs: Seq<FsNode>,
    order: Seq<int>,
    dir: Seq<u8>,
    files: Seq<Seq<u8>>,
    k: nat,
) -> Seq<(Seq<u8>, Seq<u8>)>
    decreases cs, k,
{
    if k == 0 || k > order.len() {
        Seq::empty()
    } else {
        let prev = writes_of(cs, order, dir, files, (k - 1) as nat);
        let i = order[k - 1];
        if 0 <= i < cs.len() && cs[i].kind is Dir {
            let p = child_path(dir, name_bytes(cs[i]));
            prev + tree_writes(cs[i], p, files) + seq![
                (sha1_of(tree_body(cs[i], p, files)), tree_body(cs[i], p, files)),
            ]
        } else {
            prev
        }
    }
}

/// The objects of a list, viewed as digest and body.
pub open spec fn objects_view(v: Seq<LooseObject>) -> Seq<(Seq<u8>, Seq<u8>)> {
    v.map_values(|o: LooseObject| o@)
}

/// Whether `a` comes before `b` in byte-wise lexicographic order.
pub fn lex_less(a: &[u8], b: &[u8]) -> (r: bool)
    ensures
        r == lex_lt(a@, b@),
{
    let mut i: usize = 0;
    while i < a.len() && i < b.len() && a[i] == b[i]
        invariant
            i <= a@.len(),
            i <= b@.len(),
            lex_lt_from(a@, b@, i as int) == lex_lt(a@, b@),
        decreases a@.len() - i,
    {
        i = i + 1;
    }
    if i >= a.len() {
        i < b.len()
    } else if i >= b.len() {
        false
    } else {
        a[i] < b[i]
    }
}

/// The ordering key of an entry.
fn sort_key_bytes(n: &FsNode) -> (r: Vec<u8>)
    ensures
        r@ == sort_key(*n),
{
    let mut k: Vec<u8> = Vec::new();
    append_bytes(&mut k, n.name.as_str().as_bytes());
    if let NodeKind::Dir(_) = &n.kind {
        k.push(47u8);
    }
    assert(k@ =~= sort_key(*n));
    k
}

/// The path of entry `name` inside directory `dir`.
pub fn child_path_bytes(dir: &[u8], name: &[u8]) -> (r: Vec<u8>)
    ensures
        r@ == child_path(dir@, name@),
{
    let mut p: Vec<u8> = Vec::new();
    if dir.len() > 0 {
        append_bytes(&mut p, dir);
        p.push(47u8);
    }
    append_bytes(&mut p, name);
    assert(p@ =~= child_path(dir@, name@));
    p
}

/// Whether the staged path `f` is `path` or lies beneath it.
fn selects_path(f: &[u8], path: &[u8]) -> (r: bool)
    ensures
        r == selects(f@, path@),
{
    if f.len() == path.len() {
        bytes_eq(f, path)
    } else if f.len() > path.len() {
        let (head, _) = f.split_at(path.len());
        bytes_eq(head, path) && f[path.len()] == 47u8
    } else {
        false
    }
}

/// Whether some staged path selects `path`.
pub fn is_selected(files: &Vec<String>, path: &[u8]) -> (r: bool)
    ensures
        r == selected(filter_bytes(files@), path@),
{
    let ghost fb = filter_bytes(files@);
    let mut i: usize = 0;
    while i < files.len()
        invariant
            i <= files@.len(),
            fb == filter_bytes(files@),
            forall|k: int| 0 <= k < i ==> !selects(#[trigger] fb[k], path@),
        decreases files@.len() - i,
    {
        if selects_path(files[i].as_str().as_bytes(), path) {
            assert(selects(fb[i as int], path@));
            return true;
        }
        i = i + 1;
    }
    false
}

/// The positions of the selected entries, in directory order.
fn kept_children(cs: &Vec<FsNode>, dir: &[u8], files: &Vec<String>) -> (r: Vec<usize>)
    ensures
        r@.map_values(|x: usize| x as int) == kept_indices(cs@, dir@, filter_bytes(files@)),
        forall|j: int| 0 <= j < r@.len() ==> r@[j] < cs@.len(),
{
    let ghost fb = filter_bytes(files@);
    let ghost pred = keep_pred(cs@, dir@, fb);
    let mut kept: Vec<usize> = Vec::new();
    let mut i: usize = 0;
    while i < cs.len()
        invariant
            i <= cs@.len(),
            fb == filter_bytes(files@),
            pred == keep_pred(cs@, dir@, fb),
            kept@.map_values(|x: usize| x as int) == Seq::new(i as nat, |k: int| k).filter(pred),
            forall|j: int| 0 <= j < kept@.len() ==> kept@[j] < cs@.len(),
        decreases cs@.len() - i,
    {
        let p = child_path_bytes(dir, cs[i].name.as_str().as_bytes());
        let ghost before = kept@.map_values(|x: usize| x as int);
        let sel = is_selected(files, p.as_slice());
        assert(Seq::new((i + 1) as nat, |k: int| k).drop_last() =~= Seq::new(i as nat, |k: int| k));
        proof {
            let s1 = Seq::new((i + 1) as nat, |k: int| k);
            reveal(Seq::filter);
            assert(s1.last() == i as int);
            assert(pred(i as int) == sel);
            assert(s1.filter(pred) == if pred(s1.last()) {
                s1.drop_last().filter(pred).push(s1.last())
            } else {
                s1.drop_last().filter(pred)
            });
        }
        if sel {
            kept.push(i);
            assert(kept@.map_values(|x: usize| x as int) =~= before.push(i as int));
        }
        i = i + 1;
    }
    assert(Seq::new(cs@.len(), |k: int| k) =~= Seq::new(i as nat, |k: int| k));
    kept
}

/// The selected positions ordered by the keys of their entries.
fn sort_children(cs: &Vec<FsNode>, kept: &Vec<usize>) -> (r: Vec<usize>)
    requires
        forall|j: int| 0 <= j < kept@.len() ==> kept@[j] < cs@.len(),
    ensures
        r@.map_values(|x: usize| x as int) == sorted_order(cs@, kept@.map_values(|x: usize| x as int)),
        forall|j: int| 0 <= j < r@.len() ==> r@[j] < cs@.len(),
{
    let ghost ks = kept@.map_values(|x: usize| x as int);
    let mut order: Vec<usize> = Vec::new();
    let mut m: usize = 0;
    while m < kept.len()
        invariant
            m <= kept@.len(),
            ks == kept@.map_values(|x: usize| x as int),
            forall|j: int| 0 <= j < kept@.len() ==> kept@[j] < cs@.len(),
            order@.map_values(|x: usize| x as int) == sorted_order(cs@, ks.take(m as int)),
            forall|j: int| 0 <= j < order@.len() ==> order@[j] < cs@.len(),
        decreases kept@.len() - m,
    {
        let x = kept[m];
        let ghost ov = order@.map_values(|x: usize| x as int);
        let kx = sort_key_bytes(&cs[x]);
        let mut j: usize = 0;
        while j < order.len() && !lex_less(kx.as_slice(), sort_key_bytes(&cs[order[j]]).as_slice())
            invariant
                j <= order@.len(),
                ov == order@.map_values(|x: usize| x as int),
                x < cs@.len(),
                kx@ == sort_key(cs@[x as int]),
                forall|j: int| 0 <= j < order@.len() ==> order@[j] < cs@.len(),
                insert_pos(cs@, ov, x as int, j as int) == insert_pos(cs@, ov, x as int, 0),
            decreases order@.len() - j,
        {
            j = j + 1;
        }
        proof {
            lemma_insert_pos_bounds(cs@, ov, x as int, 0);
            assert(ks.take(m + 1).drop_last() =~= ks.take(m as int));
        }
        order.insert(j, x);
        assert(order@.map_values(|x: usize| x as int) =~= ov.insert(j as int, x as int));
        m = m + 1;
    }
    assert(ks.take(kept@.len() as int) =~= ks);
    order
}

/// Hashes one kept entry of a directory at `dir`: a subtree is hashed,
/// appended to `pending` after the subtrees below it and recorded in
/// `parent`; a file or link is recorded in `parent` as a blob. Returns the
/// entry's digest.
fn hash_child(
    parent: &mut Tree,
    child: &FsNode,
    dir: &[u8],
    files: &Vec<String>,
    pending: &mut Vec<LooseObject>,
) -> (d: Vec<u8>)
    ensures
        ({
            let fb = filter_bytes(files@);
            let cp = child_path(dir@, name_bytes(*child));
            &&& d@ == node_digest(*child, cp, fb)
            &&& objects_view(final(pending)@) == objects_view(old(pending)@) + if child.kind is Dir {
                tree_writes(*child, cp, fb) + seq![(sha1_of(tree_body(*child, cp, fb)), tree_body(*child, cp, fb))]
            } else {
                Seq::empty()
            }
            &&& blob_keys(final(parent).blobs@) == if child.kind is Dir {
                blob_keys(old(parent).blobs@)
            } else {
                put_blob_key(blob_keys(old(parent).blobs@), (child.name@, d@, 0i32, Seq::empty()))
            }
            &&& tree_keys(final(parent).child_tree@) == if child.kind is Dir {
                put_tree_key(tree_keys(old(parent).child_tree@), (child.name@, hex_of(d@)))
            } else {
                tree_keys(old(parent).child_tree@)
            }
            &&& final(parent).name == old(parent).name
        }),
    decreases child, 2nat,
{
    let ghost fb = filter_bytes(files@);
    let cpath = child_path_bytes(dir, child.name.as_str().as_bytes());
    let digest: Vec<u8> = match &child.kind {
        NodeKind::Dir(_) => {
            let mut sub = Tree::new(child.name.clone());
            let (d, body) = generic_tree_hash(&mut sub, child, cpath.as_slice(), files, pending);
            let d2 = d.clone();
            assert(d2@ =~= d@);
            let ghost pv2 = objects_view(pending@);
            pending.push(LooseObject { digest: d2, body });
            assert(objects_view(pending@) =~= pv2.push((d@, tree_body(*child, cpath@, fb))));
            let ghost tb = parent.child_tree@;
            proof {
                lemma_tree_key_pos(tb, encode_utf8(child.name@), 0);
            }
            let nm = child.name.clone();
            let ghost gt = Tree { name: nm, ..sub };
            let ghost key = (child.name@, hex_of(d@));
            assert(gt.name@ == child.name@ && gt.sha1@ == hex_of(d@));
            parent.add_child_tree(nm, sub);
            proof {
                let k = crate::tree::tree_position(tb, encode_utf8(child.name@), 0);
                crate::tree::lemma_tree_position(tb, encode_utf8(child.name@), 0);
                if k < tb.len() {
                    assert(parent.child_tree@ == tb.update(k, gt));
                    assert(tree_keys(parent.child_tree@) =~= tree_keys(tb).update(k, key));
                } else {
                    assert(parent.child_tree@ == tb.push(gt));
                    assert(tree_keys(parent.child_tree@) =~= tree_keys(tb).push(key));
                }
            }
            d
        },
        NodeKind::File { content, .. } => {
            let (d, _) = generic_blob_hash(content.as_slice());
            let mut blob = Blob::new(child.name.clone());
            let d2 = d.clone();
            assert(d2@ =~= d@);
            blob.hasher = d2;
            assert(blob.content@ =~= Seq::<u8>::empty());
            let ghost bb = parent.blobs@;
            proof {
                lemma_blob_key_pos(bb, encode_utf8(child.name@), 0);
            }
            let nm = child.name.clone();
            let ghost gb = Blob { name: nm, ..blob };
            let ghost key = (child.name@, d@, 0i32, Seq::<u8>::empty());
            assert(gb.name@ == child.name@ && gb.hasher@ == d@ && gb.count == 0i32);
            assert(gb.content@ == Seq::<u8>::empty());
            parent.add_blob(nm, blob);
            proof {
                let k = crate::tree::blob_position(bb, encode_utf8(child.name@), 0);
                crate::tree::lemma_blob_position(bb, encode_utf8(child.name@), 0);
                if k < bb.len() {
                    assert(parent.blobs@ == bb.update(k, gb));
                    assert(blob_keys(parent.blobs@) =~= blob_keys(bb).update(k, key));
                } else {
                    assert(parent.blobs@ == bb.push(gb));
                    assert(blob_keys(parent.blobs@) =~= blob_keys(bb).push(key));
                }
            }
            d
        },
        NodeKind::Symlink { target } => {
            let d = generic_symlink_hash(target.as_slice());
            let mut blob = Blob::new(child.name.clone());
            let d2 = d.clone();
            assert(d2@ =~= d@);
            blob.hasher = d2;
            assert(blob.content@ =~= Seq::<u8>::empty());
            let ghost bb = parent.blobs@;
            proof {
                lemma_blob_key_pos(bb, encode_utf8(child.name@), 0);
            }
            let nm = child.name.clone();
            let ghost gb = Blob { name: nm, ..blob };
            let ghost key = (child.name@, d@, 0i32, Seq::<u8>::empty());
            assert(gb.name@ == child.name@ && gb.hasher@ == d@ && gb.count == 0i32);
            assert(gb.content@ == Seq::<u8>::empty());
            parent.add_blob(nm, blob);
            proof {
                let k = crate::tree::blob_position(bb, encode_utf8(child.name@), 0);
                crate::tree::lemma_blob_position(bb, encode_utf8(child.name@), 0);
                if k < bb.len() {
                    assert(parent.blobs@ == bb.update(k, gb));
                    assert(blob_keys(parent.blobs@) =~= blob_keys(bb).update(k, key));
                } else {
                    assert(parent.blobs@ == bb.push(gb));
                    assert(blob_keys(parent.blobs@) =~= blob_keys(bb).push(key));
                }
            }
            d
        },
    };
    proof {
        if !(child.kind is Dir) {
            assert(objects_view(pending@) =~= objects_view(old(pending)@) + Seq::empty());
        }
    }
    digest
}

/// Hashes the directory `node` found at `path` into a tree, keeping only
/// the entries that the staged paths `files` select, ordered by name with a
/// `/` after directory names. Returns the tree's digest and canonical body;
/// every subtree below it is appended to `pending` to be stored (the tree
/// itself is not), and `parent` receives the tree's size, hex digest, blobs
/// and subtrees.
pub fn generic_tree_hash(
    parent: &mut Tree,
    node: &FsNode,
    path: &[u8],
    files: &Vec<String>,
    pending: &mut Vec<LooseObject>,
) -> (r: (Vec<u8>, Vec<u8>))
    requires
        node.kind is Dir,
    ensures
        r.1@ == tree_body(*node, path@, filter_bytes(files@)),
        r.0@ == sha1_of(r.1@),
        objects_view(final(pending)@) == objects_view(old(pending)@) + tree_writes(
            *node,
            path@,
            filter_bytes(files@),
        ),
        final(parent).name == old(parent).name,
        final(parent).size as int == r.1@.len() - object_header(tree_tag(), final(parent).size as nat).len(),
        final(parent).sha1@ == hex_of(r.0@),
        blob_keys(final(parent).blobs@) == recorded_blobs(
            blob_keys(old(parent).blobs@),
            node.kind->Dir_0@,
            kept_order(*node, path@, filter_bytes(files@)),
            path@,
            filter_bytes(files@),
            kept_order(*node, path@, filter_bytes(files@)).len(),
        ),
        tree_keys(final(parent).child_tree@) == recorded_trees(
            tree_keys(old(parent).child_tree@),
            node.kind->Dir_0@,
            kept_order(*node, path@, filter_bytes(files@)),
            path@,
            filter_bytes(files@),
            kept_order(*node, path@, filter_bytes(files@)).len(),
        ),
    decreases node, 1nat,
{
    let ghost fb = filter_bytes(files@);
    let cs = match &node.kind {
        NodeKind::Dir(cs) => cs,
        _ => {
            assert(false);
            return (Vec::new(), Vec::new());
        },
    };
    let kept = kept_children(cs, path, files);
    let order = sort_children(cs, &kept);
    let ghost ov = order@.map_values(|x: usize| x as int);
    let ghost start = objects_view(pending@);
    let ghost bstart = blob_keys(parent.blobs@);
    let ghost tstart = tree_keys(parent.child_tree@);
    let mut entries: Vec<u8> = Vec::new();
    let mut j: usize = 0;
    while j < order.len()
        invariant
            j <= order@.len(),
            node.kind == NodeKind::Dir(*cs),
            ov == order@.map_values(|x: usize| x as int),
            ov == sorted_order(cs@, kept_indices(cs@, path@, fb)),
            fb == filter_bytes(files@),
            forall|k: int| 0 <= k < order@.len() ==> order@[k] < cs@.len(),
            entries@ == tree_entries(cs@, ov, path@, fb, j as nat),
            objects_view(pending@) == start + writes_of(cs@, ov, path@, fb, j as nat),
            parent.name == old(parent).name,
            bstart == blob_keys(old(parent).blobs@),
            tstart == tree_keys(old(parent).child_tree@),
            blob_keys(parent.blobs@) == recorded_blobs(bstart, cs@, ov, path@, fb, j as nat),
            tree_keys(parent.child_tree@) == recorded_trees(tstart, cs@, ov, path@, fb, j as nat),
        decreases order@.len() - j,
    {
        let idx = order[j];
        let child = &cs[idx];
        let name_b = child.name.as_str().as_bytes();
        let mode = classify(child);
        let ghost pv = objects_view(pending@);
        proof {
            assert(decreases_to!(*node => node.kind));
            assert(decreases_to!(node.kind => node.kind->Dir_0));
            assert(decreases_to!(node.kind->Dir_0 => node.kind->Dir_0@));
            assert(decreases_to!(node.kind->Dir_0@ => node.kind->Dir_0@[idx as int]));
        }
        let digest = hash_child(parent, child, path, files, pending);
        let ghost before = entries@;
        append_bytes(&mut entries, mode.as_bytes().as_slice());
        entries.push(32u8);
        append_bytes(&mut entries, name_b);
        entries.push(0u8);
        append_bytes(&mut entries, digest.as_slice());
        proof {
            assert(cs@[idx as int] == *child);
            assert(entries@ =~= before + mode_bytes(mode_of(child.kind)) + seq![32u8] + name_bytes(
                *child,
            ) + seq![0u8] + node_digest(*child, child_path(path@, name_bytes(*child)), fb));
            if child.kind is Dir {
                assert(objects_view(pending@) =~= start + writes_of(cs@, ov, path@, fb, (j + 1) as nat));
            } else {
                assert(objects_view(pending@) =~= pv);
            }
        }
        j = j + 1;
    }
    let tag: [u8; 4] = [116u8, 114, 101, 101];
    assert(tag@ =~= tree_tag());
    let mut body = object_header_bytes(tag.as_slice(), entries.len());
    append_bytes(&mut body, entries.as_slice());
    let digest = sha1_digest(body.as_slice());
    parent.size = entries.len();
    parent.sha1 = slice_to_sha_string(digest.as_slice());
    (digest, body)
}

/// Hashing is deterministic: the same directory snapshot at the same path,
/// with staged paths of the same bytes, gives the same body and digest.
pub proof fn lemma_tree_hash_deterministic(
    n1: FsNode,
    n2: FsNode,
    path: Seq<u8>,
    f1: Seq<String>,
    f2: Seq<String>,
)
    requires
        n1 == n2,
        filter_bytes(f1) == filter_bytes(f2),
    ensures
        tree_body(n1, path, filter_bytes(f1)) == tree_body(n2, path, filter_bytes(f2)),
        sha1_of(tree_body(n1, path, filter_bytes(f1))) == sha1_of(
            tree_body(n2, path, filter_bytes(f2)),
        ),
        tree_writes(n1, path, filter_bytes(f1)) == tree_writes(n2, path, filter_bytes(f2)),
{
}

proof fn lemma_prefix_first(s: Seq<u8>, c: u8, i: int)
    requires
        0 <= i <= s.len(),
    ensures
        lex_lt_from(s, s.push(c), i),
    decreases s.len() - i,
{
    if i < s.len() {
        assert(s.push(c)[i] == s[i]);
        lemma_prefix_first(s, c, i + 1);
    }
}

/// A file orders before a directory of the same name: the directory is
/// compared as if its name ended in `/`.
pub proof fn lemma_file_before_same_named_dir(file: FsNode, dir: FsNode)
    requires
        !(file.kind is Dir),
        dir.kind is Dir,
        file.name@ == dir.name@,
    ensures
        lex_lt(sort_key(file), sort_key(dir)),
        !lex_lt(sort_key(dir), sort_key(file)),
{
    lemma_prefix_first(name_bytes(file), 47u8, 0);
    lemma_not_lt_longer(name_bytes(file), 47u8, 0);
}

proof fn lemma_not_lt_longer(s: Seq<u8>, c: u8, i: int)
    requires
        0 <= i <= s.len(),
    ensures
        !lex_lt_from(s.push(c), s, i),
    decreases s.len() - i,
{
    if i < s.len() {
        assert(s.push(c)[i] == s[i]);
        lemma_not_lt_longer(s, c, i + 1);
    }
}

proof fn lemma_lex_irreflexive(a: Seq<u8>, i: int)
    requires
        0 <= i,
    ensures
        !lex_lt_from(a, a, i),
    decreases a.len() - i,
{
    if i < a.len() {
        lemma_lex_irreflexive(a, i + 1);
    }
}

proof fn lemma_lex_transitive(a: Seq<u8>, b: Seq<u8>, c: Seq<u8>, i: int)
    requires
        0 <= i,
        lex_lt_from(a, b, i),
        lex_lt_from(b, c, i),
    ensures
        lex_lt_from(a, c, i),
    decreases a.len() - i,
{
    if i < a.len() && i < b.len() && i < c.len() && a[i] == b[i] && b[i] == c[i] {
        lemma_lex_transitive(a, b, c, i + 1);
    }
}

/// Whether the entries at the positions `order` have keys in non-decreasing
/// order.
pub open spec fn keys_sorted(cs: Seq<FsNode>, order: Seq<int>) -> bool {
    forall|i: int, j: int|
        0 <= i < j < order.len() ==> !lex_lt(
            sort_key(cs[#[trigger] order[j]]),
            sort_key(cs[#[trigger] order[i]]),
        )
}

proof fn lemma_insert_pos_bounds(cs: Seq<FsNode>, order: Seq<int>, x: int, j: int)
    requires
        0 <= j <= order.len(),
    ensures
        j <= insert_pos(cs, order, x, j) <= order.len(),
        forall|k: int|
            j <= k < insert_pos(cs, order, x, j) ==> !lex_lt(
                sort_key(cs[x]),
                sort_key(cs[#[trigger] order[k]]),
            ),
        insert_pos(cs, order, x, j) < order.len() ==> lex_lt(
            sort_key(cs[x]),
            sort_key(cs[order[insert_pos(cs, order, x, j)]]),
        ),
    decreases order.len() - j,
{
    if j < order.len() && !lex_lt(sort_key(cs[x]), sort_key(cs[order[j]])) {
        lemma_insert_pos_bounds(cs, order, x, j + 1);
    }
}

/// The entries of a tree come out in the order of their keys, so a file
/// comes before a directory of the same name.
pub proof fn lemma_sorted_order_sorted(cs: Seq<FsNode>, ks: Seq<int>)
    ensures
        keys_sorted(cs, sorted_order(cs, ks)),
        sorted_order(cs, ks).len() == ks.len(),
    decreases ks.len(),
{
    if ks.len() > 0 {
        let o = sorted_order(cs, ks.drop_last());
        let x = ks.last();
        lemma_sorted_order_sorted(cs, ks.drop_last());
        lemma_insert_pos_bounds(cs, o, x, 0);
        let pos = insert_pos(cs, o, x, 0);
        let n = o.insert(pos, x);
        assert forall|i: int, j: int| 0 <= i < j < n.len() implies !lex_lt(
            sort_key(cs[#[trigger] n[j]]),
            sort_key(cs[#[trigger] n[i]]),
        ) by {
            let kx = sort_key(cs[x]);
            if j < pos {
                assert(n[i] == o[i] && n[j] == o[j]);
            } else if j == pos {
                assert(n[i] == o[i]);
            } else if i > pos {
                assert(n[i] == o[i - 1] && n[j] == o[j - 1]);
            } else if i == pos {
                assert(n[j] == o[j - 1]);
                let kp = sort_key(cs[o[pos]]);
                let kj = sort_key(cs[o[j - 1]]);
                if lex_lt(kj, kx) {
                    lemma_lex_transitive(kj, kx, kp, 0);
                    if j - 1 == pos {
                        lemma_lex_irreflexive(kp, 0);
                    } else {
                        assert(!lex_lt(sort_key(cs[o[j - 1]]), sort_key(cs[o[pos]])));
                    }
                }
            } else {
                assert(n[i] == o[i] && n[j] == o[j - 1]);
            }
        }
    }
}

proof fn lemma_lex_total(a: Seq<u8>, b: Seq<u8>, i: int)
    requires
        0 <= i <= a.len(),
        i <= b.len(),
        a.subrange(0, i) == b.subrange(0, i),
        !lex_lt_from(a, b, i),
        !lex_lt_from(b, a, i),
    ensures
        a == b,
    decreases a.len() - i,
{
    if i < a.len() && i < b.len() {
        assert(a.subrange(0, i + 1) =~= a.subrange(0, i).push(a[i]));
        assert(b.subrange(0, i + 1) =~= b.subrange(0, i).push(b[i]));
        lemma_lex_total(a, b, i + 1);
    } else {
        assert(a.len() == i && b.len() == i);
        assert(a =~= a.subrange(0, i));
        assert(b =~= b.subrange(0, i));
    }
}

/// Whether the entries of a directory have distinct names, none holding `/`.
pub open spec fn names_plain(cs: Seq<FsNode>) -> bool {
    &&& forall|i: int, j: int|
        0 <= i < j < cs.len() ==> (#[trigger] cs[i]).name@ != (#[trigger] cs[j]).name@
    &&& forall|i: int, k: int|
        0 <= i < cs.len() && 0 <= k < name_bytes(cs[i]).len() ==> #[trigger] name_bytes(cs[i])[k]
            != 47u8
}

proof fn lemma_keys_distinct(cs: Seq<FsNode>, i: int, j: int)
    requires
        names_plain(cs),
        0 <= i < cs.len(),
        0 <= j < cs.len(),
        i != j,
    ensures
        sort_key(cs[i]) != sort_key(cs[j]),
{
    let (x, y) = (cs[i], cs[j]);
    if sort_key(x) == sort_key(y) {
        vstd::utf8::encode_utf8_decode_utf8(x.name@);
        vstd::utf8::encode_utf8_decode_utf8(y.name@);
        if x.kind is Dir && !(y.kind is Dir) {
            let n = name_bytes(x).len();
            assert(name_bytes(y)[n as int] == sort_key(x)[n as int]);
        } else if !(x.kind is Dir) && y.kind is Dir {
            let n = name_bytes(y).len();
            assert(name_bytes(x)[n as int] == sort_key(y)[n as int]);
        } else if x.kind is Dir {
            assert(name_bytes(x) =~= sort_key(x).drop_last());
            assert(name_bytes(y) =~= sort_key(y).drop_last());
        }
        if i < j {
            assert(x.name@ != y.name@);
        } else {
            assert(y.name@ != x.name@);
        }
    }
}

/// Positions without repeats, each below `n`.
pub open spec fn distinct_below(ks: Seq<int>, n: int) -> bool {
    &&& forall|i: int| 0 <= i < ks.len() ==> 0 <= #[trigger] ks[i] < n
    &&& forall|i: int, j: int| 0 <= i < j < ks.len() ==> (#[trigger] ks[i]) != (#[trigger] ks[j])
}

proof fn lemma_kept_indices(cs: Seq<FsNode>, dir: Seq<u8>, files: Seq<Seq<u8>>, m: nat)
    requires
        m <= cs.len(),
    ensures
        ({
            let f = Seq::new(cs.len(), |i: int| i).take(m as int).filter(keep_pred(cs, dir, files));
            &&& forall|i: int| 0 <= i < f.len() ==> 0 <= #[trigger] f[i] < m
            &&& forall|i: int, j: int| 0 <= i < j < f.len() ==> (#[trigger] f[i]) < (#[trigger] f[j])
        }),
    decreases m,
{
    reveal(Seq::filter);
    let p = keep_pred(cs, dir, files);
    let s = Seq::new(cs.len(), |i: int| i).take(m as int);
    let f = s.filter(p);
    if m > 0 {
        lemma_kept_indices(cs, dir, files, (m - 1) as nat);
        assert(s.drop_last() =~= Seq::new(cs.len(), |i: int| i).take(m - 1));
        assert(s.last() == m - 1);
        let prev = s.drop_last().filter(p);
        assert(f == if p(s.last()) { prev.push(s.last()) } else { prev });
        assert forall|i: int| 0 <= i < f.len() implies 0 <= #[trigger] f[i] < m by {
            if i < prev.len() {
                assert(f[i] == prev[i]);
            }
        }
        assert forall|i: int, j: int| 0 <= i < j < f.len() implies (#[trigger] f[i]) < (
        #[trigger] f[j]) by {
            assert(f[i] == prev[i]);
            if j < prev.len() {
                assert(f[j] == prev[j]);
            }
        }
    } else {
        assert(f =~= Seq::<int>::empty());
    }
}

proof fn lemma_sorted_order_members(cs: Seq<FsNode>, ks: Seq<int>)
    requires
        distinct_below(ks, cs.len() as int),
    ensures
        distinct_below(sorted_order(cs, ks), cs.len() as int),
        forall|i: int|
            0 <= i < sorted_order(cs, ks).len() ==> ks.contains(#[trigger] sorted_order(cs, ks)[i]),
    decreases ks.len(),
{
    lemma_sorted_order_sorted(cs, ks);
    if ks.len() > 0 {
        let r = ks.drop_last();
        assert(distinct_below(r, cs.len() as int));
        lemma_sorted_order_members(cs, r);
        let o = sorted_order(cs, r);
        let x = ks.last();
        lemma_insert_pos_bounds(cs, o, x, 0);
        let pos = insert_pos(cs, o, x, 0);
        let n = o.insert(pos, x);
        assert forall|i: int| 0 <= i < o.len() implies o[i] != x by {
            let j = choose|j: int| 0 <= j < r.len() && r[j] == o[i];
            assert(ks[j] == r[j]);
            assert(ks[ks.len() - 1] == x);
        }
        assert forall|i: int| 0 <= i < n.len() implies ks.contains(#[trigger] n[i]) by {
            if i < pos {
                assert(n[i] == o[i]);
                let j = choose|j: int| 0 <= j < r.len() && r[j] == o[i];
                assert(ks[j] == r[j]);
            } else if i == pos {
                assert(ks[ks.len() - 1] == x);
            } else {
                assert(n[i] == o[i - 1]);
                let j = choose|j: int| 0 <= j < r.len() && r[j] == o[i - 1];
                assert(ks[j] == r[j]);
            }
        }
        assert forall|i: int, j: int| 0 <= i < j < n.len() implies (#[trigger] n[i]) != (
        #[trigger] n[j]) by {
            if j < pos {
                assert(n[i] == o[i] && n[j] == o[j]);
            } else if j == pos {
                assert(n[i] == o[i]);
            } else if i > pos {
                assert(n[i] == o[i - 1] && n[j] == o[j - 1]);
            } else if i == pos {
                assert(n[j] == o[j - 1]);
            } else {
                assert(n[i] == o[i] && n[j] == o[j - 1]);
            }
        }
        assert forall|i: int| 0 <= i < n.len() implies 0 <= #[trigger] n[i] < cs.len() by {
            if i < pos {
                assert(n[i] == o[i]);
            } else if i > pos {
                assert(n[i] == o[i - 1]);
            }
        }
    }
}

/// Where the entries of a directory have distinct names free of `/`, the
/// entries of its tree come in strictly increasing key order, a directory
/// compared as if its name ended in `/`.
pub proof fn lemma_tree_order_strict(n: FsNode, dir: Seq<u8>, files: Seq<Seq<u8>>)
    requires
        n.kind is Dir,
        names_plain(n.kind->Dir_0@),
    ensures
        forall|a: int, b: int|
            0 <= a < b < kept_order(n, dir, files).len() ==> lex_lt(
                sort_key(n.kind->Dir_0@[#[trigger] kept_order(n, dir, files)[a]]),
                sort_key(n.kind->Dir_0@[#[trigger] kept_order(n, dir, files)[b]]),
            ),
{
    let cs = n.kind->Dir_0@;
    let ks = kept_indices(cs, dir, files);
    let o = kept_order(n, dir, files);
    lemma_sorted_order_sorted(cs, ks);
    lemma_kept_indices(cs, dir, files, cs.len());
    assert(Seq::new(cs.len(), |i: int| i).take(cs.len() as int) =~= Seq::new(cs.len(), |i: int| i));
    lemma_sorted_order_members(cs, ks);
    assert forall|a: int, b: int| 0 <= a < b < o.len() implies lex_lt(
        sort_key(cs[#[trigger] o[a]]),
        sort_key(cs[#[trigger] o[b]]),
    ) by {
        let ka = sort_key(cs[o[a]]);
        let kb = sort_key(cs[o[b]]);
        assert(!lex_lt(kb, ka));
        if !lex_lt(ka, kb) {
            assert(ka.subrange(0, 0) =~= kb.subrange(0, 0));
            lemma_lex_total(ka, kb, 0);
            lemma_keys_distinct(cs, o[a], o[b]);
        }
    }
}

} // verus!

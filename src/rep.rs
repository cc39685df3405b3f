//! A repository session: the staging index it holds, and the decisions of
//! staging, committing, branching and checking out, on values that the
//! caller reads from and writes to the working directory.
use vstd::prelude::*;
use vstd::utf8::encode_utf8;
use crate::blob::Blob;
use crate::bytes::{find_byte, find_byte_from, lemma_find_byte, read_n_length_bytes};
use crate::codec::{append_bytes, hex_of, sha1_of, slice_to_sha_string};
use crate::commit::{commit_body, parse_commit_spec, Commit, CommitRecordView};
use crate::error::GitError;
use crate::hasher::{
    blob_body, filter_bytes, generic_blob_hash, generic_tree_hash, objects_view, tree_body,
    tree_writes, FsNode, LooseObject,
};
use crate::index::{built_entry, parse_index_spec, staged, staged_all, Entry, FileMeta, Index};
use crate::store::{
    commit_error, commit_loaded, dir_mode, items_loaded, load_depth, stored_body, tree_loaded,
    StoredObject,
};
use crate::tree::{parse_tree_spec, Tree, TreeItemView};

verus! {

/// A file to stage: its path, its metadata and its content.
#[derive(Debug, Clone)]
pub struct StagedFile {
    pub name: String,
    pub meta: FileMeta,
    pub content: Vec<u8>,
}

/// A file to write into the working directory: its path bytes and content.
#[derive(Debug, Clone)]
pub struct WorkFile {
    pub path: Vec<u8>,
    pub content: Vec<u8>,
}

/// What a commit stores: the objects, in the order they are to be written,
/// and the hex digest of the commit.
#[derive(Debug, Clone)]
pub struct CommitPlan {
    pub objects: Vec<LooseObject>,
    pub commit_hex: String,
}

/// The repository session: the staging index it owns.
#[derive(Debug)]
pub struct Repository {
    pub stage: Index,
}

/// The staged path names, as bytes.
pub open spec fn entry_names(es: Seq<Entry>) -> Seq<Seq<u8>> {
    es.map_values(|e: Entry| encode_utf8(e.name@))
}

/// `"ref: refs/heads/"` in ASCII.
pub open spec fn head_ref_prefix() -> Seq<u8> {
    seq![114u8, 101, 102, 58, 32, 114, 101, 102, 115, 47, 104, 101, 97, 100, 115, 47]
}

/// Whether a byte is ASCII white space.
pub open spec fn is_space(c: u8) -> bool {
    c == 32 || c == 9 || c == 10 || c == 13 || c == 12
}

/// The path a HEAD file refers to: what follows the first `": "`, without
/// white space at either end.
pub open spec fn head_ref(content: Seq<u8>) -> Option<Seq<u8>> {
    let k = find_byte(content, 0, 58u8);
    if k + 1 >= content.len() || content[k + 1] != 32 {
        None
    } else {
        Some(trim(content.subrange(k + 2, content.len() as int)))
    }
}

/// A byte sequence without white space at its start.
pub open spec fn trim_start(s: Seq<u8>) -> Seq<u8>
    decreases s.len(),
{
    if s.len() > 0 && is_space(s[0]) {
        trim_start(s.drop_first())
    } else {
        s
    }
}

/// A byte sequence without white space at its end.
pub open spec fn trim_end(s: Seq<u8>) -> Seq<u8>
    decreases s.len(),
{
    if s.len() > 0 && is_space(s.last()) {
        trim_end(s.drop_last())
    } else {
        s
    }
}

/// A byte sequence without white space at either end.
pub open spec fn trim(s: Seq<u8>) -> Seq<u8> {
    trim_end(trim_start(s))
}

/// The files below a tree as path and content: its own blobs, then those
/// below each subtree in turn.
pub open spec fn tree_files(t: Tree, pre: Seq<u8>) -> Seq<(Seq<u8>, Seq<u8>)>
    decreases t, 1nat,
{
    blob_files(t.blobs@, pre) + subtree_files(t.child_tree@, pre, t.child_tree@.len())
}

/// The blobs of a tree at `pre`, as path and content.
pub open spec fn blob_files(bs: Seq<Blob>, pre: Seq<u8>) -> Seq<(Seq<u8>, Seq<u8>)> {
    Seq::new(
        bs.len(),
        |i: int| (crate::hasher::child_path(pre, encode_utf8(bs[i].name@)), bs[i].content@),
    )
}

/// The files below the first `k` subtrees.
pub open spec fn subtree_files(ts: Seq<Tree>, pre: Seq<u8>, k: nat) -> Seq<(Seq<u8>, Seq<u8>)>
    decreases ts, k,
{
    if k == 0 || k > ts.len() {
        Seq::empty()
    } else {
        subtree_files(ts, pre, (k - 1) as nat) + tree_files(
            ts[k - 1],
            crate::hasher::child_path(pre, encode_utf8(ts[k - 1].name@)),
        )
    }
}

proof fn lemma_subtree_files_prefix(ts: Seq<Tree>, pre: Seq<u8>, k: nat)
    requires
        k < ts.len(),
    ensures
        subtree_files(ts, pre, k) == subtree_files(ts.drop_last(), pre, k),
    decreases k,
{
    if k > 0 {
        lemma_subtree_files_prefix(ts, pre, (k - 1) as nat);
    }
}

proof fn lemma_items_files_agree(
    store: Seq<StoredObject>,
    items: Seq<TreeItemView>,
    d: nat,
    b1: Seq<Blob>,
    ts1: Seq<Tree>,
    b2: Seq<Blob>,
    ts2: Seq<Tree>,
    k: nat,
    pre: Seq<u8>,
)
    requires
        items_loaded(store, items, d, b1, ts1, k),
        items_loaded(store, items, d, b2, ts2, k),
    ensures
        b1.len() == b2.len(),
        ts1.len() == ts2.len(),
        blob_files(b1, pre) == blob_files(b2, pre),
        subtree_files(ts1, pre, ts1.len()) == subtree_files(ts2, pre, ts2.len()),
    decreases d + 1, 0nat, k,
{
    if k == 0 || k > items.len() {
        assert(blob_files(b1, pre) =~= blob_files(b2, pre));
        assert(subtree_files(ts1, pre, 0) == subtree_files(ts2, pre, 0));
    } else if items[k - 1].mode == dir_mode() {
        let n = ts1.len();
        lemma_items_files_agree(store, items, d, b1, ts1.drop_last(), b2, ts2.drop_last(), (k - 1) as nat, pre);
        let x1 = ts1.last();
        let x2 = ts2.last();
        let cp = crate::hasher::child_path(pre, encode_utf8(x1.name@));
        lemma_loaded_files_agree(store, hex_of(items[k - 1].digest), items[k - 1].name, d, x1, x2, cp);
        lemma_subtree_files_prefix(ts1, pre, (n - 1) as nat);
        lemma_subtree_files_prefix(ts2, pre, (n - 1) as nat);
        assert(ts1[n - 1] == x1);
        assert(ts2[n - 1] == x2);
        assert(ts1.drop_last().len() == n - 1);
        assert(tree_loaded(store, hex_of(items[k - 1].digest), items[k - 1].name, d, x1));
        assert(tree_loaded(store, hex_of(items[k - 1].digest), items[k - 1].name, d, x2));
        assert(x1.name@ == items[k - 1].name);
        assert(x2.name@ == items[k - 1].name);
        assert(subtree_files(ts1, pre, n) == subtree_files(ts1, pre, (n - 1) as nat) + tree_files(
            x1,
            cp,
        ));
        assert(subtree_files(ts2, pre, n) == subtree_files(ts2, pre, (n - 1) as nat) + tree_files(
            x2,
            cp,
        ));
    } else {
        let n = b1.len();
        lemma_items_files_agree(store, items, d, b1.drop_last(), ts1, b2.drop_last(), ts2, (k - 1) as nat, pre);
        assert(blob_files(b1, pre) =~= blob_files(b1.drop_last(), pre).push(
            (crate::hasher::child_path(pre, encode_utf8(b1.last().name@)), b1.last().content@),
        ));
        assert(blob_files(b2, pre) =~= blob_files(b2.drop_last(), pre).push(
            (crate::hasher::child_path(pre, encode_utf8(b2.last().name@)), b2.last().content@),
        ));
    }
}

/// Loading decides the files of a tree: any two trees that loading the same
/// digest may yield list the same paths and contents.
pub proof fn lemma_loaded_files_agree(
    store: Seq<StoredObject>,
    hex: Seq<char>,
    name: Seq<char>,
    depth: nat,
    t1: Tree,
    t2: Tree,
    pre: Seq<u8>,
)
    requires
        tree_loaded(store, hex, name, depth, t1),
        tree_loaded(store, hex, name, depth, t2),
    ensures
        tree_files(t1, pre) == tree_files(t2, pre),
    decreases depth, 1nat, 0nat,
{
    let items = parse_tree_spec(stored_body(store, hex)->Some_0)->Some_0.1;
    lemma_items_files_agree(
        store,
        items,
        (depth - 1) as nat,
        t1.blobs@,
        t1.child_tree@,
        t2.blobs@,
        t2.child_tree@,
        items.len(),
        pre,
    );
}

/// The files of a list, viewed as path and content.
pub open spec fn work_view(v: Seq<WorkFile>) -> Seq<(Seq<u8>, Seq<u8>)> {
    v.map_values(|w: WorkFile| (w.path@, w.content@))
}

/// Appends the files below `tree`, found at path `pre`, to `all_pair`.
pub fn visit_tree(tree: &Tree, pre: &[u8], all_pair: &mut Vec<WorkFile>)
    ensures
        work_view(final(all_pair)@) == work_view(old(all_pair)@) + tree_files(*tree, pre@),
    decreases tree,
{
    let ghost start = work_view(all_pair@);
    let mut i: usize = 0;
    while i < tree.blobs.len()
        invariant
            i <= tree.blobs@.len(),
            work_view(all_pair@) == start + blob_files(tree.blobs@, pre@).take(i as int),
        decreases tree.blobs@.len() - i,
    {
        let b = &tree.blobs[i];
        let path = crate::hasher::child_path_bytes(pre, b.name.as_str().as_bytes());
        let content = b.content.clone();
        assert(content@ =~= b.content@);
        let ghost before = work_view(all_pair@);
        all_pair.push(WorkFile { path, content });
        assert(work_view(all_pair@) =~= before.push((path@, content@)));
        assert(blob_files(tree.blobs@, pre@).take(i + 1) =~= blob_files(tree.blobs@, pre@).take(
            i as int,
        ).push((path@, content@)));
        i = i + 1;
    }
    assert(blob_files(tree.blobs@, pre@).take(tree.blobs@.len() as int) =~= blob_files(
        tree.blobs@,
        pre@,
    ));
    let ghost mid = work_view(all_pair@);
    let mut j: usize = 0;
    while j < tree.child_tree.len()
        invariant
            j <= tree.child_tree@.len(),
            work_view(all_pair@) == mid + subtree_files(tree.child_tree@, pre@, j as nat),
        decreases tree.child_tree@.len() - j,
    {
        let c = &tree.child_tree[j];
        let cpre = crate::hasher::child_path_bytes(pre, c.name.as_str().as_bytes());
        proof {
            assert(decreases_to!(*tree => tree.child_tree));
            assert(decreases_to!(tree.child_tree => tree.child_tree@));
            assert(decreases_to!(tree.child_tree@ => tree.child_tree@[j as int]));
        }
        visit_tree(c, cpre.as_slice(), all_pair);
        j = j + 1;
    }
    assert(work_view(all_pair@) =~= start + tree_files(*tree, pre@));
}

impl Repository {
    /// Opens a session: `NotFound` without a repository directory; else the
    /// index parsed from `index_file`, or an empty index when there is none.
    pub fn new(has_git_dir: bool, index_file: Option<&[u8]>) -> (r: Result<Repository, GitError>)
        ensures
            !has_git_dir ==> r == Err::<Repository, GitError>(GitError::NotFound),
            has_git_dir && index_file is None ==> (r matches Ok(rep) && rep.stage.entries@.len()
                == 0 && rep.stage.entry_count == 0 && rep.stage.version == 2
                && rep.stage.signature@ == seq!['D', 'I', 'R', 'C']
                && rep.stage.extensions@.len() == 0 && rep.stage.checksum@ == Seq::new(
                20,
                |i: int| 0u8,
            )),
            has_git_dir ==> (index_file matches Some(b) ==> match parse_index_spec(b@) {
                None => r == Err::<Repository, GitError>(GitError::FormatError),
                Some(v) => r matches Ok(rep) && rep.stage@ == v,
            }),
    {
        if !has_git_dir {
            return Err(GitError::NotFound);
        }
        let stage = match index_file {
            Some(b) => Index::from_index_file(b)?,
            None => Index::default(),
        };
        Ok(Repository { stage })
    }

    /// Stages one file: records its entry and returns its blob, to be stored.
    pub fn add_file(&mut self, file: &StagedFile) -> (r: LooseObject)
        requires
            old(self).stage.entry_count < i32::MAX,
        ensures
            r.body@ == blob_body(file.content@),
            r.digest@ == sha1_of(blob_body(file.content@)),
            final(self).stage.entry_count == old(self).stage.entry_count
                + final(self).stage.entries@.len() - old(self).stage.entries@.len(),
            old(self).stage.entries@.len() <= final(self).stage.entries@.len()
                <= old(self).stage.entries@.len() + 1,
            exists|e: Entry|
                built_entry(e, file.name@, file.meta, file.content@) && #[trigger] staged(
                    old(self).stage.entries@,
                    e,
                ) == final(self).stage.entries@,
            final(self).stage.signature == old(self).stage.signature,
            final(self).stage.version == old(self).stage.version,
            final(self).stage.extensions == old(self).stage.extensions,
            final(self).stage.checksum == old(self).stage.checksum,
    {
        let entry = Entry::from(file.name.clone(), file.meta, file.content.as_slice());
        let (digest, body) = generic_blob_hash(file.content.as_slice());
        let ghost e = entry;
        self.stage.add_entry(entry);
        proof {
            crate::index::lemma_staged_len(old(self).stage.entries@, e);
        }
        assert(staged(old(self).stage.entries@, e) == self.stage.entries@);
        LooseObject { digest, body }
    }

    /// Stages files in turn and returns their blobs, to be stored.
    pub fn add(&mut self, files: &Vec<StagedFile>) -> (r: Vec<LooseObject>)
        requires
            old(self).stage.entry_count + files@.len() < i32::MAX,
        ensures
            r@.len() == files@.len(),
            forall|i: int|
                0 <= i < files@.len() ==> (#[trigger] r@[i]).body@ == blob_body(files@[i].content@)
                    && r@[i].digest@ == sha1_of(blob_body(files@[i].content@)),
            final(self).stage.entry_count <= old(self).stage.entry_count + files@.len(),
            final(self).stage.entry_count == old(self).stage.entry_count
                + final(self).stage.entries@.len() - old(self).stage.entries@.len(),
            exists|es: Seq<Entry>|
                es.len() == files@.len() && (forall|i: int|
                    0 <= i < es.len() ==> built_entry(
                        #[trigger] es[i],
                        files@[i].name@,
                        files@[i].meta,
                        files@[i].content@,
                    )) && staged_all(old(self).stage.entries@, es) == final(self).stage.entries@,
            final(self).stage.signature == old(self).stage.signature,
            final(self).stage.version == old(self).stage.version,
            final(self).stage.extensions == old(self).stage.extensions,
            final(self).stage.checksum == old(self).stage.checksum,
    {
        let mut out: Vec<LooseObject> = Vec::new();
        let ghost mut added: Seq<Entry> = Seq::empty();
        let mut i: usize = 0;
        while i < files.len()
            invariant
                i <= files@.len(),
                out@.len() == i,
                old(self).stage.entry_count + files@.len() < i32::MAX,
                self.stage.entry_count <= old(self).stage.entry_count + i,
                self.stage.entry_count >= old(self).stage.entry_count,
                self.stage.entry_count == old(self).stage.entry_count + self.stage.entries@.len()
                    - old(self).stage.entries@.len(),
                added.len() == i,
                forall|k: int|
                    0 <= k < i ==> built_entry(
                        #[trigger] added[k],
                        files@[k].name@,
                        files@[k].meta,
                        files@[k].content@,
                    ),
                staged_all(old(self).stage.entries@, added) == self.stage.entries@,
                self.stage.signature == old(self).stage.signature,
                self.stage.version == old(self).stage.version,
                self.stage.extensions == old(self).stage.extensions,
                self.stage.checksum == old(self).stage.checksum,
                forall|k: int|
                    0 <= k < i ==> (#[trigger] out@[k]).body@ == blob_body(files@[k].content@)
                        && out@[k].digest@ == sha1_of(blob_body(files@[k].content@)),
            decreases files@.len() - i,
        {
            let ghost before = self.stage.entries@;
            let o = self.add_file(&files[i]);
            proof {
                let e = choose|e: Entry|
                    built_entry(e, files@[i as int].name@, files@[i as int].meta, files@[i as int].content@)
                        && #[trigger] staged(before, e) == self.stage.entries@;
                let prev = added;
                added = added.push(e);
                assert(added.drop_last() =~= prev);
            }
            out.push(o);
            i = i + 1;
        }
        proof {
            assert(added.len() == files@.len());
        }
        out
    }

    /// Hashes the working directory `root` into trees, keeping the staged
    /// paths only, and makes a commit of the root tree. The plan lists the
    /// subtrees, then the root tree, then the commit, each to be stored.
    pub fn commit(&self, root: &FsNode, msg: String, author: String, committer: String) -> (r:
        CommitPlan)
        requires
            root.kind is Dir,
        ensures
            ({
                let names = entry_names(self.stage.entries@);
                let tb = tree_body(*root, Seq::empty(), names);
                let cb = commit_body(
                    CommitRecordView {
                        tree: hex_of(sha1_of(tb)),
                        parent: None,
                        author: author@,
                        committer: committer@,
                        msg: msg@,
                    },
                );
                &&& objects_view(r.objects@) == tree_writes(*root, Seq::empty(), names) + seq![
                    (sha1_of(tb), tb),
                    (sha1_of(cb), cb),
                ]
                &&& r.commit_hex@ == hex_of(sha1_of(cb))
            }),
    {
        let ghost names = entry_names(self.stage.entries@);
        let filter = self.staged_names();
        let mut tree = Tree::new(String::new());
        let mut objects: Vec<LooseObject> = Vec::new();
        let top: Vec<u8> = Vec::new();
        assert(top@ =~= Seq::<u8>::empty());
        let (tree_digest, tree_bytes) = generic_tree_hash(
            &mut tree,
            root,
            top.as_slice(),
            &filter,
            &mut objects,
        );
        let ghost w = objects_view(objects@);
        let td = tree_digest.clone();
        assert(td@ =~= tree_digest@);
        objects.push(LooseObject { digest: td, body: tree_bytes });
        let c = Commit::new(tree, msg, author, committer);
        let (cd, cb) = c.generate_commit_body();
        let commit_hex = slice_to_sha_string(cd.as_slice());
        let ghost w2 = objects_view(objects@);
        objects.push(LooseObject { digest: cd, body: cb });
        assert(objects_view(objects@) =~= w2.push((cd@, cb@)));
        assert(w2 =~= w.push((tree_digest@, tree_body(*root, Seq::empty(), names))));
        CommitPlan { objects, commit_hex }
    }

    /// The names of the staged entries, in order.
    fn staged_names(&self) -> (r: Vec<String>)
        ensures
            filter_bytes(r@) == entry_names(self.stage.entries@),
    {
        let ghost names = entry_names(self.stage.entries@);
        let mut filter: Vec<String> = Vec::new();
        let mut i: usize = 0;
        while i < self.stage.entries.len()
            invariant
                i <= self.stage.entries@.len(),
                names == entry_names(self.stage.entries@),
                filter_bytes(filter@) == names.take(i as int),
            decreases self.stage.entries@.len() - i,
        {
            let n = self.stage.entries[i].name.clone();
            let ghost before = filter@;
            filter.push(n);
            proof {
                assert(filter_bytes(filter@) =~= filter_bytes(before).push(encode_utf8(n@)));
                assert(names.take(i + 1) =~= names.take(i as int).push(names[i as int]));
            }
            i = i + 1;
        }
        assert(names.take(self.stage.entries@.len() as int) =~= names);
        filter
    }

    /// The content of a HEAD file that points at the branch `name`:
    /// `ref: refs/heads/<name>`.
    pub fn create_new_branch(&self, name: &str) -> (r: Vec<u8>)
        ensures
            r@ == head_ref_prefix() + encode_utf8(name@),
    {
        let prefix: [u8; 16] = [114u8, 101, 102, 58, 32, 114, 101, 102, 115, 47, 104, 101, 97, 100, 115, 47];
        assert(prefix@ =~= head_ref_prefix());
        let mut out: Vec<u8> = Vec::new();
        append_bytes(&mut out, prefix.as_slice());
        append_bytes(&mut out, name.as_bytes());
        out
    }

    /// The files of the commit stored under `commit_hex`, as path and
    /// content, to be written into the working directory.
    pub fn checkout_branch(&self, store: &Vec<StoredObject>, commit_hex: &String) -> (r: Result<
        Vec<WorkFile>,
        GitError,
    >)
        ensures
            match commit_error(store@, commit_hex@) {
                Some(e) => r == Err::<Vec<WorkFile>, GitError>(e),
                None => r matches Ok(fs) && (exists|k: Commit| commit_loaded(store@, commit_hex@, k))
                    && forall|k: Commit|
                    commit_loaded(store@, commit_hex@, k) ==> #[trigger] tree_files(
                        k.tree,
                        Seq::empty(),
                    ) == work_view(fs@),
            },
    {
        let c = Commit::from_hasher(store, commit_hex)?;
        let ghost k = c;
        let mut out: Vec<WorkFile> = Vec::new();
        let top: Vec<u8> = Vec::new();
        visit_tree(&c.tree, top.as_slice(), &mut out);
        assert(work_view(Seq::<WorkFile>::empty()) =~= Seq::empty());
        assert(top@ =~= Seq::<u8>::empty());
        assert(tree_files(c.tree, Seq::empty()) == work_view(out@));
        proof {
            assert forall|k2: Commit| commit_loaded(store@, commit_hex@, k2) implies #[trigger] tree_files(
                k2.tree,
                Seq::empty(),
            ) == work_view(out@) by {
                let rec = parse_commit_spec(stored_body(store@, commit_hex@)->Some_0)->Some_0;
                lemma_loaded_files_agree(
                    store@,
                    rec.tree,
                    Seq::empty(),
                    load_depth(store@),
                    k.tree,
                    k2.tree,
                    Seq::empty(),
                );
            }
        }
        Ok(out)
    }

    /// Working-tree status; nothing is reported yet.
    pub fn status(&self) {
    }

    /// The path that the HEAD file's content `head` refers to, relative to
    /// the repository directory; `FormatError` when it holds no `": "`.
    pub fn head_path(&self, head: &[u8]) -> (r: Result<Vec<u8>, GitError>)
        ensures
            match head_ref(head@) {
                None => r == Err::<Vec<u8>, GitError>(GitError::FormatError),
                Some(p) => r matches Ok(v) && v@ == p,
            },
    {
        let k = find_byte_from(head, 0, 58u8);
        proof {
            lemma_find_byte(head@, 0, 58u8);
        }
        if k >= head.len() || k + 1 >= head.len() || head[k + 1] != 32 {
            return Err(GitError::FormatError);
        }
        let ghost rest = head@.subrange(k + 2, head@.len() as int);
        let mut lo: usize = k + 2;
        while lo < head.len() && is_space_byte(head[lo])
            invariant
                k + 2 <= lo <= head@.len(),
                trim_start(head@.subrange(lo as int, head@.len() as int)) == trim_start(rest),
            decreases head@.len() - lo,
        {
            assert(head@.subrange(lo as int, head@.len() as int).drop_first() =~= head@.subrange(
                lo + 1,
                head@.len() as int,
            ));
            lo = lo + 1;
        }
        let ghost ts = head@.subrange(lo as int, head@.len() as int);
        assert(trim_start(ts) == ts);
        let mut hi: usize = head.len();
        while hi > lo && is_space_byte(head[hi - 1])
            invariant
                lo <= hi <= head@.len(),
                trim_end(head@.subrange(lo as int, hi as int)) == trim_end(ts),
            decreases hi,
        {
            assert(head@.subrange(lo as int, hi as int).drop_last() =~= head@.subrange(
                lo as int,
                hi - 1,
            ));
            hi = hi - 1;
        }
        let v = read_n_length_bytes(head, lo, hi - lo).unwrap();
        Ok(v)
    }
}

/// Whether a byte is ASCII white space.
fn is_space_byte(c: u8) -> (r: bool)
    ensures
        r == is_space(c),
{
    c == 32 || c == 9 || c == 10 || c == 13 || c == 12
}

} // verus!

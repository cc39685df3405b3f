//! Commit objects: their canonical body and its parser.
use vstd::prelude::*;
use vstd::utf8::{decode_utf8, encode_utf8, valid_utf8};
use crate::bytes::{find_byte, find_byte_from, lemma_find_byte, read_n_length_bytes, utf8_string};
use crate::codec::{append_bytes, push_char, dec_of, decimal_at, digits_end, parse_decimal, sha1_digest, sha1_of};
use crate::error::GitError;
use crate::hasher::{commit_tag, object_header, object_header_bytes};
use crate::tree::Tree;

verus! {

/// A snapshot: its tree, an optional parent commit, attribution and message.
#[derive(Debug)]
pub struct Commit {
    pub parent: Option<String>,
    pub tree: Tree,
    pub author: String,
    pub committer: String,
    pub msg: String,
}

/// The fields of a parsed commit body; the tree is its hex digest.
#[derive(Debug, Clone)]
pub struct CommitRecord {
    pub tree: String,
    pub parent: Option<String>,
    pub author: String,
    pub committer: String,
    pub msg: String,
}

pub struct CommitRecordView {
    pub tree: Seq<char>,
    pub parent: Option<Seq<char>>,
    pub author: Seq<char>,
    pub committer: Seq<char>,
    pub msg: Seq<char>,
}

impl View for CommitRecord {
    type V = CommitRecordView;

    open spec fn view(&self) -> CommitRecordView {
        CommitRecordView {
            tree: self.tree@,
            parent: match self.parent {
                Some(p) => Some(p@),
                None => None,
            },
            author: self.author@,
            committer: self.committer@,
            msg: self.msg@,
        }
    }
}

/// `"tree "` in ASCII.
pub open spec fn tree_prefix() -> Seq<u8> {
    seq![116u8, 114, 101, 101, 32]
}

/// `"parent "` in ASCII.
pub open spec fn parent_prefix() -> Seq<u8> {
    seq![112u8, 97, 114, 101, 110, 116, 32]
}

/// `"author "` in ASCII.
pub open spec fn author_prefix() -> Seq<u8> {
    seq![97u8, 117, 116, 104, 111, 114, 32]
}

/// `"committer "` in ASCII.
pub open spec fn committer_prefix() -> Seq<u8> {
    seq![99u8, 111, 109, 109, 105, 116, 116, 101, 114, 32]
}

/// The text of a commit body after its header.
pub open spec fn commit_content(c: CommitRecordView) -> Seq<u8> {
    tree_prefix() + encode_utf8(c.tree) + seq![10u8] + match c.parent {
        Some(p) => parent_prefix() + encode_utf8(p) + seq![10u8],
        None => Seq::empty(),
    } + author_prefix() + encode_utf8(c.author) + seq![10u8] + committer_prefix() + encode_utf8(
        c.committer,
    ) + seq![10u8, 10u8] + encode_utf8(c.msg) + seq![10u8]
}

/// The canonical body of a commit.
pub open spec fn commit_body(c: CommitRecordView) -> Seq<u8> {
    object_header(commit_tag(), commit_content(c).len()) + commit_content(c)
}

/// The line at `p` that starts with `prefix`: the bytes after the prefix up
/// to the next newline, and where the next line starts.
#[verifier::opaque]
pub open spec fn line_at(b: Seq<u8>, p: int, prefix: Seq<u8>) -> Option<(Seq<u8>, int)> {
    let start = p + prefix.len();
    let nl = find_byte(b, start, 10u8);
    if p < 0 || start > b.len() || b.subrange(p, start) != prefix || nl >= b.len() {
        None
    } else {
        Some((b.subrange(start, nl), nl + 1))
    }
}

/// The text of a line, if it is UTF-8.
pub open spec fn line_text(l: Option<(Seq<u8>, int)>) -> Option<Seq<char>> {
    match l {
        Some((t, _)) => if valid_utf8(t) {
            Some(decode_utf8(t))
        } else {
            None
        },
        None => None,
    }
}

/// Where the next line starts.
pub open spec fn line_next(l: Option<(Seq<u8>, int)>) -> int {
    l->Some_0.1
}

/// What a commit body holds: `"commit "`, a decimal length and a NUL; a
/// `tree` line; an optional `parent` line; an `author` line; a `committer`
/// line; an empty line; and the message up to the next newline.
pub open spec fn parse_commit_spec(b: Seq<u8>) -> Option<CommitRecordView> {
    let end = digits_end(b, 7);
    if b.len() < 7 || b.subrange(0, 7) != commit_tag().push(32u8) || decimal_at(b, 7) is None
        || end >= b.len() || b[end] != 0 {
        None
    } else {
        let t = line_at(b, end + 1, tree_prefix());
        let has_parent = line_at(b, line_next(t), parent_prefix()) is Some;
        let pl = line_at(b, line_next(t), parent_prefix());
        let ap = if has_parent {
            line_next(pl)
        } else {
            line_next(t)
        };
        let a = line_at(b, ap, author_prefix());
        let c = line_at(b, line_next(a), committer_prefix());
        let m = line_at(b, line_next(c), seq![10u8]);
        if line_text(t) is None || (has_parent && line_text(pl) is None) || line_text(a) is None
            || line_text(c) is None || line_text(m) is None {
            None
        } else {
            Some(
                CommitRecordView {
                    tree: line_text(t)->Some_0,
                    parent: if has_parent {
                        Some(line_text(pl)->Some_0)
                    } else {
                        None
                    },
                    author: line_text(a)->Some_0,
                    committer: line_text(c)->Some_0,
                    msg: line_text(m)->Some_0,
                },
            )
        }
    }
}

fn starts_with_at(b: &[u8], p: usize, prefix: &[u8]) -> (r: bool)
    requires
        p <= b@.len(),
    ensures
        r == (p + prefix@.len() <= b@.len() && b@.subrange(p as int, p + prefix@.len())
            == prefix@),
{
    let blen = b.len();
    if prefix.len() > blen - p {
        return false;
    }
    let mut i: usize = 0;
    while i < prefix.len()
        invariant
            i <= prefix@.len(),
            blen == b@.len(),
            p + prefix@.len() <= b@.len(),
            forall|k: int| 0 <= k < i ==> b@[p + k] == prefix@[k],
        decreases prefix@.len() - i,
    {
        if b[p + i] != prefix[i] {
            assert(b@.subrange(p as int, p + prefix@.len())[i as int] != prefix@[i as int]);
            return false;
        }
        i = i + 1;
    }
    assert(b@.subrange(p as int, p + prefix@.len()) =~= prefix@);
    true
}

/// Reads the line at `p` that starts with `prefix`.
fn read_line(b: &[u8], p: usize, prefix: &[u8]) -> (r: Option<(Vec<u8>, usize)>)
    requires
        p <= b@.len(),
    ensures
        match r {
            None => line_at(b@, p as int, prefix@) is None,
            Some((t, q)) => q <= b@.len() && line_at(b@, p as int, prefix@) == Some((t@, q as int)),
        },
{
    reveal(line_at);
    if !starts_with_at(b, p, prefix) {
        return None;
    }
    let blen = b.len();
    let start = p + prefix.len();
    assert(start <= blen);
    let nl = find_byte_from(b, start, 10u8);
    proof {
        lemma_find_byte(b@, start as int, 10u8);
    }
    if nl >= b.len() {
        return None;
    }
    let t = read_n_length_bytes(b, start, nl - start).unwrap();
    Some((t, nl + 1))
}

fn read_text_line(b: &[u8], p: usize, prefix: &[u8]) -> (r: Option<(String, usize)>)
    requires
        p <= b@.len(),
    ensures
        match r {
            None => line_text(line_at(b@, p as int, prefix@)) is None,
            Some((t, q)) => q <= b@.len() && line_text(line_at(b@, p as int, prefix@)) == Some(t@)
                && line_next(line_at(b@, p as int, prefix@)) == q,
        },
{
    match read_line(b, p, prefix) {
        None => None,
        Some((t, q)) => match utf8_string(t) {
            None => None,
            Some(s) => Some((s, q)),
        },
    }
}

/// Parses a commit body. A missing header, `tree`, `author` or `committer`
/// line, a missing empty line or message, or text that is not UTF-8 is a
/// `FormatError`; the `parent` line may be absent.
pub fn parse_commit(b: &[u8]) -> (r: Result<CommitRecord, GitError>)
    ensures
        r is Ok <==> parse_commit_spec(b@) is Some,
        r matches Ok(c) ==> parse_commit_spec(b@) == Some(c@),
        r matches Err(e) ==> e == GitError::FormatError,
{
    let tag: [u8; 7] = [99u8, 111, 109, 109, 105, 116, 32];
    assert(tag@ =~= commit_tag().push(32u8));
    if b.len() < 7 || !starts_with_at(b, 0, tag.as_slice()) {
        return Err(GitError::FormatError);
    }
    let (end, count) = parse_decimal(b, 7);
    proof {
        crate::codec::lemma_digits_end_bounds(b@, 7);
    }
    if count.is_none() || end >= b.len() || b[end] != 0 {
        return Err(GitError::FormatError);
    }
    let tp: [u8; 5] = [116u8, 114, 101, 101, 32];
    let pp: [u8; 7] = [112u8, 97, 114, 101, 110, 116, 32];
    let apx: [u8; 7] = [97u8, 117, 116, 104, 111, 114, 32];
    let cp: [u8; 10] = [99u8, 111, 109, 109, 105, 116, 116, 101, 114, 32];
    let mp: [u8; 1] = [10u8];
    assert(tp@ =~= tree_prefix());
    assert(pp@ =~= parent_prefix());
    assert(apx@ =~= author_prefix());
    assert(cp@ =~= committer_prefix());
    assert(mp@ =~= seq![10u8]);
    let (tree, q) = match read_text_line(b, end + 1, tp.as_slice()) {
        None => return Err(GitError::FormatError),
        Some(x) => x,
    };
    let (parent, q) = match read_line(b, q, pp.as_slice()) {
        None => (None, q),
        Some(_) => match read_text_line(b, q, pp.as_slice()) {
            None => return Err(GitError::FormatError),
            Some((s, q2)) => (Some(s), q2),
        },
    };
    let (author, q) = match read_text_line(b, q, apx.as_slice()) {
        None => return Err(GitError::FormatError),
        Some(x) => x,
    };
    let (committer, q) = match read_text_line(b, q, cp.as_slice()) {
        None => return Err(GitError::FormatError),
        Some(x) => x,
    };
    let (msg, _) = match read_text_line(b, q, mp.as_slice()) {
        None => return Err(GitError::FormatError),
        Some(x) => x,
    };
    Ok(CommitRecord { tree, parent, author, committer, msg })
}

/// Appends the text of a commit body after its header.
fn commit_content_bytes(c: &CommitRecord) -> (r: Vec<u8>)
    ensures
        r@ == commit_content(c@),
{
    let mut out: Vec<u8> = Vec::new();
    let tp: [u8; 5] = [116u8, 114, 101, 101, 32];
    let pp: [u8; 7] = [112u8, 97, 114, 101, 110, 116, 32];
    let apx: [u8; 7] = [97u8, 117, 116, 104, 111, 114, 32];
    let cp: [u8; 10] = [99u8, 111, 109, 109, 105, 116, 116, 101, 114, 32];
    append_bytes(&mut out, tp.as_slice());
    append_bytes(&mut out, c.tree.as_str().as_bytes());
    out.push(10u8);
    let ghost after_tree = out@;
    match &c.parent {
        Some(p) => {
            append_bytes(&mut out, pp.as_slice());
            append_bytes(&mut out, p.as_str().as_bytes());
            out.push(10u8);
        },
        None => {},
    }
    let ghost after_parent = out@;
    append_bytes(&mut out, apx.as_slice());
    append_bytes(&mut out, c.author.as_str().as_bytes());
    out.push(10u8);
    append_bytes(&mut out, cp.as_slice());
    append_bytes(&mut out, c.committer.as_str().as_bytes());
    out.push(10u8);
    out.push(10u8);
    append_bytes(&mut out, c.msg.as_str().as_bytes());
    out.push(10u8);
    proof {
        let pbytes = match c@.parent {
            Some(p) => parent_prefix() + encode_utf8(p) + seq![10u8],
            None => Seq::empty(),
        };
        assert(after_tree =~= tree_prefix() + encode_utf8(c@.tree) + seq![10u8]);
        assert(after_parent =~= after_tree + pbytes);
        assert(out@ =~= commit_content(c@));
    }
    out
}

/// The canonical body of a commit and its digest.
pub fn encode_commit(c: &CommitRecord) -> (r: (Vec<u8>, Vec<u8>))
    ensures
        r.1@ == commit_body(c@),
        r.0@ == sha1_of(commit_body(c@)),
        r.0@.len() == 20,
{
    let content = commit_content_bytes(c);
    let tag: [u8; 6] = [99u8, 111, 109, 109, 105, 116];
    assert(tag@ =~= commit_tag());
    let mut body = object_header_bytes(tag.as_slice(), content.len());
    append_bytes(&mut body, content.as_slice());
    let digest = sha1_digest(body.as_slice());
    (digest, body)
}

impl Commit {
    /// A commit of `tree` with the given attribution and message, and no
    /// parent.
    pub fn new(tree: Tree, msg: String, author: String, committer: String) -> (r: Commit)
        ensures
            r.tree == tree,
            r.msg == msg,
            r.author == author,
            r.committer == committer,
            r.parent is None,
    {
        Commit { parent: None, tree, author, committer, msg }
    }

    /// The fields this commit is encoded from; the tree is its hex digest.
    pub fn record(&self) -> (r: CommitRecord)
        ensures
            r@ == (CommitRecordView {
                tree: self.tree.sha1@,
                parent: match self.parent {
                    Some(p) => Some(p@),
                    None => None,
                },
                author: self.author@,
                committer: self.committer@,
                msg: self.msg@,
            }),
    {
        let parent = match &self.parent {
            Some(p) => Some(p.clone()),
            None => None,
        };
        CommitRecord {
            tree: self.tree.sha1.clone(),
            parent,
            author: self.author.clone(),
            committer: self.committer.clone(),
            msg: self.msg.clone(),
        }
    }

    /// The digest and canonical body of this commit.
    pub fn generate_commit_body(&self) -> (r: (Vec<u8>, Vec<u8>))
        ensures
            r.1@ == commit_body(
                CommitRecordView {
                    tree: self.tree.sha1@,
                    parent: match self.parent {
                        Some(p) => Some(p@),
                        None => None,
                    },
                    author: self.author@,
                    committer: self.committer@,
                    msg: self.msg@,
                },
            ),
            r.0@ == sha1_of(r.1@),
            r.0@.len() == 20,
    {
        encode_commit(&self.record())
    }

    /// The commit of a parsed record, with its tree loaded.
    pub fn from_objects_file(record: CommitRecord, tree: Tree) -> (r: Commit)
        ensures
            r.tree == tree,
            r.parent == record.parent,
            r.author == record.author,
            r.committer == record.committer,
            r.msg == record.msg,
    {
        Commit {
            parent: record.parent,
            tree,
            author: record.author,
            committer: record.committer,
            msg: record.msg,
        }
    }
}

/// Whether a text holds no line feed.
pub open spec fn single_line(t: Seq<char>) -> bool {
    forall|i: int| 0 <= i < encode_utf8(t).len() ==> encode_utf8(t)[i] != 10u8
}

proof fn lemma_line_at(b: Seq<u8>, p: int, prefix: Seq<u8>, t: Seq<u8>)
    requires
        0 <= p,
        p + prefix.len() + t.len() + 1 <= b.len(),
        b.subrange(p, p + prefix.len() + t.len() + 1) == prefix + t + seq![10u8],
        forall|i: int| 0 <= i < t.len() ==> t[i] != 10u8,
    ensures
        line_at(b, p, prefix) == Some((t, p + prefix.len() + t.len() + 1)),
{
    reveal(line_at);
    let w = prefix + t + seq![10u8];
    let start = p + prefix.len();
    assert(w.subrange(0, prefix.len() as int) =~= prefix);
    crate::bytes::lemma_sub_of_sub(b, p, w, 0, prefix.len() as int);
    assert(w.subrange(prefix.len() as int, (prefix.len() + t.len()) as int) =~= t);
    crate::bytes::lemma_sub_of_sub(b, p, w, prefix.len() as int, t.len() as int);
    assert forall|k: int| start <= k < start + t.len() implies b[k] != 10u8 by {
        assert(b.subrange(start, start + t.len())[k - start] == b[k]);
    }
    assert(b.subrange(p, p + w.len())[(prefix.len() + t.len()) as int] == b[start + t.len()]);
    crate::bytes::lemma_find_byte_at(b, start, start + t.len(), 10u8);
}

proof fn lemma_line_text(b: Seq<u8>, p: int, prefix: Seq<u8>, t: Seq<char>)
    requires
        0 <= p,
        p + prefix.len() + encode_utf8(t).len() + 1 <= b.len(),
        b.subrange(p, p + prefix.len() + encode_utf8(t).len() + 1) == prefix + encode_utf8(t)
            + seq![10u8],
        single_line(t),
    ensures
        line_at(b, p, prefix) is Some,
        line_text(line_at(b, p, prefix)) == Some(t),
        line_next(line_at(b, p, prefix)) == p + prefix.len() + encode_utf8(t).len() + 1,
{
    lemma_line_at(b, p, prefix, encode_utf8(t));
    vstd::utf8::encode_utf8_valid_utf8(t);
    vstd::utf8::encode_utf8_decode_utf8(t);
}

proof fn lemma_commit_header(c: CommitRecordView)
    requires
        commit_content(c).len() <= i32::MAX,
    ensures
        ({
            let b = commit_body(c);
            let w = commit_content(c);
            let h = b.len() - w.len();
            &&& 8 < h <= b.len()
            &&& b.subrange(0, 7) == commit_tag().push(32u8)
            &&& decimal_at(b, 7) is Some
            &&& digits_end(b, 7) == h - 1
            &&& b[h - 1] == 0u8
            &&& b.subrange(h, b.len() as int) == w
        }),
{
    let w = commit_content(c);
    let n = w.len();
    let d = dec_of(n);
    let b = commit_body(c);
    assert(b =~= commit_tag() + seq![32u8] + d + seq![0u8] + w);
    assert(b.subrange(0, 7) =~= commit_tag().push(32u8));
    assert(b.subrange(7, 7 + d.len() as int) =~= d);
    crate::codec::lemma_dec_of_digits(n);
    crate::codec::lemma_decimal_at(b, 7, n);
    assert(b.subrange(b.len() - w.len(), b.len() as int) =~= w);
}

proof fn lemma_commit_lines(b: Seq<u8>, h: int, c: CommitRecordView)
    requires
        0 <= h,
        h + commit_content(c).len() == b.len(),
        b.subrange(h, b.len() as int) == commit_content(c),
        single_line(c.tree),
        c.parent matches Some(p) ==> single_line(p),
        single_line(c.author),
        single_line(c.committer),
        single_line(c.msg),
    ensures
        ({
            let t = line_at(b, h, tree_prefix());
            let pl = line_at(b, line_next(t), parent_prefix());
            let ap = if pl is Some { line_next(pl) } else { line_next(t) };
            let a = line_at(b, ap, author_prefix());
            let cl = line_at(b, line_next(a), committer_prefix());
            let m = line_at(b, line_next(cl), seq![10u8]);
            &&& line_text(t) == Some(c.tree)
            &&& (pl is Some <==> c.parent is Some)
            &&& (c.parent matches Some(p) ==> line_text(pl) == Some(p))
            &&& line_text(a) == Some(c.author)
            &&& line_text(cl) == Some(c.committer)
            &&& line_text(m) == Some(c.msg)
        }),
{
    let w = commit_content(c);
    let n = w.len();
    let t1 = tree_prefix() + encode_utf8(c.tree) + seq![10u8];
    let pp = match c.parent {
        Some(p) => parent_prefix() + encode_utf8(p) + seq![10u8],
        None => Seq::empty(),
    };
    let a1 = author_prefix() + encode_utf8(c.author) + seq![10u8];
    let c1 = committer_prefix() + encode_utf8(c.committer) + seq![10u8];
    let m1 = seq![10u8] + encode_utf8(c.msg) + seq![10u8];
    assert(w =~= t1 + pp + a1 + c1 + m1);
    let o_p = t1.len() as int;
    let o_a = o_p + pp.len();
    let o_c = o_a + a1.len();
    let o_m = o_c + c1.len();
    crate::bytes::lemma_split(b, h, t1 + pp + a1 + c1, m1);
    crate::bytes::lemma_split(b, h, t1 + pp + a1, c1);
    crate::bytes::lemma_split(b, h, t1 + pp, a1);
    crate::bytes::lemma_split(b, h, t1, pp);
    lemma_line_text(b, h, tree_prefix(), c.tree);
    lemma_line_text(b, h + o_a, author_prefix(), c.author);
    lemma_line_text(b, h + o_c, committer_prefix(), c.committer);
    lemma_line_text(b, h + o_m, seq![10u8], c.msg);
    match c.parent {
        Some(p) => {
            lemma_line_text(b, h + o_p, parent_prefix(), p);
        },
        None => {
            assert(o_a == o_p);
            assert(b.subrange(h + o_a, h + o_c)[0] == b[h + o_a]);
            assert(a1[0] == 97u8);
            reveal(line_at);
            if line_at(b, h + o_p, parent_prefix()) is Some {
                assert(b.subrange(h + o_p, h + o_p + 7)[0] == b[h + o_p]);
                assert(parent_prefix()[0] == 112u8);
            }
        },
    }
}

/// A commit body reads back as the commit it encodes, when no field holds a
/// line feed and the body's length fits the header.
pub proof fn lemma_commit_round_trip(c: CommitRecordView)
    requires
        single_line(c.tree),
        c.parent matches Some(p) ==> single_line(p),
        single_line(c.author),
        single_line(c.committer),
        single_line(c.msg),
        commit_content(c).len() <= i32::MAX,
    ensures
        parse_commit_spec(commit_body(c)) == Some(c),
{
    let b = commit_body(c);
    let h = b.len() - commit_content(c).len();
    lemma_commit_header(c);
    lemma_commit_lines(b, h, c);
}

/// A canonical commit body, decoded and encoded again, gives the same bytes,
/// and so the same digest.
pub proof fn lemma_commit_reencode(b: Seq<u8>, c: CommitRecordView)
    requires
        b == commit_body(c),
        single_line(c.tree),
        c.parent matches Some(p) ==> single_line(p),
        single_line(c.author),
        single_line(c.committer),
        single_line(c.msg),
        commit_content(c).len() <= i32::MAX,
    ensures
        parse_commit_spec(b) is Some,
        commit_body(parse_commit_spec(b)->Some_0) == b,
        sha1_of(commit_body(parse_commit_spec(b)->Some_0)) == sha1_of(b),
{
    lemma_commit_round_trip(c);
}

/// The decimal digits of a number as characters.
pub open spec fn dec_chars(n: nat) -> Seq<char> {
    dec_of(n).map_values(|b: u8| b as char)
}

/// The time-zone offset `+HHMM` or `-HHMM` of an offset in minutes.
pub open spec fn offset_chars(minutes: i16) -> Seq<char> {
    let m = if minutes < 0 { -minutes } else { minutes as int };
    let h = m / 60;
    let r = m % 60;
    seq![
        if minutes < 0 { '-' } else { '+' },
        ((h / 10) + 48) as char,
        ((h % 10) + 48) as char,
        ((r / 10) + 48) as char,
        ((r % 10) + 48) as char,
    ]
}

/// The attribution of an author or committer: identity, seconds since the
/// epoch, and time-zone offset, separated by spaces.
pub open spec fn attribution_text(identity: Seq<char>, seconds: u64, minutes: i16) -> Seq<char> {
    identity + seq![' '] + dec_chars(seconds as nat) + seq![' '] + offset_chars(minutes)
}

fn push_decimal(s: &mut String, n: u64)
    ensures
        final(s)@ == old(s)@ + dec_chars(n as nat),
    decreases n,
{
    if n < 10 {
        push_char(s, ((n as u8) + 48) as char);
        assert(dec_chars(n as nat) =~= seq![((n as u8) + 48) as char]);
    } else {
        push_decimal(s, n / 10);
        push_char(s, (((n % 10) as u8) + 48) as char);
        assert(dec_of(n as nat) == dec_of((n / 10) as nat).push(((n % 10) + 48) as u8));
        assert(dec_chars(n as nat) =~= dec_chars((n / 10) as nat).push((((n % 10) as u8) + 48) as char));
    }
}

/// The attribution line text `<identity> <seconds> <+HHMM>` of a commit.
pub fn attribution(identity: &String, seconds: u64, minutes: i16) -> (r: String)
    requires
        -6000 < minutes < 6000,
    ensures
        r@ == attribution_text(identity@, seconds, minutes),
{
    let mut s = identity.clone();
    push_char(&mut s, ' ');
    push_decimal(&mut s, seconds);
    push_char(&mut s, ' ');
    let m: i16 = if minutes < 0 { -minutes } else { minutes };
    let h = m / 60;
    let r = m % 60;
    push_char(&mut s, if minutes < 0 { '-' } else { '+' });
    push_char(&mut s, (((h / 10) as u8) + 48) as char);
    push_char(&mut s, (((h % 10) as u8) + 48) as char);
    push_char(&mut s, (((r / 10) as u8) + 48) as char);
    push_char(&mut s, (((r % 10) as u8) + 48) as char);
    assert(s@ =~= attribution_text(identity@, seconds, minutes));
    s
}

} // verus!

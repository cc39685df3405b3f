//! The staging index: its entries, their binary records, and the rules for
//! staging a file.
use vstd::prelude::*;
use vstd::utf8::{decode_utf8, encode_utf8, valid_utf8};
use crate::bytes::{
    lemma_read_i16, lemma_read_i32, be_i16_at, be_i32_at, find_byte, find_byte_from, i16_bytes, i32_bytes, put_i16, put_i32,
    read_i16, read_i32, read_n_length_bytes, read_n_length_string, with_fill_capacity,
};
use crate::codec::{append_bytes, hex_of, sha1_of, slice_to_sha_string};
use crate::error::GitError;
use crate::hasher::{blob_body, generic_blob_hash};

verus! {

/// A file time: seconds and nanoseconds.
#[derive(Debug, Clone, Copy, PartialEq, Eq, Structural)]
pub struct Time {
    pub sec: i32,
    pub nsec: i32,
}

/// An opaque extension block of the index, passed through unchanged.
#[derive(Debug, Clone)]
pub struct Extension {
    pub extension: String,
    pub signature: Vec<u8>,
    pub size: i32,
    pub data: Vec<u8>,
}

/// One staged file: its metadata, the digest of its content, and its path.
#[derive(Debug, Clone)]
pub struct Entry {
    pub ctime: Time,
    pub mtime: Time,
    pub dev: i32,
    pub inode: i32,
    pub mode: i32,
    pub uid: i32,
    pub gid: i32,
    pub file_size: i32,
    pub hasher: String,
    pub hasher_vec: Vec<u8>,
    pub flag: i16,
    pub name: String,
    pub pad: Vec<u8>,
}

/// The staging area: header, entries in order, extensions and checksum.
#[derive(Debug, Clone)]
pub struct Index {
    pub signature: String,
    pub version: i32,
    pub entry_count: i32,
    pub entries: Vec<Entry>,
    pub extensions: Vec<Extension>,
    pub checksum: Vec<u8>,
}

/// The file metadata that an entry records.
#[derive(Debug, Clone, Copy)]
pub struct FileMeta {
    pub ctime: Time,
    pub mtime: Time,
    pub dev: i32,
    pub inode: i32,
    pub mode: i32,
    pub uid: i32,
    pub gid: i32,
    pub file_size: i32,
}

pub struct ExtensionView {
    pub extension: Seq<char>,
    pub signature: Seq<u8>,
    pub size: i32,
    pub data: Seq<u8>,
}

pub struct EntryView {
    pub ctime: Time,
    pub mtime: Time,
    pub dev: i32,
    pub inode: i32,
    pub mode: i32,
    pub uid: i32,
    pub gid: i32,
    pub file_size: i32,
    pub hasher: Seq<char>,
    pub hasher_vec: Seq<u8>,
    pub flag: i16,
    pub name: Seq<char>,
    pub pad: Seq<u8>,
}

pub struct IndexView {
    pub signature: Seq<char>,
    pub version: i32,
    pub entry_count: i32,
    pub entries: Seq<EntryView>,
    pub extensions: Seq<ExtensionView>,
    pub checksum: Seq<u8>,
}

impl View for Extension {
    type V = ExtensionView;

    open spec fn view(&self) -> ExtensionView {
        ExtensionView {
            extension: self.extension@,
            signature: self.signature@,
            size: self.size,
            data: self.data@,
        }
    }
}

impl View for Entry {
    type V = EntryView;

    open spec fn view(&self) -> EntryView {
        EntryView {
            ctime: self.ctime,
            mtime: self.mtime,
            dev: self.dev,
            inode: self.inode,
            mode: self.mode,
            uid: self.uid,
            gid: self.gid,
            file_size: self.file_size,
            hasher: self.hasher@,
            hasher_vec: self.hasher_vec@,
            flag: self.flag,
            name: self.name@,
            pad: self.pad@,
        }
    }
}

impl View for Index {
    type V = IndexView;

    open spec fn view(&self) -> IndexView {
        IndexView {
            signature: self.signature@,
            version: self.version,
            entry_count: self.entry_count,
            entries: self.entries@.map_values(|e: Entry| e@),
            extensions: self.extensions@.map_values(|x: Extension| x@),
            checksum: self.checksum@,
        }
    }
}

/// Length of the fixed fields of an entry record: two times, six 32-bit
/// fields, the file size, the 20-byte digest and the 16-bit flags.
pub open spec fn fixed_len() -> int {
    62
}

/// The zero padding after a name of `n` bytes: between 1 and 8 bytes, so
/// that the record length is a multiple of 8.
pub open spec fn pad_len(n: int) -> int {
    8 - (fixed_len() + n) % 8
}

/// The name-length field of an entry's flags (its low 12 bits).
pub open spec fn name_field(flag: i16) -> int {
    ((flag as u16) & 0xfffu16) as int
}

/// The name length at which the flags hold the sentinel and the name ends
/// at a NUL instead.
pub open spec fn name_sentinel() -> int {
    0xfff
}

/// The entry record that starts at `p`, and where the next one starts.
#[verifier::opaque]
pub open spec fn entry_at(b: Seq<u8>, p: int) -> Option<(EntryView, int)> {
    if p < 0 || p + fixed_len() > b.len() {
        None
    } else {
        let flag = be_i16_at(b, p + 60);
        let start = p + fixed_len();
        let name_end = if name_field(flag) < name_sentinel() {
            start + name_field(flag)
        } else {
            find_byte(b, start, 0)
        };
        let name_bytes = b.subrange(start, name_end);
        let end = name_end + pad_len(name_end - start);
        if end > b.len() || !valid_utf8(name_bytes) {
            None
        } else {
            Some(
                (
                    EntryView {
                        ctime: Time { sec: be_i32_at(b, p), nsec: be_i32_at(b, p + 4) },
                        mtime: Time { sec: be_i32_at(b, p + 8), nsec: be_i32_at(b, p + 12) },
                        dev: be_i32_at(b, p + 16),
                        inode: be_i32_at(b, p + 20),
                        mode: be_i32_at(b, p + 24),
                        uid: be_i32_at(b, p + 28),
                        gid: be_i32_at(b, p + 32),
                        file_size: be_i32_at(b, p + 36),
                        hasher: hex_of(b.subrange(p + 40, p + 60)),
                        hasher_vec: b.subrange(p + 40, p + 60),
                        flag,
                        name: decode_utf8(name_bytes),
                        pad: b.subrange(name_end, end),
                    },
                    end,
                ),
            )
        }
    }
}

/// `n` consecutive entry records from `p`, and where they end.
pub open spec fn entries_from(b: Seq<u8>, p: int, n: nat) -> Option<(Seq<EntryView>, int)>
    decreases n,
{
    if n == 0 {
        Some((Seq::empty(), p))
    } else {
        match entry_at(b, p) {
            None => None,
            Some((e, q)) => match entries_from(b, q, (n - 1) as nat) {
                None => None,
                Some((es, r)) => Some((seq![e] + es, r)),
            },
        }
    }
}

/// The extension blocks from `p` up to the 20 trailing checksum bytes, and
/// where they end.
pub open spec fn extensions_from(b: Seq<u8>, p: int) -> Option<(Seq<ExtensionView>, int)>
    decreases b.len() - p,
{
    if p < 0 || p >= b.len() - 20 {
        Some((Seq::empty(), p))
    } else if p + 8 > b.len() {
        None
    } else {
        let size = be_i32_at(b, p + 4);
        let end = p + 8 + size;
        if size < 0 || end > b.len() {
            None
        } else {
            let x = ExtensionView {
                extension: Seq::empty(),
                signature: b.subrange(p, p + 4),
                size,
                data: b.subrange(p + 8, end),
            };
            match extensions_from(b, end) {
                None => None,
                Some((xs, q)) => Some((seq![x] + xs, q)),
            }
        }
    }
}

/// What an index file's bytes hold, if they are well formed.
pub open spec fn parse_index_spec(b: Seq<u8>) -> Option<IndexView> {
    if b.len() < 12 || !valid_utf8(b.subrange(0, 4)) || be_i32_at(b, 8) < 0 {
        None
    } else {
        match entries_from(b, 12, be_i32_at(b, 8) as nat) {
            None => None,
            Some((es, p)) => match extensions_from(b, p) {
                None => None,
                Some((xs, q)) => if q + 20 != b.len() {
                    None
                } else {
                    Some(
                        IndexView {
                            signature: decode_utf8(b.subrange(0, 4)),
                            version: be_i32_at(b, 4),
                            entry_count: be_i32_at(b, 8),
                            entries: es,
                            extensions: xs,
                            checksum: b.subrange(q, q + 20),
                        },
                    )
                },
            },
        }
    }
}

/// The fixed fields of an entry's record: times, metadata, digest, flags.
pub open spec fn entry_fixed(e: EntryView) -> Seq<u8> {
    i32_bytes(e.ctime.sec) + i32_bytes(e.ctime.nsec) + i32_bytes(e.mtime.sec) + i32_bytes(
        e.mtime.nsec,
    ) + i32_bytes(e.dev) + i32_bytes(e.inode) + i32_bytes(e.mode) + i32_bytes(e.uid) + i32_bytes(
        e.gid,
    ) + i32_bytes(e.file_size) + e.hasher_vec + i16_bytes(e.flag)
}

/// The binary record of an entry.
pub open spec fn entry_bytes(e: EntryView) -> Seq<u8> {
    entry_fixed(e) + encode_utf8(e.name) + e.pad
}

/// The records of a sequence of entries, one after the other.
pub open spec fn entries_bytes(es: Seq<EntryView>) -> Seq<u8>
    decreases es.len(),
{
    if es.len() == 0 {
        Seq::empty()
    } else {
        entries_bytes(es.drop_last()) + entry_bytes(es.last())
    }
}

/// The binary block of an extension: signature, size, payload.
pub open spec fn extension_bytes(x: ExtensionView) -> Seq<u8> {
    x.signature + i32_bytes(x.size) + x.data
}

/// The blocks of a sequence of extensions, one after the other.
pub open spec fn extensions_bytes(xs: Seq<ExtensionView>) -> Seq<u8>
    decreases xs.len(),
{
    if xs.len() == 0 {
        Seq::empty()
    } else {
        extensions_bytes(xs.drop_last()) + extension_bytes(xs.last())
    }
}

/// The bytes of an index file.
pub open spec fn index_bytes(ix: IndexView) -> Seq<u8> {
    encode_utf8(ix.signature) + i32_bytes(ix.version) + i32_bytes(ix.entry_count) + entries_bytes(
        ix.entries,
    ) + extensions_bytes(ix.extensions) + ix.checksum
}

impl Extension {
    /// Appends the block of this extension.
    pub fn write(&self, out: &mut Vec<u8>)
        ensures
            final(out)@ == old(out)@ + extension_bytes(self@),
    {
        append_bytes(out, self.signature.as_slice());
        put_i32(out, self.size);
        append_bytes(out, self.data.as_slice());
        assert(final(out)@ =~= old(out)@ + extension_bytes(self@));
    }
}

impl Entry {
    /// Appends the binary record of this entry.
    pub fn write(&self, out: &mut Vec<u8>)
        ensures
            final(out)@ == old(out)@ + entry_bytes(self@),
    {
        let ghost start = out@;
        put_i32(out, self.ctime.sec);
        put_i32(out, self.ctime.nsec);
        put_i32(out, self.mtime.sec);
        put_i32(out, self.mtime.nsec);
        put_i32(out, self.dev);
        put_i32(out, self.inode);
        put_i32(out, self.mode);
        put_i32(out, self.uid);
        put_i32(out, self.gid);
        put_i32(out, self.file_size);
        append_bytes(out, self.hasher_vec.as_slice());
        put_i16(out, self.flag);
        append_bytes(out, self.name.as_str().as_bytes());
        append_bytes(out, self.pad.as_slice());
        assert(out@ =~= start + entry_bytes(self@));
    }
}

/// The time (seconds, then nanoseconds) at `pos`, if eight bytes are there.
fn read_time(b: &[u8], pos: usize) -> (r: Option<Time>)
    ensures
        r is Some <==> pos + 8 <= b@.len(),
        r matches Some(t) ==> t == (Time {
            sec: be_i32_at(b@, pos as int),
            nsec: be_i32_at(b@, pos + 4),
        }),
{
    if b.len() < 8 || pos > b.len() - 8 {
        return None;
    }
    let sec = read_i32(b, pos).unwrap();
    let nsec = read_i32(b, pos + 4).unwrap();
    Some(Time { sec, nsec })
}

/// The entry record at `p`, and where the next one starts.
fn parse_entry(b: &[u8], p: usize) -> (r: Option<(Entry, usize)>)
    ensures
        match r {
            None => entry_at(b@, p as int) is None,
            Some((e, q)) => q <= b@.len() && entry_at(b@, p as int) == Some((e@, q as int)),
        },
{
    reveal(entry_at);
    if b.len() < 62 || p > b.len() - 62 {
        return None;
    }
    let ctime = read_time(b, p).unwrap();
    let mtime = read_time(b, p + 8).unwrap();
    let dev = read_i32(b, p + 16).unwrap();
    let inode = read_i32(b, p + 20).unwrap();
    let mode = read_i32(b, p + 24).unwrap();
    let uid = read_i32(b, p + 28).unwrap();
    let gid = read_i32(b, p + 32).unwrap();
    let file_size = read_i32(b, p + 36).unwrap();
    let hasher_vec = read_n_length_bytes(b, p + 40, 20).unwrap();
    let flag = read_i16(b, p + 60).unwrap();
    let start: usize = p + 62;
    let field: u16 = (flag as u16) & 0xfffu16;
    if field < 0xfff && field as usize > b.len() - start {
        return None;
    }
    proof {
        crate::bytes::lemma_find_byte(b@, start as int, 0);
    }
    let name_end: usize = if field < 0xfff {
        start + field as usize
    } else {
        find_byte_from(b, start, 0)
    };
    if name_end > b.len() {
        return None;
    }
    let n = name_end - start;
    let pad_n: usize = 8 - (62 + n) % 8;
    if pad_n > b.len() - name_end {
        return None;
    }
    let name = match read_n_length_string(b, start, n) {
        Some(s) => s,
        None => return None,
    };
    let pad = read_n_length_bytes(b, name_end, pad_n).unwrap();
    let hasher = slice_to_sha_string(hasher_vec.as_slice());
    let e = Entry {
        ctime,
        mtime,
        dev,
        inode,
        mode,
        uid,
        gid,
        file_size,
        hasher,
        hasher_vec,
        flag,
        name,
        pad,
    };
    Some((e, name_end + pad_n))
}

/// The extension block at `p`, and where the next one starts.
fn parse_extension(b: &[u8], p: usize) -> (r: Option<(Extension, usize)>)
    requires
        p + 20 < b@.len(),
    ensures
        match r {
            None => extensions_from(b@, p as int) is None,
            Some((x, q)) => {
                &&& p < q <= b@.len()
                &&& match (extensions_from(b@, p as int), extensions_from(b@, q as int)) {
                    (Some((xs, e1)), Some((ys, e2))) => xs == seq![x@] + ys && e1 == e2,
                    (None, None) => true,
                    _ => false,
                }
            },
        },
{
    let len = b.len();
    if len < 8 || p > len - 8 {
        return None;
    }
    let signature = read_n_length_bytes(b, p, 4).unwrap();
    let size = read_i32(b, p + 4).unwrap();
    if size < 0 || size as usize > len - (p + 8) {
        return None;
    }
    let data = read_n_length_bytes(b, p + 8, size as usize).unwrap();
    let x = Extension { extension: String::new(), signature, size, data };
    Some((x, p + 8 + size as usize))
}

impl Index {
    /// Parses the bytes of an index file: the header, `entry_count` entry
    /// records, the extension blocks up to the last 20 bytes, and those 20
    /// bytes as the checksum. Any short read, a negative count or a name that
    /// is not UTF-8 is a `FormatError`.
    pub fn from_index_file(b: &[u8]) -> (r: Result<Index, GitError>)
        ensures
            r is Ok <==> parse_index_spec(b@) is Some,
            r matches Ok(ix) ==> parse_index_spec(b@) == Some(ix@),
            r matches Err(e) ==> e == GitError::FormatError,
    {
        if b.len() < 12 {
            return Err(GitError::FormatError);
        }
        let signature = match read_n_length_string(b, 0, 4) {
            Some(s) => s,
            None => return Err(GitError::FormatError),
        };
        let version = read_i32(b, 4).unwrap();
        let entry_count = read_i32(b, 8).unwrap();
        if entry_count < 0 {
            return Err(GitError::FormatError);
        }
        let ghost n = entry_count as nat;
        let mut entries: Vec<Entry> = Vec::new();
        let mut pos: usize = 12;
        let mut i: i32 = 0;
        while i < entry_count
            invariant
                0 <= i <= entry_count,
                n == entry_count as nat,
                b@.len() >= 12,
                valid_utf8(b@.subrange(0, 4)),
                entry_count == be_i32_at(b@, 8),
                pos <= b@.len(),
                entries@.len() == i,
                match entries_from(b@, pos as int, (n - i) as nat) {
                    None => entries_from(b@, 12, n) is None,
                    Some((rest, q)) => entries_from(b@, 12, n) == Some(
                        (entries@.map_values(|e: Entry| e@) + rest, q),
                    ),
                },
            decreases entry_count - i,
        {
            match parse_entry(b, pos) {
                None => {
                    assert(entries_from(b@, pos as int, (n - i) as nat) is None);
                    return Err(GitError::FormatError);
                },
                Some((e, q)) => {
                    let ghost before = entries@.map_values(|e: Entry| e@);
                    let ghost ev = e@;
                    entries.push(e);
                    proof {
                        assert(entries@.map_values(|e: Entry| e@) =~= before.push(ev));
                        match entries_from(b@, q as int, (n - i - 1) as nat) {
                            None => {},
                            Some((rest, r)) => {
                                assert(before + (seq![ev] + rest) =~= before.push(ev) + rest);
                            },
                        }
                    }
                    pos = q;
                },
            }
            i = i + 1;
        }
        proof {
            assert(entries@.map_values(|e: Entry| e@) + Seq::<EntryView>::empty() =~= entries@.map_values(|e: Entry| e@));
        }
        let ghost ext_start = pos as int;
        let mut extensions: Vec<Extension> = Vec::new();
        while b.len() >= 20 && pos < b.len() - 20
            invariant
                ext_start <= pos <= b@.len(),
                b@.len() >= 12,
                valid_utf8(b@.subrange(0, 4)),
                entry_count == be_i32_at(b@, 8),
                entry_count >= 0,
                n == entry_count as nat,
                entries_from(b@, 12, n) == Some((entries@.map_values(|e: Entry| e@), ext_start)),
                match extensions_from(b@, pos as int) {
                    None => extensions_from(b@, ext_start) is None,
                    Some((rest, q)) => extensions_from(b@, ext_start) == Some(
                        (extensions@.map_values(|x: Extension| x@) + rest, q),
                    ),
                },
            decreases b@.len() - pos,
        {
            match parse_extension(b, pos) {
                None => {
                    return Err(GitError::FormatError);
                },
                Some((x, q)) => {
                    let ghost before = extensions@.map_values(|x: Extension| x@);
                    let ghost xv = x@;
                    extensions.push(x);
                    proof {
                        assert(extensions@.map_values(|x: Extension| x@) =~= before.push(xv));
                        match extensions_from(b@, q as int) {
                            None => {},
                            Some((rest, r)) => {
                                assert(before + (seq![xv] + rest) =~= before.push(xv) + rest);
                            },
                        }
                    }
                    pos = q;
                },
            }
        }
        if b.len() < 20 || pos != b.len() - 20 {
            return Err(GitError::FormatError);
        }
        let checksum = read_n_length_bytes(b, pos, 20).unwrap();
        proof {
            assert(extensions@.map_values(|x: Extension| x@) + Seq::<ExtensionView>::empty() =~= extensions@.map_values(|x: Extension| x@));
        }
        Ok(Index { signature, version, entry_count, entries, extensions, checksum })
    }
}

impl Default for Index {
    /// An empty version-2 index with the signature `DIRC` and a zero checksum.
    fn default() -> (r: Index)
        ensures
            r.signature@ == seq!['D', 'I', 'R', 'C'],
            r.version == 2,
            r.entry_count == 0,
            r.entries@.len() == 0,
            r.extensions@.len() == 0,
            r.checksum@ == Seq::new(20, |i: int| 0u8),
    {
        let signature = String::from_str("DIRC");
        proof {
            reveal_strlit("DIRC");
        }
        let checksum = with_fill_capacity(20);
        Index {
            signature,
            version: 2,
            entry_count: 0,
            entries: Vec::new(),
            extensions: Vec::new(),
            checksum,
        }
    }
}

/// Whether `e` is the entry of a file at path `name` with metadata `meta`
/// and content `content`.
pub open spec fn built_entry(e: Entry, name: Seq<char>, meta: FileMeta, content: Seq<u8>) -> bool {
    let n = encode_utf8(name).len();
    &&& e.name@ == name
    &&& e.hasher_vec@ == sha1_of(blob_body(content))
    &&& e.hasher@ == hex_of(e.hasher_vec@)
    &&& e.flag as int == if n < name_sentinel() {
        n as int
    } else {
        name_sentinel()
    }
    &&& e.pad@ == Seq::new(pad_len(n as int) as nat, |i: int| 0u8)
    &&& e.ctime == meta.ctime
    &&& e.mtime == meta.mtime
    &&& e.dev == meta.dev
    &&& e.inode == meta.inode
    &&& e.mode == meta.mode
    &&& e.uid == meta.uid
    &&& e.gid == meta.gid
    &&& e.file_size == meta.file_size
}

/// The entries after staging each of `es` in turn.
pub open spec fn staged_all(start: Seq<Entry>, es: Seq<Entry>) -> Seq<Entry>
    decreases es.len(),
{
    if es.len() == 0 {
        start
    } else {
        staged(staged_all(start, es.drop_last()), es.last())
    }
}

/// Whether some entry records the digest `h`.
pub open spec fn has_digest(es: Seq<Entry>, h: Seq<char>) -> bool {
    exists|i: int| 0 <= i < es.len() && (#[trigger] es[i]).hasher@ == h
}

/// The position of the first entry at or after `i` named `name`, or the
/// length when there is none.
pub open spec fn find_name(es: Seq<Entry>, name: Seq<char>, i: int) -> int
    decreases es.len() - i,
{
    if i < 0 || i >= es.len() {
        es.len() as int
    } else if es[i].name@ == name {
        i
    } else {
        find_name(es, name, i + 1)
    }
}

pub proof fn lemma_find_name(es: Seq<Entry>, name: Seq<char>, i: int)
    requires
        0 <= i <= es.len(),
    ensures
        i <= find_name(es, name, i) <= es.len(),
        forall|k: int| i <= k < find_name(es, name, i) ==> (#[trigger] es[k]).name@ != name,
        find_name(es, name, i) < es.len() ==> es[find_name(es, name, i)].name@ == name,
    decreases es.len() - i,
{
    if i < es.len() && es[i].name@ != name {
        lemma_find_name(es, name, i + 1);
    }
}

/// The entries after staging `ent`: unchanged when its digest is already
/// recorded; else it takes the place of the entry with its name; else it is
/// appended.
pub open spec fn staged(es: Seq<Entry>, ent: Entry) -> Seq<Entry> {
    if has_digest(es, ent.hasher@) {
        es
    } else {
        let k = find_name(es, ent.name@, 0);
        if k < es.len() {
            es.update(k, ent)
        } else {
            es.push(ent)
        }
    }
}

/// No two entries share a name.
pub open spec fn names_unique(es: Seq<Entry>) -> bool {
    forall|i: int, j: int|
        0 <= i < j < es.len() ==> (#[trigger] es[i]).name@ != (#[trigger] es[j]).name@
}

impl Index {
    /// Whether some entry records the digest `hasher`.
    pub fn is_exists_entrie(&self, hasher: String) -> (r: bool)
        ensures
            r == has_digest(self.entries@, hasher@),
    {
        let mut i: usize = 0;
        while i < self.entries.len()
            invariant
                i <= self.entries@.len(),
                forall|k: int| 0 <= k < i ==> (#[trigger] self.entries@[k]).hasher@ != hasher@,
            decreases self.entries@.len() - i,
        {
            if self.entries[i].hasher == hasher {
                return true;
            }
            i = i + 1;
        }
        false
    }

    /// The position of the first entry named `name`, or the length.
    fn position_of(&self, name: &String) -> (r: usize)
        ensures
            r == find_name(self.entries@, name@, 0),
    {
        let mut i: usize = 0;
        while i < self.entries.len()
            invariant
                i <= self.entries@.len(),
                find_name(self.entries@, name@, i as int) == find_name(self.entries@, name@, 0),
            decreases self.entries@.len() - i,
        {
            if self.entries[i].name == *name {
                return i;
            }
            i = i + 1;
        }
        i
    }

    /// Stages an entry. Re-staging content whose digest is already recorded
    /// changes nothing; an entry with the same name is replaced in place;
    /// otherwise the entry is appended and the count goes up by one.
    pub fn add_entry(&mut self, ent: Entry)
        requires
            old(self).entry_count < i32::MAX,
        ensures
            final(self).entries@ == staged(old(self).entries@, ent),
            final(self).entry_count == old(self).entry_count + final(self).entries@.len()
                - old(self).entries@.len(),
            has_digest(old(self).entries@, ent.hasher@) ==> *final(self) == *old(self),
            names_unique(old(self).entries@) ==> names_unique(final(self).entries@),
            final(self).signature == old(self).signature,
            final(self).version == old(self).version,
            final(self).extensions == old(self).extensions,
            final(self).checksum == old(self).checksum,
    {
        if !self.is_exists_entrie(ent.hasher.clone()) {
            let idx = self.position_of(&ent.name);
            proof {
                lemma_find_name(self.entries@, ent.name@, 0);
            }
            proof {
                lemma_staged_names_unique(self.entries@, ent);
            }
            if idx < self.entries.len() {
                self.entries.set(idx, ent);
            } else {
                self.entries.push(ent);
                self.entry_count = self.entry_count + 1;
            }
        }
    }

    /// Sets the modification time of the first entry named `name`; nothing
    /// changes when there is none.
    pub fn update_entrie_mtime(&mut self, name: &String, mtime: Time)
        ensures
            ({
                let k = find_name(old(self).entries@, name@, 0);
                &&& final(self).entries@.len() == old(self).entries@.len()
                &&& forall|i: int|
                    0 <= i < old(self).entries@.len() && i != k ==> final(self).entries@[i]
                        == old(self).entries@[i]
                &&& k < old(self).entries@.len() ==> final(self).entries@[k] == (Entry {
                    mtime,
                    ..old(self).entries@[k]
                })
            }),
            final(self).entry_count == old(self).entry_count,
            final(self).signature == old(self).signature,
            final(self).version == old(self).version,
            final(self).extensions == old(self).extensions,
            final(self).checksum == old(self).checksum,
    {
        let idx = self.position_of(name);
        proof {
            lemma_find_name(self.entries@, name@, 0);
        }
        if idx < self.entries.len() {
            let mut e = self.entries.remove(idx);
            e.mtime = mtime;
            self.entries.insert(idx, e);
        }
    }

    /// Appends the bytes of the index file: header, entries in their current
    /// order, extensions and checksum.
    pub fn write(&self, out: &mut Vec<u8>)
        ensures
            final(out)@ == old(out)@ + index_bytes(self@),
    {
        let ghost start = out@;
        append_bytes(out, self.signature.as_str().as_bytes());
        put_i32(out, self.version);
        put_i32(out, self.entry_count);
        let ghost head = out@;
        let ghost ev = self@.entries;
        let mut i: usize = 0;
        while i < self.entries.len()
            invariant
                i <= self.entries@.len(),
                ev == self.entries@.map_values(|e: Entry| e@),
                out@ == head + entries_bytes(ev.take(i as int)),
            decreases self.entries@.len() - i,
        {
            self.entries[i].write(out);
            proof {
                assert(ev.take(i + 1).drop_last() =~= ev.take(i as int));
            }
            i = i + 1;
        }
        assert(ev.take(self.entries@.len() as int) =~= ev);
        let ghost mid = out@;
        let ghost xv = self@.extensions;
        let mut j: usize = 0;
        while j < self.extensions.len()
            invariant
                j <= self.extensions@.len(),
                xv == self.extensions@.map_values(|x: Extension| x@),
                out@ == mid + extensions_bytes(xv.take(j as int)),
            decreases self.extensions@.len() - j,
        {
            self.extensions[j].write(out);
            proof {
                assert(xv.take(j + 1).drop_last() =~= xv.take(j as int));
            }
            j = j + 1;
        }
        assert(xv.take(self.extensions@.len() as int) =~= xv);
        append_bytes(out, self.checksum.as_slice());
        assert(out@ =~= start + index_bytes(self@));
    }
}

impl Entry {
    /// The entry for a file at path `name` with metadata `meta` and content
    /// `content`: the digest of the content as a blob, the name length in the
    /// flags (the sentinel for long names), and zero padding.
    pub fn from(name: String, meta: FileMeta, content: &[u8]) -> (r: Entry)
        ensures
            r.name == name,
            built_entry(r, name@, meta, content@),
            r.hasher_vec@ == sha1_of(blob_body(content@)),
            r.hasher_vec@.len() == 20,
            r.hasher@ == hex_of(r.hasher_vec@),
            encode_utf8(name@).len() < name_sentinel() ==> r.flag as int == encode_utf8(name@).len()
                && name_field(r.flag) == encode_utf8(name@).len(),
            encode_utf8(name@).len() >= name_sentinel() ==> r.flag as int == name_sentinel()
                && name_field(r.flag) == name_sentinel(),
            r.pad@ == Seq::new(pad_len(encode_utf8(name@).len() as int) as nat, |i: int| 0u8),
            r.ctime == meta.ctime,
            r.mtime == meta.mtime,
            r.dev == meta.dev,
            r.inode == meta.inode,
            r.mode == meta.mode,
            r.uid == meta.uid,
            r.gid == meta.gid,
            r.file_size == meta.file_size,
    {
        let (digest, _) = generic_blob_hash(content);
        let hasher = slice_to_sha_string(digest.as_slice());
        let n = name.as_str().as_bytes().len();
        let flag: i16 = if n < 0xfff {
            n as i16
        } else {
            0xfff
        };
        assert(name_field(flag) == if n < 0xfff { n as int } else { 0xfff }) by (bit_vector)
            requires
                flag == if n < 0xfff { n as i16 } else { 0xfff },
        ;
        let pad_n: usize = 8 - (62 + n % 8) % 8;
        assert(pad_n == pad_len(n as int));
        let pad = with_fill_capacity(pad_n);
        Entry {
            ctime: meta.ctime,
            mtime: meta.mtime,
            dev: meta.dev,
            inode: meta.inode,
            mode: meta.mode,
            uid: meta.uid,
            gid: meta.gid,
            file_size: meta.file_size,
            hasher,
            hasher_vec: digest,
            flag,
            name,
            pad,
        }
    }
}

/// Staging keeps the names of the entries unique.
pub proof fn lemma_staged_names_unique(es: Seq<Entry>, ent: Entry)
    ensures
        names_unique(es) ==> names_unique(staged(es, ent)),
{
    lemma_find_name(es, ent.name@, 0);
    let k = find_name(es, ent.name@, 0);
    let s = staged(es, ent);
    if names_unique(es) && !has_digest(es, ent.hasher@) {
        assert forall|i: int, j: int| 0 <= i < j < s.len() implies (#[trigger] s[i]).name@ != (
        #[trigger] s[j]).name@ by {
            if k < es.len() {
                if i == k {
                    assert(es[j].name@ != es[i].name@);
                } else if j == k {
                    assert(es[j].name@ != es[i].name@);
                }
            } else {
                if j == es.len() {
                    assert(es[i].name@ != ent.name@);
                } else {
                    assert(es[i].name@ != es[j].name@);
                }
            }
        }
    }
}

/// Staging a path with one digest and then with another leaves exactly one
/// entry of that name, holding the second digest, and no more entries than
/// after the first staging. Neither digest may be recorded beforehand: a
/// digest already recorded makes its staging change nothing.
pub proof fn lemma_restage_replaces(es: Seq<Entry>, e1: Entry, e2: Entry)
    requires
        names_unique(es),
        e1.name@ == e2.name@,
        e1.hasher@ != e2.hasher@,
        !has_digest(es, e1.hasher@),
        !has_digest(es, e2.hasher@),
    ensures
        ({
            let s1 = staged(es, e1);
            let s2 = staged(s1, e2);
            &&& s2.len() == s1.len()
            &&& exists|k: int| 0 <= k < s2.len() && s2[k] == e2
            &&& forall|i: int|
                0 <= i < s2.len() && (#[trigger] s2[i]).name@ == e2.name@ ==> s2[i] == e2
            &&& forall|i: int, j: int|
                0 <= i < s2.len() && 0 <= j < s2.len() && (#[trigger] s2[i]).name@ == e2.name@
                    && (#[trigger] s2[j]).name@ == e2.name@ ==> i == j
        }),
{
    let s1 = staged(es, e1);
    lemma_staged_names_unique(es, e1);
    lemma_find_name(es, e1.name@, 0);
    let k1 = find_name(es, e1.name@, 0);
    let slot = if k1 < es.len() { k1 } else { es.len() as int };
    assert(s1[slot] == e1);
    assert(!has_digest(s1, e2.hasher@)) by {
        if has_digest(s1, e2.hasher@) {
            let i = choose|i: int| 0 <= i < s1.len() && (#[trigger] s1[i]).hasher@ == e2.hasher@;
            if i != slot {
                assert(es[i].hasher@ == e2.hasher@);
            }
        }
    }
    lemma_find_name(s1, e2.name@, 0);
    let k2 = find_name(s1, e2.name@, 0);
    assert(k2 == slot) by {
        if k2 < slot {
        } else if k2 > slot {
            assert(s1[slot].name@ != e2.name@);
        }
    }
    let s2 = staged(s1, e2);
    assert(s2 == s1.update(slot, e2));
    lemma_staged_names_unique(s1, e2);
    assert(s2[slot] == e2);
    assert forall|i: int| 0 <= i < s2.len() && (#[trigger] s2[i]).name@ == e2.name@ implies s2[i]
        == e2 by {
        if i != slot {
            if i < slot {
                assert(s2[i].name@ != s2[slot].name@);
            } else {
                assert(s2[slot].name@ != s2[i].name@);
            }
        }
    }
    assert forall|i: int, j: int|
        0 <= i < s2.len() && 0 <= j < s2.len() && (#[trigger] s2[i]).name@ == e2.name@ && (
        #[trigger] s2[j]).name@ == e2.name@ implies i == j by {
        if i < j {
            assert(s2[i].name@ != s2[j].name@);
        } else if j < i {
            assert(s2[j].name@ != s2[i].name@);
        }
    }
}

/// The padding after a name of `n` bytes is 1 to 8 bytes long and brings the
/// record to a multiple of 8 bytes.
pub proof fn lemma_pad_len(n: int)
    requires
        n >= 0,
    ensures
        1 <= pad_len(n) <= 8,
        (fixed_len() + n + pad_len(n)) % 8 == 0,
{
}

/// Every entry record that parses holds the padding that brings its length
/// to a multiple of 8, and the record spans exactly its fixed fields, name
/// and padding.
pub proof fn lemma_parsed_entry_padding(b: Seq<u8>, p: int)
    requires
        entry_at(b, p) is Some,
    ensures
        ({
            let (e, q) = entry_at(b, p)->Some_0;
            let n = encode_utf8(e.name).len() as int;
            &&& e.pad.len() == pad_len(n)
            &&& 1 <= e.pad.len() <= 8
            &&& (fixed_len() + n + e.pad.len()) % 8 == 0
            &&& q - p == fixed_len() + n + e.pad.len()
        }),
{
    reveal(entry_at);
    let flag = be_i16_at(b, p + 60);
    let start = p + fixed_len();
    crate::bytes::lemma_find_byte(b, start, 0);
    let name_end = if name_field(flag) < name_sentinel() {
        start + name_field(flag)
    } else {
        find_byte(b, start, 0)
    };
    let name_bytes = b.subrange(start, name_end);
    vstd::utf8::decode_utf8_encode_utf8(name_bytes);
    lemma_pad_len(name_end - start);
}

/// Staging keeps every entry or adds one.
pub proof fn lemma_staged_len(es: Seq<Entry>, ent: Entry)
    ensures
        es.len() <= staged(es, ent).len() <= es.len() + 1,
{
    lemma_find_name(es, ent.name@, 0);
}

/// An entry whose record reads back as itself: a 20-byte digest with its
/// hex form, the padding for its name, and a name length in the flags (or
/// the sentinel, with a name free of NUL bytes and padding that starts with
/// one).
pub open spec fn entry_wf(e: EntryView) -> bool {
    let nb = encode_utf8(e.name);
    &&& e.hasher_vec.len() == 20
    &&& e.hasher == hex_of(e.hasher_vec)
    &&& e.pad.len() == pad_len(nb.len() as int)
    &&& if name_field(e.flag) < name_sentinel() {
        nb.len() == name_field(e.flag)
    } else {
        (forall|i: int| 0 <= i < nb.len() ==> nb[i] != 0u8) && e.pad[0] == 0u8
    }
}

/// An extension whose block reads back as itself.
pub open spec fn extension_wf(x: ExtensionView) -> bool {
    &&& x.extension.len() == 0
    &&& x.signature.len() == 4
    &&& x.size >= 0
    &&& x.data.len() == x.size
}

/// An index whose file reads back as itself: a 4-byte signature, a count
/// equal to the number of entries, well-formed entries and extensions, and
/// a 20-byte checksum.
pub open spec fn index_wf(ix: IndexView) -> bool {
    &&& encode_utf8(ix.signature).len() == 4
    &&& ix.entry_count >= 0
    &&& ix.entry_count == ix.entries.len()
    &&& forall|i: int| 0 <= i < ix.entries.len() ==> entry_wf(#[trigger] ix.entries[i])
    &&& forall|i: int| 0 <= i < ix.extensions.len() ==> extension_wf(#[trigger] ix.extensions[i])
    &&& ix.checksum.len() == 20
}

proof fn lemma_entry_fixed(b: Seq<u8>, p: int, e: EntryView)
    requires
        e.hasher_vec.len() == 20,
        0 <= p,
        p + 62 <= b.len(),
        b.subrange(p, p + 62) == entry_fixed(e),
    ensures
        be_i32_at(b, p) == e.ctime.sec,
        be_i32_at(b, p + 4) == e.ctime.nsec,
        be_i32_at(b, p + 8) == e.mtime.sec,
        be_i32_at(b, p + 12) == e.mtime.nsec,
        be_i32_at(b, p + 16) == e.dev,
        be_i32_at(b, p + 20) == e.inode,
        be_i32_at(b, p + 24) == e.mode,
        be_i32_at(b, p + 28) == e.uid,
        be_i32_at(b, p + 32) == e.gid,
        be_i32_at(b, p + 36) == e.file_size,
        b.subrange(p + 40, p + 60) == e.hasher_vec,
        be_i16_at(b, p + 60) == e.flag,
{
    let x1 = i32_bytes(e.ctime.sec);
    let x2 = x1 + i32_bytes(e.ctime.nsec);
    let x3 = x2 + i32_bytes(e.mtime.sec);
    let x4 = x3 + i32_bytes(e.mtime.nsec);
    let x5 = x4 + i32_bytes(e.dev);
    let x6 = x5 + i32_bytes(e.inode);
    let x7 = x6 + i32_bytes(e.mode);
    let x8 = x7 + i32_bytes(e.uid);
    let x9 = x8 + i32_bytes(e.gid);
    let x10 = x9 + i32_bytes(e.file_size);
    let x11 = x10 + e.hasher_vec;
    crate::bytes::lemma_split(b, p, x11, i16_bytes(e.flag));
    lemma_read_i16(b, p + 60, e.flag);
    crate::bytes::lemma_split(b, p, x10, e.hasher_vec);
    crate::bytes::lemma_split(b, p, x9, i32_bytes(e.file_size));
    lemma_read_i32(b, p + 36, e.file_size);
    crate::bytes::lemma_split(b, p, x8, i32_bytes(e.gid));
    lemma_read_i32(b, p + 32, e.gid);
    crate::bytes::lemma_split(b, p, x7, i32_bytes(e.uid));
    lemma_read_i32(b, p + 28, e.uid);
    crate::bytes::lemma_split(b, p, x6, i32_bytes(e.mode));
    lemma_read_i32(b, p + 24, e.mode);
    crate::bytes::lemma_split(b, p, x5, i32_bytes(e.inode));
    lemma_read_i32(b, p + 20, e.inode);
    crate::bytes::lemma_split(b, p, x4, i32_bytes(e.dev));
    lemma_read_i32(b, p + 16, e.dev);
    crate::bytes::lemma_split(b, p, x3, i32_bytes(e.mtime.nsec));
    lemma_read_i32(b, p + 12, e.mtime.nsec);
    crate::bytes::lemma_split(b, p, x2, i32_bytes(e.mtime.sec));
    lemma_read_i32(b, p + 8, e.mtime.sec);
    crate::bytes::lemma_split(b, p, x1, i32_bytes(e.ctime.nsec));
    lemma_read_i32(b, p + 4, e.ctime.nsec);
    lemma_read_i32(b, p, e.ctime.sec);
}

proof fn lemma_entry_at_bytes(b: Seq<u8>, p: int, e: EntryView)
    requires
        entry_wf(e),
        0 <= p,
        p + entry_bytes(e).len() <= b.len(),
        b.subrange(p, p + entry_bytes(e).len()) == entry_bytes(e),
    ensures
        entry_at(b, p) == Some((e, p + entry_bytes(e).len())),
{
    reveal(entry_at);
    let nb = encode_utf8(e.name);
    let n = nb.len() as int;
    let pl = pad_len(n);
    let f = entry_fixed(e);
    assert(f.len() == 62);
    crate::bytes::lemma_split(b, p, f + nb, e.pad);
    crate::bytes::lemma_split(b, p, f, nb);
    lemma_entry_fixed(b, p, e);
    let start = p + 62;
    if name_field(e.flag) >= name_sentinel() {
        assert forall|k: int| start <= k < start + n implies b[k] != 0u8 by {
            assert(b.subrange(start, start + n)[k - start] == b[k]);
        }
        assert(b.subrange(start + n, start + n + pl)[0] == b[start + n]);
        crate::bytes::lemma_find_byte_at(b, start, start + n, 0u8);
    }
    vstd::utf8::encode_utf8_valid_utf8(e.name);
    vstd::utf8::encode_utf8_decode_utf8(e.name);
}

proof fn lemma_entries_bytes_cons(e: EntryView, r: Seq<EntryView>)
    ensures
        entries_bytes(seq![e] + r) == entry_bytes(e) + entries_bytes(r),
    decreases r.len(),
{
    if r.len() == 0 {
        assert(seq![e] + r =~= seq![e]);
        assert(seq![e].drop_last() =~= Seq::<EntryView>::empty());
        assert(entries_bytes(Seq::<EntryView>::empty()) == Seq::<u8>::empty());
        assert(entries_bytes(r) == Seq::<u8>::empty());
        assert(entries_bytes(seq![e]) == entries_bytes(seq![e].drop_last()) + entry_bytes(seq![e].last()));
        assert(entry_bytes(e) + entries_bytes(r) =~= entry_bytes(e));
        assert(entries_bytes(seq![e]) =~= entry_bytes(e));
    } else {
        let s = seq![e] + r;
        assert(s.drop_last() =~= seq![e] + r.drop_last());
        assert(s.last() == r.last());
        lemma_entries_bytes_cons(e, r.drop_last());
        assert(entries_bytes(s) == entries_bytes(s.drop_last()) + entry_bytes(s.last()));
        assert(entries_bytes(r) == entries_bytes(r.drop_last()) + entry_bytes(r.last()));
        assert(entries_bytes(s) =~= entry_bytes(e) + entries_bytes(r));
    }
}

proof fn lemma_extensions_bytes_cons(x: ExtensionView, r: Seq<ExtensionView>)
    ensures
        extensions_bytes(seq![x] + r) == extension_bytes(x) + extensions_bytes(r),
    decreases r.len(),
{
    if r.len() == 0 {
        assert(seq![x] + r =~= seq![x]);
        assert(seq![x].drop_last() =~= Seq::<ExtensionView>::empty());
        assert(extensions_bytes(Seq::<ExtensionView>::empty()) == Seq::<u8>::empty());
        assert(extensions_bytes(r) == Seq::<u8>::empty());
        assert(extensions_bytes(seq![x]) == extensions_bytes(seq![x].drop_last()) + extension_bytes(seq![x].last()));
        assert(extension_bytes(x) + extensions_bytes(r) =~= extension_bytes(x));
        assert(extensions_bytes(seq![x]) =~= extension_bytes(x));
    } else {
        let s = seq![x] + r;
        assert(s.drop_last() =~= seq![x] + r.drop_last());
        assert(s.last() == r.last());
        lemma_extensions_bytes_cons(x, r.drop_last());
        assert(extensions_bytes(s) == extensions_bytes(s.drop_last()) + extension_bytes(s.last()));
        assert(extensions_bytes(r) == extensions_bytes(r.drop_last()) + extension_bytes(r.last()));
        assert(extensions_bytes(s) =~= extension_bytes(x) + extensions_bytes(r));
    }
}

proof fn lemma_entries_from_bytes(b: Seq<u8>, p: int, es: Seq<EntryView>)
    requires
        forall|i: int| 0 <= i < es.len() ==> entry_wf(#[trigger] es[i]),
        0 <= p,
        p + entries_bytes(es).len() <= b.len(),
        b.subrange(p, p + entries_bytes(es).len()) == entries_bytes(es),
    ensures
        entries_from(b, p, es.len()) == Some((es, p + entries_bytes(es).len())),
    decreases es.len(),
{
    if es.len() > 0 {
        let e = es[0];
        let rest = es.drop_first();
        assert(es =~= seq![e] + rest);
        lemma_entries_bytes_cons(e, rest);
        let eb = entry_bytes(e);
        let rb = entries_bytes(rest);
        crate::bytes::lemma_sub_of_sub(b, p, entries_bytes(es), 0, eb.len() as int);
        assert(entries_bytes(es).subrange(0, eb.len() as int) =~= eb);
        lemma_entry_at_bytes(b, p, e);
        crate::bytes::lemma_sub_of_sub(b, p, entries_bytes(es), eb.len() as int, rb.len() as int);
        assert(entries_bytes(es).subrange(eb.len() as int, (eb.len() + rb.len()) as int) =~= rb);
        assert forall|i: int| 0 <= i < rest.len() implies entry_wf(#[trigger] rest[i]) by {
            assert(rest[i] == es[i + 1]);
        }
        lemma_entries_from_bytes(b, p + eb.len(), rest);
        assert(seq![e] + rest == es);
    } else {
        assert(es =~= Seq::<EntryView>::empty());
    }
}

proof fn lemma_extensions_from_bytes(b: Seq<u8>, p: int, xs: Seq<ExtensionView>)
    requires
        forall|i: int| 0 <= i < xs.len() ==> extension_wf(#[trigger] xs[i]),
        0 <= p,
        p + extensions_bytes(xs).len() + 20 == b.len(),
        b.subrange(p, p + extensions_bytes(xs).len()) == extensions_bytes(xs),
    ensures
        extensions_from(b, p) == Some((xs, p + extensions_bytes(xs).len())),
    decreases xs.len(),
{
    if xs.len() > 0 {
        let x = xs[0];
        let rest = xs.drop_first();
        assert(xs =~= seq![x] + rest);
        lemma_extensions_bytes_cons(x, rest);
        let xb = extension_bytes(x);
        let rb = extensions_bytes(rest);
        let all = extensions_bytes(xs);
        let sb = x.signature;
        assert(x.extension =~= Seq::<char>::empty());
        assert(xb =~= sb + i32_bytes(x.size) + x.data);
        assert(all.subrange(0, 4) =~= sb);
        crate::bytes::lemma_sub_of_sub(b, p, all, 0, 4);
        assert(all.subrange(4, 8) =~= i32_bytes(x.size));
        crate::bytes::lemma_sub_of_sub(b, p, all, 4, 4);
        lemma_read_i32(b, p + 4, x.size);
        assert(all.subrange(8, 8 + x.size) =~= x.data);
        crate::bytes::lemma_sub_of_sub(b, p, all, 8, x.size as int);
        crate::bytes::lemma_sub_of_sub(b, p, all, xb.len() as int, rb.len() as int);
        assert(all.subrange(xb.len() as int, (xb.len() + rb.len()) as int) =~= rb);
        assert forall|i: int| 0 <= i < rest.len() implies extension_wf(#[trigger] rest[i]) by {
            assert(rest[i] == xs[i + 1]);
        }
        lemma_extensions_from_bytes(b, p + xb.len(), rest);
        let xv = ExtensionView {
            extension: Seq::empty(),
            signature: b.subrange(p, p + 4),
            size: x.size,
            data: b.subrange(p + 8, p + 8 + x.size),
        };
        assert(xv == x);
        assert(seq![x] + rest == xs);
    } else {
        assert(xs =~= Seq::<ExtensionView>::empty());
    }
}

/// A well-formed index reads back from its bytes as itself: signature,
/// version, entries in order with every field, extensions and checksum.
pub proof fn lemma_index_round_trip(ix: IndexView)
    requires
        index_wf(ix),
    ensures
        parse_index_spec(index_bytes(ix)) == Some(ix),
{
    let b = index_bytes(ix);
    let sb = encode_utf8(ix.signature);
    let eb = entries_bytes(ix.entries);
    let xb = extensions_bytes(ix.extensions);
    let h1 = sb + i32_bytes(ix.version);
    let h2 = h1 + i32_bytes(ix.entry_count);
    assert(b =~= h2 + eb + xb + ix.checksum);
    let q0: int = 12 + eb.len() as int;
    let q1: int = q0 + xb.len() as int;
    assert(b.len() == q1 + 20);
    assert(b.subrange(0, b.len() as int) =~= b);
    crate::bytes::lemma_split(b, 0, h2 + eb + xb, ix.checksum);
    crate::bytes::lemma_split(b, 0, h2 + eb, xb);
    crate::bytes::lemma_split(b, 0, h2, eb);
    crate::bytes::lemma_split(b, 0, h1, i32_bytes(ix.entry_count));
    crate::bytes::lemma_split(b, 0, sb, i32_bytes(ix.version));
    lemma_read_i32(b, 4, ix.version);
    lemma_read_i32(b, 8, ix.entry_count);
    lemma_entries_from_bytes(b, 12, ix.entries);
    lemma_extensions_from_bytes(b, q0, ix.extensions);
    vstd::utf8::encode_utf8_valid_utf8(ix.signature);
    vstd::utf8::encode_utf8_decode_utf8(ix.signature);
}

} // verus!

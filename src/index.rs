use crate::bytes::{append_bytes, copy_range};
use vstd::string::StringSliceAdditionalSpecFns;
use crate::digest::{sha256, sha256_of};
use crate::error::StoreError;
use vstd::prelude::*;

verus! {

/// The mode recorded for every entry: a regular file with permissions 644.
pub const REGULAR_FILE_MODE: u32 = 0o100644;

/// The largest path length that the flags field can hold.
pub const MAX_FLAGS_PATH_LEN: usize = 4095;

/// File-system metadata captured for a path when it is recorded.
#[derive(Debug, Clone, Copy, PartialEq, Eq, Structural)]
pub struct FileMeta {
    pub ctime_sec: u32,
    pub ctime_nsec: u32,
    pub mtime_sec: u32,
    pub mtime_nsec: u32,
    pub dev: u32,
    pub ino: u32,
    pub uid: u32,
    pub gid: u32,
    pub file_size: u32,
}

/// One tracked path: its metadata, the address of its content, a flags field
/// and the path's bytes.
#[derive(Debug)]
pub struct IndexEntry {
    pub ctime_sec: u32,
    pub ctime_nsec: u32,
    pub mtime_sec: u32,
    pub mtime_nsec: u32,
    pub dev: u32,
    pub ino: u32,
    pub mode: u32,
    pub uid: u32,
    pub gid: u32,
    pub file_size: u32,
    pub hash: [u8; 32],
    pub flags: u16,
    pub path: Vec<u8>,
}

/// The mathematical value of an [`IndexEntry`].
pub struct EntryModel {
    pub ctime_sec: u32,
    pub ctime_nsec: u32,
    pub mtime_sec: u32,
    pub mtime_nsec: u32,
    pub dev: u32,
    pub ino: u32,
    pub mode: u32,
    pub uid: u32,
    pub gid: u32,
    pub file_size: u32,
    pub hash: Seq<u8>,
    pub flags: u16,
    pub path: Seq<u8>,
}

impl View for IndexEntry {
    type V = EntryModel;

    open spec fn view(&self) -> EntryModel {
        EntryModel {
            ctime_sec: self.ctime_sec,
            ctime_nsec: self.ctime_nsec,
            mtime_sec: self.mtime_sec,
            mtime_nsec: self.mtime_nsec,
            dev: self.dev,
            ino: self.ino,
            mode: self.mode,
            uid: self.uid,
            gid: self.gid,
            file_size: self.file_size,
            hash: self.hash@,
            flags: self.flags,
            path: self.path@,
        }
    }
}

/// The ordered collection of entries of the staging index.
#[derive(Debug)]
pub struct Index {
    pub entries: Vec<IndexEntry>,
}

impl View for Index {
    type V = Seq<EntryModel>;

    open spec fn view(&self) -> Seq<EntryModel> {
        self.entries@.map_values(|e: IndexEntry| e@)
    }
}

/// Byte-lexicographic order on byte strings: a proper prefix comes first.
pub open spec fn bytes_lt(a: Seq<u8>, b: Seq<u8>) -> bool
    decreases a.len(),
{
    if b.len() == 0 {
        false
    } else if a.len() == 0 {
        true
    } else if a[0] != b[0] {
        a[0] < b[0]
    } else {
        bytes_lt(a.drop_first(), b.drop_first())
    }
}

/// An entry can be encoded and read back: a 32-byte hash and no NUL in the path.
pub open spec fn entry_wf(e: EntryModel) -> bool {
    &&& e.hash.len() == 32
    &&& forall|i: int| 0 <= i < e.path.len() ==> #[trigger] e.path[i] != 0
}

/// Paths strictly increase in byte-lexicographic order.
pub open spec fn sorted_by_path(m: Seq<EntryModel>) -> bool {
    forall|i: int, j: int| 0 <= i < j < m.len() ==> bytes_lt(#[trigger] m[i].path, #[trigger] m[j].path)
}

/// A well-formed index: countable in the header, every entry encodable, and
/// paths unique and sorted.
pub open spec fn index_wf(m: Seq<EntryModel>) -> bool {
    &&& m.len() <= u32::MAX
    &&& forall|i: int| 0 <= i < m.len() ==> entry_wf(#[trigger] m[i])
    &&& sorted_by_path(m)
}

/// Big-endian encoding of a 32-bit integer.
pub open spec fn be32(x: u32) -> Seq<u8> {
    seq![
        (x / 0x1000000) as u8,
        ((x / 0x10000) % 0x100) as u8,
        ((x / 0x100) % 0x100) as u8,
        (x % 0x100) as u8,
    ]
}

/// Big-endian encoding of a 16-bit integer.
pub open spec fn be16(x: u16) -> Seq<u8> {
    seq![(x / 0x100) as u8, (x % 0x100) as u8]
}

/// The number of NUL bytes that pad an entry whose path has `path_len` bytes
/// so that the entry's length is a multiple of 8.
pub open spec fn padding_len(path_len: nat) -> nat {
    let n = 40 + 32 + 2 + path_len + 1;
    if n % 8 == 0 {
        0
    } else {
        (8 - n % 8) as nat
    }
}

/// The 74 fixed bytes that open an entry: ten metadata words, the hash and
/// the flags.
pub open spec fn entry_prefix(e: EntryModel) -> Seq<u8> {
    be32(e.ctime_sec) + be32(e.ctime_nsec) + be32(e.mtime_sec) + be32(e.mtime_nsec) + be32(e.dev)
        + be32(e.ino) + be32(e.mode) + be32(e.uid) + be32(e.gid) + be32(e.file_size) + e.hash
        + be16(e.flags)
}

/// The on-disk bytes of one entry.
#[verifier::opaque]
pub open spec fn entry_bytes(e: EntryModel) -> Seq<u8> {
    entry_prefix(e) + e.path + seq![0u8] + Seq::new(padding_len(e.path.len()), |i: int| 0u8)
}

/// The on-disk bytes of a run of entries, one after the other.
pub open spec fn entries_bytes(m: Seq<EntryModel>) -> Seq<u8>
    decreases m.len(),
{
    if m.len() == 0 {
        Seq::empty()
    } else {
        entries_bytes(m.drop_last()) + entry_bytes(m.last())
    }
}

/// The index signature `DIRC`.
pub open spec fn signature() -> Seq<u8> {
    seq![0x44u8, 0x49u8, 0x52u8, 0x43u8]
}

/// The 12-byte header: signature, format version 2, entry count.
pub open spec fn header_bytes(count: u32) -> Seq<u8> {
    signature() + be32(2) + be32(count)
}

/// Header and entries: every byte that the checksum covers.
pub open spec fn index_body(m: Seq<EntryModel>) -> Seq<u8> {
    header_bytes(m.len() as u32) + entries_bytes(m)
}

/// The complete index file: body followed by the SHA-256 of the body.
pub open spec fn index_bytes(m: Seq<EntryModel>) -> Seq<u8> {
    index_body(m) + sha256_of(index_body(m))@
}

/// Appends the big-endian bytes of `x`.
fn push_be32(out: &mut Vec<u8>, x: u32)
    ensures
        final(out)@ == old(out)@ + be32(x),
{
    out.push((x / 0x1000000) as u8);
    out.push(((x / 0x10000) % 0x100) as u8);
    out.push(((x / 0x100) % 0x100) as u8);
    out.push((x % 0x100) as u8);
    assert(final(out)@ =~= old(out)@ + be32(x));
}

/// Appends the big-endian bytes of `x`.
fn push_be16(out: &mut Vec<u8>, x: u16)
    ensures
        final(out)@ == old(out)@ + be16(x),
{
    out.push((x / 0x100) as u8);
    out.push((x % 0x100) as u8);
    assert(final(out)@ =~= old(out)@ + be16(x));
}

/// The number of padding bytes after an entry whose path has `path_len` bytes.
pub fn entry_padding(path_len: usize) -> (r: usize)
    ensures
        r == padding_len(path_len as nat),
        (40 + 32 + 2 + path_len + 1) % 8 == 0 ==> r == 0,
        (40 + 32 + 2 + path_len + 1) % 8 != 0 ==> r == 8 - (40 + 32 + 2 + path_len + 1) % 8,
{
    let rem: usize = (path_len % 8 + 3) % 8;
    if rem == 0 {
        0
    } else {
        8 - rem
    }
}

/// Appends `n` NUL bytes.
fn push_zeros(out: &mut Vec<u8>, n: usize)
    ensures
        final(out)@ == old(out)@ + Seq::new(n as nat, |k: int| 0u8),
{
    let ghost start = out@;
    let mut i: usize = 0;
    while i < n
        invariant
            0 <= i <= n,
            out@ == start + Seq::new(i as nat, |k: int| 0u8),
        decreases n - i,
    {
        out.push(0);
        i = i + 1;
        assert(out@ =~= start + Seq::new(i as nat, |k: int| 0u8));
    }
}

/// Appends the 74 fixed bytes that open an entry.
fn push_entry_prefix(out: &mut Vec<u8>, e: &IndexEntry)
    ensures
        final(out)@ == old(out)@ + entry_prefix(e@),
{
    let ghost start = out@;
    push_be32(out, e.ctime_sec);
    push_be32(out, e.ctime_nsec);
    push_be32(out, e.mtime_sec);
    push_be32(out, e.mtime_nsec);
    push_be32(out, e.dev);
    push_be32(out, e.ino);
    push_be32(out, e.mode);
    push_be32(out, e.uid);
    push_be32(out, e.gid);
    push_be32(out, e.file_size);
    append_bytes(out, &e.hash);
    push_be16(out, e.flags);
    assert(out@ =~= start + entry_prefix(e@));
}

/// Appends the on-disk bytes of one entry.
fn push_entry(out: &mut Vec<u8>, e: &IndexEntry)
    ensures
        final(out)@ == old(out)@ + entry_bytes(e@),
{
    let ghost start = out@;
    reveal(entry_bytes);
    push_entry_prefix(out, e);
    append_bytes(out, e.path.as_slice());
    out.push(0);
    let pad = entry_padding(e.path.len());
    push_zeros(out, pad);
    assert(out@ =~= start + entry_bytes(e@));
}

proof fn lemma_lt_irreflexive(a: Seq<u8>)
    ensures
        !bytes_lt(a, a),
    decreases a.len(),
{
    if a.len() > 0 {
        lemma_lt_irreflexive(a.drop_first());
    }
}

proof fn lemma_lt_asymmetric(a: Seq<u8>, b: Seq<u8>)
    requires
        bytes_lt(a, b),
    ensures
        !bytes_lt(b, a),
    decreases a.len(),
{
    if a.len() > 0 && b.len() > 0 && a[0] == b[0] {
        lemma_lt_asymmetric(a.drop_first(), b.drop_first());
    }
}

proof fn lemma_lt_transitive(a: Seq<u8>, b: Seq<u8>, c: Seq<u8>)
    requires
        bytes_lt(a, b),
        bytes_lt(b, c),
    ensures
        bytes_lt(a, c),
    decreases a.len(),
{
    if a.len() > 0 && b.len() > 0 && c.len() > 0 && a[0] == b[0] && b[0] == c[0] {
        lemma_lt_transitive(a.drop_first(), b.drop_first(), c.drop_first());
    }
}

proof fn lemma_lt_total(a: Seq<u8>, b: Seq<u8>)
    requires
        a != b,
    ensures
        bytes_lt(a, b) || bytes_lt(b, a),
    decreases a.len(),
{
    if a.len() == 0 && b.len() == 0 {
        assert(a =~= b);
    } else if a.len() > 0 && b.len() > 0 && a[0] == b[0] {
        if a.drop_first() == b.drop_first() {
            assert(a =~= seq![a[0]] + a.drop_first());
            assert(b =~= seq![b[0]] + b.drop_first());
        }
        lemma_lt_total(a.drop_first(), b.drop_first());
    }
}

/// Byte-lexicographic comparison: whether `a` sorts strictly before `b`.
pub fn path_lt(a: &[u8], b: &[u8]) -> (r: bool)
    ensures
        r == bytes_lt(a@, b@),
{
    let mut i: usize = 0;
    assert(a@.subrange(0, a@.len() as int) =~= a@);
    assert(b@.subrange(0, b@.len() as int) =~= b@);
    while i < a.len() && i < b.len()
        invariant
            0 <= i <= a@.len(),
            i <= b@.len(),
            bytes_lt(a@, b@) == bytes_lt(
                a@.subrange(i as int, a@.len() as int),
                b@.subrange(i as int, b@.len() as int),
            ),
        decreases a@.len() - i,
    {
        if a[i] != b[i] {
            return a[i] < b[i];
        }
        assert(a@.subrange(i as int, a@.len() as int).drop_first() =~= a@.subrange(
            i + 1,
            a@.len() as int,
        ));
        assert(b@.subrange(i as int, b@.len() as int).drop_first() =~= b@.subrange(
            i + 1,
            b@.len() as int,
        ));
        i = i + 1;
    }
    i < b.len()
}

/// The position of an entry for `p`, or where one would be inserted.
pub open spec fn insert_position(m: Seq<EntryModel>, p: Seq<u8>, j: int) -> bool {
    &&& 0 <= j <= m.len()
    &&& forall|i: int| 0 <= i < j ==> bytes_lt(#[trigger] m[i].path, p)
    &&& forall|i: int| j <= i < m.len() ==> bytes_lt(p, #[trigger] m[i].path)
}

/// Whether some entry of `m` has path `p`.
pub open spec fn has_path(m: Seq<EntryModel>, p: Seq<u8>) -> bool {
    exists|i: int| 0 <= i < m.len() && #[trigger] m[i].path == p
}

/// `m` with `e` put in by path: the entry with `e`'s path is replaced in
/// place, or else `e` is inserted where the order of paths puts it.
pub open spec fn upsert_model(m: Seq<EntryModel>, e: EntryModel) -> Seq<EntryModel> {
    if has_path(m, e.path) {
        m.update(choose|i: int| 0 <= i < m.len() && #[trigger] m[i].path == e.path, e)
    } else {
        m.insert(choose|j: int| insert_position(m, e.path, j), e)
    }
}

/// Binary search by path in a sorted run of entries.
fn find_path(entries: &Vec<IndexEntry>, path: &[u8]) -> (r: (bool, usize))
    requires
        sorted_by_path(entries@.map_values(|e: IndexEntry| e@)),
    ensures
        r.0 ==> r.1 < entries@.len() && entries@[r.1 as int].path@ == path@,
        !r.0 ==> insert_position(entries@.map_values(|e: IndexEntry| e@), path@, r.1 as int),
{
    let ghost m = entries@.map_values(|e: IndexEntry| e@);
    let mut lo: usize = 0;
    let mut hi: usize = entries.len();
    while lo < hi
        invariant
            0 <= lo <= hi <= entries@.len(),
            m == entries@.map_values(|e: IndexEntry| e@),
            sorted_by_path(m),
            forall|i: int| 0 <= i < lo ==> bytes_lt(#[trigger] m[i].path, path@),
            forall|i: int| hi <= i < m.len() ==> bytes_lt(path@, #[trigger] m[i].path),
        decreases hi - lo,
    {
        let mid = lo + (hi - lo) / 2;
        let p = entries[mid].path.as_slice();
        if path_lt(p, path) {
            assert forall|i: int| 0 <= i < mid + 1 implies bytes_lt(#[trigger] m[i].path, path@) by {
                if i < mid {
                    lemma_lt_transitive(m[i].path, m[mid as int].path, path@);
                }
            }
            lo = mid + 1;
        } else if path_lt(path, p) {
            assert forall|i: int| mid <= i < m.len() implies bytes_lt(path@, #[trigger] m[i].path) by {
                if i > mid {
                    lemma_lt_transitive(path@, m[mid as int].path, m[i].path);
                }
            }
            hi = mid;
        } else {
            proof {
                if p@ != path@ {
                    lemma_lt_total(p@, path@);
                }
            }
            return (true, mid);
        }
    }
    (false, lo)
}

proof fn lemma_found_unique(m: Seq<EntryModel>, p: Seq<u8>, k: int)
    requires
        sorted_by_path(m),
        0 <= k < m.len(),
        m[k].path == p,
    ensures
        has_path(m, p),
        (choose|i: int| 0 <= i < m.len() && #[trigger] m[i].path == p) == k,
{
    assert(has_path(m, p));
    let c = choose|i: int| 0 <= i < m.len() && #[trigger] m[i].path == p;
    if c < k {
        assert(bytes_lt(m[c].path, m[k].path));
        lemma_lt_irreflexive(p);
    } else if c > k {
        assert(bytes_lt(m[k].path, m[c].path));
        lemma_lt_irreflexive(p);
    }
}

proof fn lemma_position_unique(m: Seq<EntryModel>, p: Seq<u8>, j: int)
    requires
        insert_position(m, p, j),
    ensures
        !has_path(m, p),
        (choose|k: int| insert_position(m, p, k)) == j,
{
    if has_path(m, p) {
        let i = choose|i: int| 0 <= i < m.len() && #[trigger] m[i].path == p;
        lemma_lt_irreflexive(p);
        if i < j {
            assert(bytes_lt(m[i].path, p));
        } else {
            assert(bytes_lt(p, m[i].path));
        }
    }
    let c = choose|k: int| insert_position(m, p, k);
    if c < j {
        assert(bytes_lt(m[c].path, p));
        assert(bytes_lt(p, m[c].path));
        lemma_lt_asymmetric(m[c].path, p);
    } else if c > j {
        assert(bytes_lt(p, m[j].path));
        assert(bytes_lt(m[j].path, p));
        lemma_lt_asymmetric(m[j].path, p);
    }
}

/// Upserting into an index whose paths strictly increase keeps them so; a
/// present path keeps the length, a new one adds one entry, and every entry
/// of the result is `e` or an entry of `m`.
pub proof fn lemma_upsert_sorted(m: Seq<EntryModel>, e: EntryModel)
    requires
        sorted_by_path(m),
    ensures
        sorted_by_path(upsert_model(m, e)),
        has_path(m, e.path) ==> upsert_model(m, e).len() == m.len(),
        !has_path(m, e.path) ==> upsert_model(m, e).len() == m.len() + 1,
        has_path(upsert_model(m, e), e.path),
        forall|i: int| 0 <= i < upsert_model(m, e).len() ==> #[trigger] upsert_model(m, e)[i] == e
            || exists|k: int| 0 <= k < m.len() && upsert_model(m, e)[i] == #[trigger] m[k],
{
    let r = upsert_model(m, e);
    if has_path(m, e.path) {
        let k = choose|i: int| 0 <= i < m.len() && #[trigger] m[i].path == e.path;
        assert(r[k].path == e.path);
        assert forall|i: int, j: int| 0 <= i < j < r.len() implies bytes_lt(#[trigger] r[i].path, #[trigger] r[j].path) by {
            assert(bytes_lt(m[i].path, m[j].path));
        }
        assert forall|i: int| 0 <= i < r.len() implies #[trigger] r[i] == e
            || exists|k: int| 0 <= k < m.len() && r[i] == #[trigger] m[k] by {
            if i != k {
                assert(r[i] == m[i]);
            }
        }
    } else {
        lemma_insert_position_exists(m, e.path);
        let j = choose|j: int| insert_position(m, e.path, j);
        assert(r[j].path == e.path);
        assert forall|a: int, b: int| 0 <= a < b < r.len() implies bytes_lt(#[trigger] r[a].path, #[trigger] r[b].path) by {
            if b < j {
                assert(bytes_lt(m[a].path, m[b].path));
            } else if b == j {
                assert(bytes_lt(m[a].path, e.path));
            } else if a == j {
                assert(bytes_lt(e.path, m[b - 1].path));
            } else if a < j {
                assert(bytes_lt(m[a].path, m[b - 1].path));
            } else {
                assert(bytes_lt(m[a - 1].path, m[b - 1].path));
            }
        }
        assert forall|i: int| 0 <= i < r.len() implies #[trigger] r[i] == e
            || exists|k: int| 0 <= k < m.len() && r[i] == #[trigger] m[k] by {
            if i < j {
                assert(r[i] == m[i]);
            } else if i > j {
                assert(r[i] == m[i - 1]);
            }
        }
    }
}

proof fn lemma_upsert_wf(m: Seq<EntryModel>, e: EntryModel)
    requires
        index_wf(m),
        entry_wf(e),
        has_path(m, e.path) || m.len() < u32::MAX,
    ensures
        index_wf(upsert_model(m, e)),
{
    lemma_upsert_sorted(m, e);
    let r = upsert_model(m, e);
    assert forall|i: int| 0 <= i < r.len() implies entry_wf(#[trigger] r[i]) by {
        if r[i] != e {
            let k = choose|k: int| 0 <= k < m.len() && r[i] == #[trigger] m[k];
            assert(entry_wf(m[k]));
        }
    }
}

/// Applies the upserts of `es` to `m`, first to last.
pub open spec fn upsert_all(m: Seq<EntryModel>, es: Seq<EntryModel>) -> Seq<EntryModel>
    decreases es.len(),
{
    if es.len() == 0 {
        m
    } else {
        upsert_model(upsert_all(m, es.drop_last()), es.last())
    }
}

/// Whatever sequence of entries is upserted into an index whose paths
/// strictly increase, the paths of the result still strictly increase.
pub proof fn lemma_upserts_keep_sorted(m: Seq<EntryModel>, es: Seq<EntryModel>)
    requires
        sorted_by_path(m),
    ensures
        sorted_by_path(upsert_all(m, es)),
    decreases es.len(),
{
    if es.len() > 0 {
        lemma_upserts_keep_sorted(m, es.drop_last());
        lemma_upsert_sorted(upsert_all(m, es.drop_last()), es.last());
    }
}

/// Upserting an entry whose path is already present replaces that entry in
/// place: the length is unchanged and the paths still strictly increase.
pub proof fn lemma_upsert_replaces_in_place(m: Seq<EntryModel>, e: EntryModel, k: int)
    requires
        sorted_by_path(m),
        0 <= k < m.len(),
        m[k].path == e.path,
    ensures
        upsert_model(m, e) == m.update(k, e),
        upsert_model(m, e).len() == m.len(),
        sorted_by_path(upsert_model(m, e)),
{
    lemma_found_unique(m, e.path, k);
    lemma_upsert_sorted(m, e);
}

proof fn lemma_insert_position_exists(m: Seq<EntryModel>, p: Seq<u8>)
    requires
        sorted_by_path(m),
        !has_path(m, p),
    ensures
        exists|j: int| insert_position(m, p, j),
    decreases m.len(),
{
    if m.len() == 0 {
        assert(insert_position(m, p, 0));
    } else {
        let n = m.len() - 1;
        let q = m.drop_last();
        assert(!has_path(q, p)) by {
            if has_path(q, p) {
                let i = choose|i: int| 0 <= i < q.len() && #[trigger] q[i].path == p;
                assert(m[i].path == p);
            }
        }
        assert(sorted_by_path(q)) by {
            assert forall|i: int, j: int| 0 <= i < j < q.len() implies bytes_lt(#[trigger] q[i].path, #[trigger] q[j].path) by {
                assert(bytes_lt(m[i].path, m[j].path));
            }
        }
        lemma_insert_position_exists(q, p);
        let j0 = choose|j: int| insert_position(q, p, j);
        if m[n].path != p {
            lemma_lt_total(m[n].path, p);
        } else {
            assert(has_path(m, p));
        }
        if bytes_lt(m[n].path, p) {
            assert forall|i: int| 0 <= i < m.len() implies bytes_lt(#[trigger] m[i].path, p) by {
                if i < n {
                    lemma_lt_transitive(m[i].path, m[n].path, p);
                }
            }
            assert(insert_position(m, p, m.len() as int));
        } else {
            assert forall|i: int| 0 <= i < j0 implies bytes_lt(#[trigger] m[i].path, p) by {
                assert(m[i] == q[i]);
            }
            assert forall|i: int| j0 <= i < m.len() implies bytes_lt(p, #[trigger] m[i].path) by {
                if i < n {
                    assert(m[i] == q[i]);
                }
            }
            assert(insert_position(m, p, j0));
        }
    }
}

/// The entry that records `path` with content address `hash` and metadata
/// `meta`: a regular file, flags holding the path length capped at 4095.
pub open spec fn entry_of(path: Seq<u8>, hash: Seq<u8>, meta: FileMeta) -> EntryModel {
    EntryModel {
        ctime_sec: meta.ctime_sec,
        ctime_nsec: meta.ctime_nsec,
        mtime_sec: meta.mtime_sec,
        mtime_nsec: meta.mtime_nsec,
        dev: meta.dev,
        ino: meta.ino,
        mode: REGULAR_FILE_MODE,
        uid: meta.uid,
        gid: meta.gid,
        file_size: meta.file_size,
        hash,
        flags: (if path.len() < 4095 {
            path.len()
        } else {
            4095
        }) as u16,
        path,
    }
}

/// Builds the entry that records `path` with content address `hash`.
pub fn create_entry(path: &str, hash: [u8; 32], meta: &FileMeta) -> (r: IndexEntry)
    ensures
        r@ == entry_of(path.spec_bytes(), hash@, *meta),
{
    let bytes = path.as_bytes();
    let len = bytes.len();
    let path_bytes = copy_range(bytes, 0, len);
    assert(path_bytes@ =~= path.spec_bytes());
    let flags: u16 = if len < MAX_FLAGS_PATH_LEN {
        len as u16
    } else {
        MAX_FLAGS_PATH_LEN as u16
    };
    IndexEntry {
        ctime_sec: meta.ctime_sec,
        ctime_nsec: meta.ctime_nsec,
        mtime_sec: meta.mtime_sec,
        mtime_nsec: meta.mtime_nsec,
        dev: meta.dev,
        ino: meta.ino,
        mode: REGULAR_FILE_MODE,
        uid: meta.uid,
        gid: meta.gid,
        file_size: meta.file_size,
        hash,
        flags,
        path: path_bytes,
    }
}

/// Writes an index in its on-disk form: header, entries in order, and the
/// SHA-256 of everything before it.
pub fn write_index(index: &Index) -> (r: Vec<u8>)
    requires
        index@.len() <= u32::MAX,
    ensures
        r@ == index_bytes(index@),
{
    let ghost m = index@;
    let mut data: Vec<u8> = Vec::new();
    push_be32(&mut data, 0x44495243);
    push_be32(&mut data, 2);
    push_be32(&mut data, index.entries.len() as u32);
    assert(data@ =~= header_bytes(m.len() as u32)) by {
        assert(be32(0x44495243) =~= signature());
    }
    let mut i: usize = 0;
    while i < index.entries.len()
        invariant
            0 <= i <= index.entries@.len(),
            m == index@,
            data@ == header_bytes(m.len() as u32) + entries_bytes(m.subrange(0, i as int)),
        decreases index.entries@.len() - i,
    {
        push_entry(&mut data, &index.entries[i]);
        assert(m.subrange(0, i + 1).drop_last() =~= m.subrange(0, i as int));
        assert(data@ =~= header_bytes(m.len() as u32) + entries_bytes(m.subrange(0, i + 1)));
        i = i + 1;
    }
    assert(m.subrange(0, m.len() as int) =~= m);
    let checksum = sha256(data.as_slice());
    append_bytes(&mut data, &checksum);
    data
}

impl Index {
    /// The index with no entries.
    pub fn new() -> (r: Index)
        ensures
            r@ == Seq::<EntryModel>::empty(),
    {
        Index { entries: Vec::new() }
    }

    /// The number of entries.
    pub fn len(&self) -> (r: usize)
        ensures
            r == self@.len(),
    {
        self.entries.len()
    }

    /// Puts `entry` in by path: an entry with the same path is replaced in
    /// place, otherwise `entry` is inserted where the order of paths puts it.
    /// Fails with `IndexFull` when a new path would not fit the header's count.
    pub fn upsert(&mut self, entry: IndexEntry) -> (r: Result<(), StoreError>)
        requires
            index_wf(old(self)@),
            entry_wf(entry@),
        ensures
            r is Ok <==> (has_path(old(self)@, entry@.path) || old(self)@.len() < u32::MAX),
            r is Ok ==> final(self)@ == upsert_model(old(self)@, entry@),
            r is Err ==> r == Err::<(), StoreError>(StoreError::IndexFull) && final(self)@ == old(
                self,
            )@,
            index_wf(final(self)@),
    {
        let ghost m = self@;
        let ghost e = entry@;
        let (found, i) = find_path(&self.entries, entry.path.as_slice());
        if found {
            proof {
                lemma_found_unique(m, e.path, i as int);
                lemma_upsert_wf(m, e);
            }
            self.entries[i] = entry;
            assert(self@ =~= upsert_model(m, e));
            Ok(())
        } else {
            proof {
                lemma_position_unique(m, e.path, i as int);
            }
            if self.entries.len() >= 0xffff_ffff {
                return Err(StoreError::IndexFull);
            }
            proof {
                lemma_upsert_wf(m, e);
            }
            self.entries.insert(i, entry);
            assert(self@ =~= upsert_model(m, e));
            Ok(())
        }
    }
}

/// The big-endian 32-bit value of the four bytes of `s` at `off`.
pub open spec fn u32_at(s: Seq<u8>, off: int) -> int {
    s[off] as int * 0x1000000 + s[off + 1] as int * 0x10000 + s[off + 2] as int * 0x100 + s[off
        + 3] as int
}

/// The big-endian 16-bit value of the two bytes of `s` at `off`.
pub open spec fn u16_at(s: Seq<u8>, off: int) -> int {
    s[off] as int * 0x100 + s[off + 1] as int
}

/// `e` is encodable and its bytes stand in `s` at `pos`, ending by `end`.
pub open spec fn matches_at(s: Seq<u8>, pos: int, end: int, e: EntryModel) -> bool {
    &&& entry_wf(e)
    &&& pos + entry_bytes(e).len() <= end
    &&& s.subrange(pos, pos + entry_bytes(e).len()) == entry_bytes(e)
}

proof fn lemma_be32_value(x: u32)
    ensures
        u32_at(be32(x), 0) == x,
{
}

proof fn lemma_u32_at(s: Seq<u8>, off: int, x: u32)
    requires
        0 <= off,
        off + 4 <= s.len(),
        s.subrange(off, off + 4) == be32(x),
    ensures
        u32_at(s, off) == x,
{
    lemma_be32_value(x);
    assert(s[off] == be32(x)[0]);
    assert(s[off + 1] == be32(x)[1]);
    assert(s[off + 2] == be32(x)[2]);
    assert(s[off + 3] == be32(x)[3]);
}

proof fn lemma_entry_layout(e: EntryModel)
    requires
        e.hash.len() == 32,
    ensures
        entry_bytes(e).len() == 75 + e.path.len() + padding_len(e.path.len()),
        u32_at(entry_bytes(e), 0) == e.ctime_sec,
        u32_at(entry_bytes(e), 4) == e.ctime_nsec,
        u32_at(entry_bytes(e), 8) == e.mtime_sec,
        u32_at(entry_bytes(e), 12) == e.mtime_nsec,
        u32_at(entry_bytes(e), 16) == e.dev,
        u32_at(entry_bytes(e), 20) == e.ino,
        u32_at(entry_bytes(e), 24) == e.mode,
        u32_at(entry_bytes(e), 28) == e.uid,
        u32_at(entry_bytes(e), 32) == e.gid,
        u32_at(entry_bytes(e), 36) == e.file_size,
        entry_bytes(e).subrange(40, 72) == e.hash,
        u16_at(entry_bytes(e), 72) == e.flags,
        entry_bytes(e).subrange(74, 74 + e.path.len() as int) == e.path,
        entry_bytes(e)[74 + e.path.len() as int] == 0,
{
    reveal(entry_bytes);
    let eb = entry_bytes(e);
    let p = entry_prefix(e);
    assert(eb.subrange(0, 74) =~= p);
    assert(p.subrange(0, 4) =~= be32(e.ctime_sec));
    assert(p.subrange(4, 8) =~= be32(e.ctime_nsec));
    assert(p.subrange(8, 12) =~= be32(e.mtime_sec));
    assert(p.subrange(12, 16) =~= be32(e.mtime_nsec));
    assert(p.subrange(16, 20) =~= be32(e.dev));
    assert(p.subrange(20, 24) =~= be32(e.ino));
    assert(p.subrange(24, 28) =~= be32(e.mode));
    assert(p.subrange(28, 32) =~= be32(e.uid));
    assert(p.subrange(32, 36) =~= be32(e.gid));
    assert(p.subrange(36, 40) =~= be32(e.file_size));
    lemma_u32_at(p, 0, e.ctime_sec);
    lemma_u32_at(p, 4, e.ctime_nsec);
    lemma_u32_at(p, 8, e.mtime_sec);
    lemma_u32_at(p, 12, e.mtime_nsec);
    lemma_u32_at(p, 16, e.dev);
    lemma_u32_at(p, 20, e.ino);
    lemma_u32_at(p, 24, e.mode);
    lemma_u32_at(p, 28, e.uid);
    lemma_u32_at(p, 32, e.gid);
    lemma_u32_at(p, 36, e.file_size);
    assert(p.subrange(40, 72) =~= e.hash);
    assert(p[72] == be16(e.flags)[0]);
    assert(p[73] == be16(e.flags)[1]);
    assert(eb.subrange(40, 72) =~= e.hash);
    assert(eb.subrange(74, 74 + e.path.len() as int) =~= e.path);
}

proof fn lemma_path_end(b: Seq<u8>, pos: int, end: int, z: int, e2: EntryModel)
    requires
        matches_at(b, pos, end, e2),
        0 <= pos,
        pos + 74 <= z <= end <= b.len(),
        z < end ==> b[z] == 0,
        forall|i: int| pos + 74 <= i < z ==> b[i] != 0,
    ensures
        z < end,
        z == pos + 74 + e2.path.len(),
{
    lemma_entry_layout(e2);
    let eb = entry_bytes(e2);
    let q = e2.path.len() as int;
    assert(b.subrange(pos, pos + eb.len() as int)[74 + q] == b[pos + 74 + q]);
    if z < pos + 74 + q {
        assert(b.subrange(pos, pos + eb.len() as int)[z - pos] == b[z]);
        assert(eb.subrange(74, 74 + q)[z - pos - 74] == eb[z - pos]);
    }
}

proof fn lemma_fields_from(b: Seq<u8>, pos: int, end: int, e: EntryModel)
    requires
        matches_at(b, pos, end, e),
        0 <= pos,
        end <= b.len(),
    ensures
        e.ctime_sec == u32_at(b, pos),
        e.ctime_nsec == u32_at(b, pos + 4),
        e.mtime_sec == u32_at(b, pos + 8),
        e.mtime_nsec == u32_at(b, pos + 12),
        e.dev == u32_at(b, pos + 16),
        e.ino == u32_at(b, pos + 20),
        e.mode == u32_at(b, pos + 24),
        e.uid == u32_at(b, pos + 28),
        e.gid == u32_at(b, pos + 32),
        e.file_size == u32_at(b, pos + 36),
        e.hash == b.subrange(pos + 40, pos + 72),
        e.flags == u16_at(b, pos + 72),
        e.path == b.subrange(pos + 74, pos + 74 + e.path.len()),
        b[pos + 74 + e.path.len()] == 0,
        forall|i: int| pos + 74 <= i < pos + 74 + e.path.len() ==> b[i] != 0,
{
    lemma_entry_layout(e);
    let eb = entry_bytes(e);
    let q = e.path.len() as int;
    assert(eb == b.subrange(pos, pos + eb.len()));
    assert(eb.subrange(40, 72) =~= b.subrange(pos + 40, pos + 72));
    assert(eb.subrange(74, 74 + q) =~= b.subrange(pos + 74, pos + 74 + q));
    assert(u32_at(eb, 0) == u32_at(b, pos));
    assert(u32_at(eb, 4) == u32_at(b, pos + 4));
    assert(u32_at(eb, 8) == u32_at(b, pos + 8));
    assert(u32_at(eb, 12) == u32_at(b, pos + 12));
    assert(u32_at(eb, 16) == u32_at(b, pos + 16));
    assert(u32_at(eb, 20) == u32_at(b, pos + 20));
    assert(u32_at(eb, 24) == u32_at(b, pos + 24));
    assert(u32_at(eb, 28) == u32_at(b, pos + 28));
    assert(u32_at(eb, 32) == u32_at(b, pos + 32));
    assert(u32_at(eb, 36) == u32_at(b, pos + 36));
    assert(u16_at(eb, 72) == u16_at(b, pos + 72));
    assert(b[pos + 74 + q] == eb[74 + q]);
    assert forall|i: int| pos + 74 <= i < pos + 74 + q implies b[i] != 0 by {
        assert(b[i] == eb.subrange(74, 74 + q)[i - pos - 74]);
    }
}

proof fn lemma_entry_determined(b: Seq<u8>, pos: int, end: int, e: EntryModel, e2: EntryModel)
    requires
        matches_at(b, pos, end, e2),
        0 <= pos,
        end <= b.len(),
        e.ctime_sec == u32_at(b, pos),
        e.ctime_nsec == u32_at(b, pos + 4),
        e.mtime_sec == u32_at(b, pos + 8),
        e.mtime_nsec == u32_at(b, pos + 12),
        e.dev == u32_at(b, pos + 16),
        e.ino == u32_at(b, pos + 20),
        e.mode == u32_at(b, pos + 24),
        e.uid == u32_at(b, pos + 28),
        e.gid == u32_at(b, pos + 32),
        e.file_size == u32_at(b, pos + 36),
        e.hash == b.subrange(pos + 40, pos + 72),
        e.flags == u16_at(b, pos + 72),
        e.path == b.subrange(pos + 74, pos + 74 + e2.path.len()),
    ensures
        e == e2,
{
    lemma_fields_from(b, pos, end, e2);
    assert(e.hash =~= e2.hash);
    assert(e.path =~= e2.path);
}

proof fn lemma_entry_unique(b: Seq<u8>, pos: int, end: int, e1: EntryModel, e2: EntryModel)
    requires
        matches_at(b, pos, end, e1),
        matches_at(b, pos, end, e2),
        0 <= pos,
        end <= b.len(),
    ensures
        e1 == e2,
{
    lemma_fields_from(b, pos, end, e1);
    lemma_entry_layout(e1);
    let z = pos + 74 + e1.path.len();
    lemma_path_end(b, pos, end, z, e2);
    lemma_entry_determined(b, pos, end, e1, e2);
}

fn read_u32(b: &[u8], off: usize) -> (r: u32)
    requires
        off + 4 <= b@.len(),
    ensures
        r == u32_at(b@, off as int),
{
    (b[off] as u32) * 0x1000000 + (b[off + 1] as u32) * 0x10000 + (b[off + 2] as u32) * 0x100 + (
    b[off + 3] as u32)
}

fn read_u16(b: &[u8], off: usize) -> (r: u16)
    requires
        off + 2 <= b@.len(),
    ensures
        r == u16_at(b@, off as int),
{
    (b[off] as u16) * 0x100 + (b[off + 1] as u16)
}

/// Whether `b` holds the bytes of `expected` at `pos`.
fn bytes_at(b: &[u8], pos: usize, expected: &[u8]) -> (r: bool)
    requires
        pos + expected@.len() <= b@.len(),
    ensures
        r == (b@.subrange(pos as int, pos + expected@.len()) == expected@),
{
    let blen = b.len();
    let mut i: usize = 0;
    while i < expected.len()
        invariant
            0 <= i <= expected@.len(),
            blen == b@.len(),
            pos + expected@.len() <= b@.len(),
            forall|k: int| 0 <= k < i ==> b@[pos + k] == expected@[k],
        decreases expected@.len() - i,
    {
        if b[pos + i] != expected[i] {
            assert(b@.subrange(pos as int, pos + expected@.len())[i as int] != expected@[i as int]);
            return false;
        }
        i = i + 1;
    }
    assert(b@.subrange(pos as int, pos + expected@.len()) =~= expected@);
    true
}

/// Reads the entry that starts at `pos` and must end by `end`. The entry is
/// read back only in its canonical form, so the entry found is the only one
/// whose bytes stand there.
fn parse_entry(b: &[u8], pos: usize, end: usize) -> (r: Option<(IndexEntry, usize)>)
    requires
        pos <= end <= b@.len(),
    ensures
        r matches Some((e, next)) ==> next == pos + entry_bytes(e@).len() && matches_at(
            b@,
            pos as int,
            end as int,
            e@,
        ),
        forall|e2: EntryModel| #[trigger]
            matches_at(b@, pos as int, end as int, e2) ==> (r matches Some((e, next)) && e@
                == e2),
{
    if end - pos < 75 {
        proof {
            assert forall|e2: EntryModel| #[trigger]
                matches_at(b@, pos as int, end as int, e2) implies false by {
                lemma_entry_layout(e2);
            }
        }
        return None;
    }
    let start = pos + 74;
    let mut z = start;
    while z < end && b[z] != 0
        invariant
            start <= z <= end <= b@.len(),
            forall|i: int| start <= i < z ==> b@[i] != 0,
        decreases end - z,
    {
        z = z + 1;
    }
    proof {
        assert forall|e2: EntryModel| #[trigger] matches_at(b@, pos as int, end as int, e2) implies z
            < end && z == start + e2.path.len() by {
            lemma_path_end(b@, pos as int, end as int, z as int, e2);
        }
    }
    if z == end {
        return None;
    }
    let mut hash = [0u8; 32];
    let mut i: usize = 0;
    while i < 32
        invariant
            0 <= i <= 32,
            pos + 75 <= end <= b@.len(),
            hash@.len() == 32,
            forall|k: int| 0 <= k < i ==> hash@[k] == b@[pos + 40 + k],
        decreases 32 - i,
    {
        hash[i] = b[pos + 40 + i];
        i = i + 1;
    }
    let path = copy_range(b, start, z);
    assert(hash@ =~= b@.subrange(pos + 40, pos + 72));
    let e = IndexEntry {
        ctime_sec: read_u32(b, pos),
        ctime_nsec: read_u32(b, pos + 4),
        mtime_sec: read_u32(b, pos + 8),
        mtime_nsec: read_u32(b, pos + 12),
        dev: read_u32(b, pos + 16),
        ino: read_u32(b, pos + 20),
        mode: read_u32(b, pos + 24),
        uid: read_u32(b, pos + 28),
        gid: read_u32(b, pos + 32),
        file_size: read_u32(b, pos + 36),
        hash,
        flags: read_u16(b, pos + 72),
        path,
    };
    assert(entry_wf(e@)) by {
        assert forall|k: int| 0 <= k < e@.path.len() implies #[trigger] e@.path[k] != 0 by {
            assert(e@.path[k] == b@[start + k]);
        }
    }
    proof {
        assert forall|e2: EntryModel| #[trigger] matches_at(b@, pos as int, end as int, e2) implies e@
            == e2 by {
            lemma_path_end(b@, pos as int, end as int, z as int, e2);
            lemma_entry_determined(b@, pos as int, end as int, e@, e2);
        }
    }
    let mut enc: Vec<u8> = Vec::new();
    push_entry(&mut enc, &e);
    assert(enc@ =~= entry_bytes(e@));
    if enc.len() <= end - pos && bytes_at(b, pos, enc.as_slice()) {
        Some((e, pos + enc.len()))
    } else {
        None
    }
}

/// `m` is a well-formed index whose file bytes are `b`.
pub open spec fn is_index_of(b: Seq<u8>, m: Seq<EntryModel>) -> bool {
    index_wf(m) && index_bytes(m) == b
}

proof fn lemma_index_len(m: Seq<EntryModel>)
    ensures
        index_body(m).len() == 12 + entries_bytes(m).len(),
        index_bytes(m).len() == index_body(m).len() + 32,
        index_bytes(m).subrange(0, index_body(m).len() as int) == index_body(m),
{
    assert(sha256_of(index_body(m))@.len() == 32);
    assert(index_bytes(m).subrange(0, index_body(m).len() as int) =~= index_body(m));
}

proof fn lemma_entries_prefix(m: Seq<EntryModel>, k: int)
    requires
        0 <= k <= m.len(),
    ensures
        entries_bytes(m.subrange(0, k)).len() <= entries_bytes(m).len(),
        entries_bytes(m).subrange(0, entries_bytes(m.subrange(0, k)).len() as int) == entries_bytes(
            m.subrange(0, k),
        ),
    decreases m.len(),
{
    if k == m.len() {
        assert(m.subrange(0, k) =~= m);
        assert(entries_bytes(m).subrange(0, entries_bytes(m).len() as int) =~= entries_bytes(m));
    } else {
        let q = m.drop_last();
        lemma_entries_prefix(q, k);
        assert(q.subrange(0, k) =~= m.subrange(0, k));
        let l = entries_bytes(m.subrange(0, k)).len() as int;
        assert(entries_bytes(m).subrange(0, l) =~= entries_bytes(q).subrange(0, l));
    }
}

proof fn lemma_entries_push(m: Seq<EntryModel>, e: EntryModel)
    ensures
        entries_bytes(m.push(e)) == entries_bytes(m) + entry_bytes(e),
{
    assert(m.push(e).drop_last() =~= m);
}

proof fn lemma_entry_at(m: Seq<EntryModel>, b: Seq<u8>, k: int)
    requires
        is_index_of(b, m),
        0 <= k < m.len(),
    ensures
        matches_at(b, 12 + entries_bytes(m.subrange(0, k)).len() as int, b.len() - 32, m[k]),
{
    lemma_index_len(m);
    lemma_entries_prefix(m, k + 1);
    assert(m.subrange(0, k + 1) =~= m.subrange(0, k).push(m[k]));
    lemma_entries_push(m.subrange(0, k), m[k]);
    let pos: int = 12 + entries_bytes(m.subrange(0, k)).len() as int;
    let eb = entry_bytes(m[k]);
    let body = index_body(m);
    assert(b.subrange(pos, pos + eb.len() as int) =~= eb) by {
        assert forall|i: int| 0 <= i < eb.len() implies #[trigger] b.subrange(pos, pos + eb.len() as int)[i]
            == eb[i] by {
            assert(b[pos + i] == body[pos + i]);
            assert(body[pos + i] == entries_bytes(m)[pos + i - 12]);
            assert(entries_bytes(m)[pos + i - 12] == entries_bytes(m.subrange(0, k + 1))[pos + i
                - 12]);
        }
    }
}

proof fn lemma_header_mismatch(b: Seq<u8>, count: u32)
    requires
        b.len() >= 44,
        count == u32_at(b, 8),
        b.subrange(0, 12) != header_bytes(count),
    ensures
        forall|m: Seq<EntryModel>| !#[trigger] is_index_of(b, m),
{
    assert forall|m: Seq<EntryModel>| !#[trigger] is_index_of(b, m) by {
        if is_index_of(b, m) {
            lemma_index_len(m);
            let h = header_bytes(m.len() as u32);
            assert forall|i: int| 0 <= i < 12 implies b[i] == h[i] by {
                assert(b[i] == index_body(m)[i]);
            }
            assert(b.subrange(8, 12) =~= be32(m.len() as u32));
            lemma_u32_at(b, 8, m.len() as u32);
            assert(b.subrange(0, 12) =~= h);
        }
    }
}

proof fn lemma_step_matches(
    b: Seq<u8>,
    m: Seq<EntryModel>,
    view: Seq<EntryModel>,
    pos: int,
    k: int,
    count: u32,
)
    requires
        is_index_of(b, m),
        0 <= k < m.len(),
        m.subrange(0, k) == view,
        12 <= pos <= b.len(),
        b.subrange(0, pos) == header_bytes(count) + entries_bytes(view),
    ensures
        matches_at(b, pos, b.len() - 32, m[k]),
{
    lemma_entry_at(m, b, k);
    assert(header_bytes(count).len() == 12);
    assert(b.subrange(0, pos).len() == pos);
}

proof fn lemma_wf_push(view: Seq<EntryModel>, e: EntryModel)
    requires
        index_wf(view),
        entry_wf(e),
        view.len() < u32::MAX,
        view.len() > 0 ==> bytes_lt(view.last().path, e.path),
    ensures
        index_wf(view.push(e)),
{
    let nv = view.push(e);
    let k = view.len() as int;
    assert forall|i: int, j: int| 0 <= i < j < nv.len() implies bytes_lt(
        #[trigger] nv[i].path,
        #[trigger] nv[j].path,
    ) by {
        if j < k {
            assert(nv[i] == view[i] && nv[j] == view[j]);
        } else {
            assert(nv[i] == view[i]);
            if i < k - 1 {
                lemma_lt_transitive(view[i].path, view[k - 1].path, e.path);
            }
        }
    }
    assert forall|i: int| 0 <= i < nv.len() implies entry_wf(#[trigger] nv[i]) by {
        if i < k {
            assert(nv[i] == view[i]);
        }
    }
}

/// Every well-formed index whose file is `b` counts `count` entries and
/// begins with `view`.
pub open spec fn determined_prefix(b: Seq<u8>, count: u32, view: Seq<EntryModel>) -> bool {
    forall|m: Seq<EntryModel>| #[trigger]
        is_index_of(b, m) ==> m.len() == count && m.subrange(0, view.len() as int) == view
}

proof fn lemma_step(
    b: Seq<u8>,
    count: u32,
    view: Seq<EntryModel>,
    e: EntryModel,
    pos: int,
    next: int,
)
    requires
        12 <= pos <= next,
        next + 32 <= b.len(),
        view.len() < count,
        index_wf(view),
        b.subrange(0, pos) == header_bytes(count) + entries_bytes(view),
        determined_prefix(b, count, view),
        next == pos + entry_bytes(e).len(),
        matches_at(b, pos, b.len() - 32, e),
        forall|m: Seq<EntryModel>| #[trigger] is_index_of(b, m) ==> m[view.len() as int] == e,
        view.len() > 0 ==> bytes_lt(view.last().path, e.path),
    ensures
        index_wf(view.push(e)),
        b.subrange(0, next) == header_bytes(count) + entries_bytes(view.push(e)),
        determined_prefix(b, count, view.push(e)),
{
    lemma_entries_push(view, e);
    lemma_wf_push(view, e);
    assert(b.subrange(0, next) =~= b.subrange(0, pos) + b.subrange(pos, next));
    let k = view.len() as int;
    assert forall|m: Seq<EntryModel>| #[trigger] is_index_of(b, m) implies m.len() == count
        && m.subrange(0, k + 1) == view.push(e) by {
        assert(m.subrange(0, k + 1) =~= m.subrange(0, k).push(m[k]));
    }
}

/// Reads the `count` entries that follow a valid header, in order.
fn read_entries(b: &[u8], count: u32) -> (r: Option<(Vec<IndexEntry>, usize)>)
    requires
        b@.len() >= 44,
        b@.subrange(0, 12) == header_bytes(count),
    ensures
        match r {
            Some((entries, pos)) => {
                let view = entries@.map_values(|e: IndexEntry| e@);
                &&& view.len() == count
                &&& index_wf(view)
                &&& 12 <= pos <= b@.len() - 32
                &&& b@.subrange(0, pos as int) == header_bytes(count) + entries_bytes(view)
                &&& determined_prefix(b@, count, view)
            },
            None => forall|m: Seq<EntryModel>| !#[trigger] is_index_of(b@, m),
        },
{
    let end = b.len() - 32;
    let mut entries: Vec<IndexEntry> = Vec::new();
    let mut pos: usize = 12;
    let mut k: u32 = 0;
    proof {
        assert(entries@.map_values(|e: IndexEntry| e@) =~= Seq::<EntryModel>::empty());
        assert(b@.subrange(0, 12) =~= header_bytes(count) + entries_bytes(
            Seq::<EntryModel>::empty(),
        ));
        assert forall|m: Seq<EntryModel>| #[trigger] is_index_of(b@, m) implies m.len() == count
            && m.subrange(0, 0) == Seq::<EntryModel>::empty() by {
            lemma_index_len(m);
            let h = header_bytes(m.len() as u32);
            assert forall|i: int| 8 <= i < 12 implies b@[i] == h[i] by {
                assert(b@[i] == index_body(m)[i]);
                assert(b@[i] == b@.subrange(0, 12)[i]);
            }
            assert(b@.subrange(8, 12) =~= be32(m.len() as u32));
            assert(header_bytes(count).subrange(8, 12) =~= be32(count));
            assert(b@.subrange(8, 12) =~= be32(count));
            lemma_u32_at(b@, 8, m.len() as u32);
            lemma_u32_at(b@, 8, count);
            assert(m.subrange(0, 0) =~= Seq::<EntryModel>::empty());
        }
    }
    while k < count
        invariant
            12 <= pos <= end,
            end + 32 == b@.len(),
            entries@.len() == k,
            k <= count,
            index_wf(entries@.map_values(|e: IndexEntry| e@)),
            b@.subrange(0, pos as int) == header_bytes(count) + entries_bytes(
                entries@.map_values(|e: IndexEntry| e@),
            ),
            determined_prefix(b@, count, entries@.map_values(|e: IndexEntry| e@)),
        decreases count - k,
    {
        let ghost view = entries@.map_values(|e: IndexEntry| e@);
        proof {
            assert forall|m: Seq<EntryModel>| #[trigger] is_index_of(b@, m) implies matches_at(
                b@,
                pos as int,
                end as int,
                m[k as int],
            ) by {
                lemma_step_matches(b@, m, view, pos as int, k as int, count);
            }
        }
        let parsed = parse_entry(b, pos, end);
        match parsed {
            None => {
                proof {
                    assert forall|m: Seq<EntryModel>| !#[trigger] is_index_of(b@, m) by {
                        if is_index_of(b@, m) {
                            assert(matches_at(b@, pos as int, end as int, m[k as int]));
                        }
                    }
                }
                return None;
            },
            Some((e, next)) => {
                proof {
                    assert forall|m: Seq<EntryModel>| #[trigger] is_index_of(b@, m) implies m[k as int]
                        == e@ by {
                        assert(matches_at(b@, pos as int, end as int, m[k as int]));
                    }
                }
                if k > 0 && !path_lt(entries[(k - 1) as usize].path.as_slice(), e.path.as_slice()) {
                    proof {
                        assert forall|m: Seq<EntryModel>| !#[trigger] is_index_of(b@, m) by {
                            if is_index_of(b@, m) {
                                assert(m[k - 1] == m.subrange(0, k as int)[k - 1]);
                                assert(bytes_lt(m[k - 1].path, m[k as int].path));
                            }
                        }
                    }
                    return None;
                }
                proof {
                    lemma_step(b@, count, view, e@, pos as int, next as int);
                }
                let ghost em = e@;
                entries.push(e);
                assert(entries@.map_values(|e: IndexEntry| e@) =~= view.push(em));
                pos = next;
                k = k + 1;
            },
        }
    }
    Some((entries, pos))
}

/// Reads an index file. It succeeds exactly when `b` is the file of some
/// well-formed index, and then returns that index; anything else (a bad
/// signature or version, a truncated or malformed entry, paths out of
/// order, trailing bytes, a checksum mismatch) is `CorruptIndex`.
#[verifier::rlimit(40)]
pub fn read_index(b: &[u8]) -> (r: Result<Index, StoreError>)
    ensures
        match r {
            Ok(idx) => is_index_of(b@, idx@),
            Err(e) => e == StoreError::CorruptIndex && forall|m: Seq<EntryModel>|
                !#[trigger] is_index_of(b@, m),
        },
{
    if b.len() < 44 {
        proof {
            assert forall|m: Seq<EntryModel>| !#[trigger] is_index_of(b@, m) by {
                lemma_index_len(m);
            }
        }
        return Err(StoreError::CorruptIndex);
    }
    let end = b.len() - 32;
    let count = read_u32(b, 8);
    let mut hdr: Vec<u8> = Vec::new();
    push_be32(&mut hdr, 0x44495243);
    push_be32(&mut hdr, 2);
    push_be32(&mut hdr, count);
    assert(hdr@ =~= header_bytes(count)) by {
        assert(be32(0x44495243) =~= signature());
    }
    if !bytes_at(b, 0, hdr.as_slice()) {
        proof {
            lemma_header_mismatch(b@, count);
        }
        return Err(StoreError::CorruptIndex);
    }
    let (entries, pos) = match read_entries(b, count) {
        Some(found) => found,
        None => {
            return Err(StoreError::CorruptIndex);
        },
    };
    let ghost view = entries@.map_values(|e: IndexEntry| e@);
    proof {
        assert forall|m: Seq<EntryModel>| #[trigger] is_index_of(b@, m) implies m == view by {
            assert(m.subrange(0, count as int) =~= m);
        }
        assert(header_bytes(count) == header_bytes(view.len() as u32));
        lemma_index_len(view);
    }
    if pos != end {
        proof {
            assert forall|m: Seq<EntryModel>| !#[trigger] is_index_of(b@, m) by {
                if is_index_of(b@, m) {
                    lemma_index_len(m);
                }
            }
        }
        return Err(StoreError::CorruptIndex);
    }
    let body = copy_range(b, 0, end);
    let sum = sha256(body.as_slice());
    assert(body@ == index_body(view));
    if !bytes_at(b, end, &sum) {
        proof {
            assert forall|m: Seq<EntryModel>| !#[trigger] is_index_of(b@, m) by {
                if is_index_of(b@, m) {
                    assert(b@.subrange(end as int, end + 32) =~= sha256_of(index_body(m))@);
                }
            }
        }
        return Err(StoreError::CorruptIndex);
    }
    assert(b@ =~= body@ + sum@);
    Ok(Index { entries })
}

proof fn lemma_index_count(b: Seq<u8>, m: Seq<EntryModel>)
    requires
        is_index_of(b, m),
    ensures
        m.len() == u32_at(b, 8),
{
    lemma_index_len(m);
    let h = header_bytes(m.len() as u32);
    assert forall|i: int| 8 <= i < 12 implies b[i] == h[i] by {
        assert(b[i] == index_body(m)[i]);
    }
    assert(b.subrange(8, 12) =~= be32(m.len() as u32));
    lemma_u32_at(b, 8, m.len() as u32);
}

proof fn lemma_prefix_agree(b: Seq<u8>, m1: Seq<EntryModel>, m2: Seq<EntryModel>, k: int)
    requires
        is_index_of(b, m1),
        is_index_of(b, m2),
        m1.len() == m2.len(),
        0 <= k <= m1.len(),
    ensures
        m1.subrange(0, k) == m2.subrange(0, k),
    decreases k,
{
    if k > 0 {
        lemma_prefix_agree(b, m1, m2, k - 1);
        lemma_entry_at(m1, b, k - 1);
        lemma_entry_at(m2, b, k - 1);
        lemma_index_len(m1);
        lemma_entry_unique(
            b,
            12 + entries_bytes(m1.subrange(0, k - 1)).len() as int,
            b.len() - 32,
            m1[k - 1],
            m2[k - 1],
        );
        assert(m1.subrange(0, k) =~= m1.subrange(0, k - 1).push(m1[k - 1]));
        assert(m2.subrange(0, k) =~= m2.subrange(0, k - 1).push(m2[k - 1]));
    }
}

/// The file of a well-formed index determines the index: no two
/// well-formed indexes are written to the same bytes.
pub proof fn lemma_index_bytes_injective(m1: Seq<EntryModel>, m2: Seq<EntryModel>)
    requires
        index_wf(m1),
        index_wf(m2),
        index_bytes(m1) == index_bytes(m2),
    ensures
        m1 == m2,
{
    let b = index_bytes(m1);
    lemma_index_count(b, m1);
    lemma_index_count(b, m2);
    lemma_prefix_agree(b, m1, m2, m1.len() as int);
    assert(m1.subrange(0, m1.len() as int) =~= m1);
    assert(m2.subrange(0, m2.len() as int) =~= m2);
}

/// Round trip: the file of a well-formed index reads back as that same
/// index, and writing what was read gives the same bytes again.
pub proof fn lemma_round_trip(m: Seq<EntryModel>, loaded: Seq<EntryModel>)
    requires
        index_wf(m),
        is_index_of(index_bytes(m), loaded),
    ensures
        is_index_of(index_bytes(m), m),
        loaded == m,
        index_bytes(loaded) == index_bytes(m),
{
    lemma_index_bytes_injective(m, loaded);
}

/// A saved index file with one byte changed before the checksum reads back
/// only if SHA-256 gives the changed body the same digest as the unchanged one.
pub proof fn lemma_changed_body_reads_only_on_collision(
    m: Seq<EntryModel>,
    i: int,
    v: u8,
    loaded: Seq<EntryModel>,
)
    requires
        index_wf(m),
        0 <= i < index_body(m).len(),
        v != index_bytes(m)[i],
        is_index_of(index_bytes(m).update(i, v), loaded),
    ensures
        index_bytes(m).update(i, v).subrange(0, index_body(m).len() as int) != index_body(m),
        sha256_of(index_bytes(m).update(i, v).subrange(0, index_body(m).len() as int))@
            == sha256_of(index_body(m))@,
{
    let b = index_bytes(m).update(i, v);
    let l = index_body(m).len() as int;
    lemma_index_len(m);
    lemma_index_len(loaded);
    assert(index_body(loaded) =~= b.subrange(0, l));
    assert(b.subrange(0, l)[i] == v);
    assert(b.subrange(l, l + 32) =~= sha256_of(index_body(loaded))@);
    assert(index_bytes(m).subrange(l, l + 32) =~= sha256_of(index_body(m))@);
    assert(b.subrange(l, l + 32) =~= index_bytes(m).subrange(l, l + 32));
}

proof fn lemma_upsert_all_len(m: Seq<EntryModel>, es: Seq<EntryModel>, k: int)
    requires
        sorted_by_path(m),
        0 <= k <= es.len(),
    ensures
        upsert_all(m, es.subrange(0, k)).len() <= upsert_all(m, es).len(),
    decreases es.len(),
{
    if k == es.len() {
        assert(es.subrange(0, k) =~= es);
    } else {
        let q = es.drop_last();
        lemma_upsert_all_len(m, q, k);
        assert(q.subrange(0, k) =~= es.subrange(0, k));
        lemma_upserts_keep_sorted(m, q);
        lemma_upsert_sorted(upsert_all(m, q), es.last());
    }
}

/// Upserting one more entry after the first `k` of `es`.
pub proof fn lemma_upsert_all_step(m: Seq<EntryModel>, es: Seq<EntryModel>, k: int)
    requires
        sorted_by_path(m),
        0 <= k < es.len(),
    ensures
        upsert_all(m, es.subrange(0, k + 1)) == upsert_model(upsert_all(m, es.subrange(0, k)), es[k]),
        sorted_by_path(upsert_all(m, es.subrange(0, k))),
        upsert_all(m, es.subrange(0, k + 1)).len() <= upsert_all(m, es).len(),
{
    assert(es.subrange(0, k + 1).drop_last() =~= es.subrange(0, k));
    lemma_upserts_keep_sorted(m, es.subrange(0, k));
    lemma_upsert_all_len(m, es, k + 1);
}

/// Padding aligns every entry: the encoded length of any entry with a
/// 32-byte hash is a multiple of 8, and at most 7 padding bytes are added.
pub proof fn lemma_entry_len_aligned(e: EntryModel)
    requires
        e.hash.len() == 32,
    ensures
        entry_bytes(e).len() % 8 == 0,
        padding_len(e.path.len()) < 8,
{
    lemma_entry_layout(e);
}

} // verus!

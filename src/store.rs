use crate::error::StoreError;
use crate::index::{
    create_entry, entry_of, entry_wf, has_path, index_bytes, index_wf, is_index_of,
    lemma_index_bytes_injective, lemma_upsert_all_step, lemma_upsert_sorted, read_index,
    upsert_all, upsert_model, write_index, EntryModel, FileMeta, Index,
};
use crate::object::{content_address, store_object, ObjectRecord};
use vstd::prelude::*;
use vstd::string::StringSliceAdditionalSpecFns;
use vstd::utf8::encode_utf8;

verus! {

/// Whether a byte string holds a NUL byte.
pub open spec fn has_nul(p: Seq<u8>) -> bool {
    exists|i: int| 0 <= i < p.len() && #[trigger] p[i] == 0
}

/// `m` is what an index file holds: the empty index when there is no file,
/// else the well-formed index that the file's bytes encode.
pub open spec fn loaded_from(file: Option<&[u8]>, m: Seq<EntryModel>) -> bool {
    match file {
        None => m == Seq::<EntryModel>::empty(),
        Some(b) => is_index_of(b@, m),
    }
}

/// Whether `p` holds a NUL byte.
pub fn contains_nul(p: &[u8]) -> (r: bool)
    ensures
        r == has_nul(p@),
{
    let mut i: usize = 0;
    while i < p.len()
        invariant
            0 <= i <= p@.len(),
            forall|k: int| 0 <= k < i ==> p@[k] != 0,
        decreases p@.len() - i,
    {
        if p[i] == 0 {
            return true;
        }
        i = i + 1;
    }
    false
}

/// Loads the index held by an index file; a missing file (`None`) is the
/// empty index, a file that encodes no well-formed index is `CorruptIndex`.
pub fn load_index(file: Option<&[u8]>) -> (r: Result<Index, StoreError>)
    ensures
        match r {
            Ok(idx) => loaded_from(file, idx@) && index_wf(idx@),
            Err(e) => e == StoreError::CorruptIndex && forall|m: Seq<EntryModel>|
                !#[trigger] loaded_from(file, m),
        },
{
    match file {
        None => {
            let idx = Index::new();
            assert(index_wf(idx@));
            Ok(idx)
        },
        Some(b) => read_index(b),
    }
}

proof fn lemma_loaded_unique(file: Option<&[u8]>, m1: Seq<EntryModel>, m2: Seq<EntryModel>)
    requires
        loaded_from(file, m1),
        loaded_from(file, m2),
    ensures
        m1 == m2,
{
    if let Some(b) = file {
        lemma_index_bytes_injective(m1, m2);
    }
}

/// Records `path` with content address `hash` and metadata `meta` in the
/// index held by `file`, and returns the bytes of the updated index file.
/// A path with a NUL byte is refused before anything else is read.
pub fn add_index(file: Option<&[u8]>, path: &str, hash: [u8; 32], meta: &FileMeta) -> (r: Result<
    Vec<u8>,
    StoreError,
>)
    ensures
        has_nul(path.spec_bytes()) ==> r == Err::<Vec<u8>, StoreError>(StoreError::InvalidPath),
        !has_nul(path.spec_bytes()) && (forall|m: Seq<EntryModel>| !#[trigger] loaded_from(file, m))
            ==> r == Err::<Vec<u8>, StoreError>(StoreError::CorruptIndex),
        forall|m: Seq<EntryModel>| #[trigger]
            loaded_from(file, m) && !has_nul(path.spec_bytes()) ==> {
                let e = entry_of(path.spec_bytes(), hash@, *meta);
                &&& !has_path(m, e.path) && m.len() == u32::MAX ==> r == Err::<
                    Vec<u8>,
                    StoreError,
                >(StoreError::IndexFull)
                &&& has_path(m, e.path) || m.len() < u32::MAX ==> (r matches Ok(v) && v@
                    == index_bytes(upsert_model(m, e)))
            },
{
    if contains_nul(path.as_bytes()) {
        return Err(StoreError::InvalidPath);
    }
    let mut index = match load_index(file) {
        Ok(idx) => idx,
        Err(e) => {
            return Err(e);
        },
    };
    let ghost m0 = index@;
    let entry = create_entry(path, hash, meta);
    assert(entry_wf(entry@));
    let ghost e = entry@;
    let res = index.upsert(entry);
    proof {
        assert forall|m: Seq<EntryModel>| #[trigger] loaded_from(file, m) implies m == m0 by {
            lemma_loaded_unique(file, m, m0);
        }
    }
    match res {
        Ok(()) => Ok(write_index(&index)),
        Err(err) => Err(err),
    }
}

/// The tag under which file contents are stored: `blob`.
pub open spec fn blob_tag() -> Seq<u8> {
    seq![98u8, 108u8, 111u8, 98u8]
}

/// One file to add: its path, its content and its metadata.
pub struct FileSnapshot {
    pub path: String,
    pub content: Vec<u8>,
    pub meta: FileMeta,
}

/// What adding files yields: the object of each file, in order, and the
/// bytes of the updated index file.
pub struct AddOutcome {
    pub objects: Vec<ObjectRecord>,
    pub index: Vec<u8>,
}

/// The entries that record the files, in order.
pub open spec fn snapshot_entries(files: Seq<FileSnapshot>) -> Seq<EntryModel> {
    Seq::new(
        files.len(),
        |i: int|
            entry_of(
                encode_utf8(files[i].path@),
                content_address(blob_tag(), files[i].content@),
                files[i].meta,
            ),
    )
}

/// Some file's path holds a NUL byte.
pub open spec fn some_path_has_nul(files: Seq<FileSnapshot>) -> bool {
    exists|i: int| 0 <= i < files.len() && has_nul(encode_utf8(#[trigger] files[i].path@))
}

/// Adds files: stores each content as a `blob` object and records each path,
/// in order, in the index held by `file`. Returns the objects to write and
/// the bytes of the new index file. Paths are checked before anything else.
pub fn add(files: &Vec<FileSnapshot>, file: Option<&[u8]>) -> (r: Result<AddOutcome, StoreError>)
    ensures
        some_path_has_nul(files@) ==> r == Err::<AddOutcome, StoreError>(StoreError::InvalidPath),
        !some_path_has_nul(files@) && (forall|m: Seq<EntryModel>| !#[trigger] loaded_from(file, m))
            ==> r == Err::<AddOutcome, StoreError>(StoreError::CorruptIndex),
        forall|m: Seq<EntryModel>| #[trigger]
            loaded_from(file, m) && !some_path_has_nul(files@) ==> {
                let fin = upsert_all(m, snapshot_entries(files@));
                &&& fin.len() > u32::MAX ==> r == Err::<AddOutcome, StoreError>(
                    StoreError::IndexFull,
                )
                &&& fin.len() <= u32::MAX ==> (r matches Ok(out) && out.index@ == index_bytes(fin)
                    && out.objects@.len() == files@.len() && forall|i: int|
                    0 <= i < files@.len() ==> (#[trigger] out.objects@[i]).describes(
                        blob_tag(),
                        files@[i].content@,
                    ))
            },
{
    let mut i: usize = 0;
    while i < files.len()
        invariant
            0 <= i <= files@.len(),
            forall|k: int| 0 <= k < i ==> !has_nul(encode_utf8(#[trigger] files@[k].path@)),
        decreases files@.len() - i,
    {
        if contains_nul(files[i].path.as_str().as_bytes()) {
            return Err(StoreError::InvalidPath);
        }
        i = i + 1;
    }
    let mut index = match load_index(file) {
        Ok(idx) => idx,
        Err(e) => {
            return Err(e);
        },
    };
    let ghost m0 = index@;
    let ghost es = snapshot_entries(files@);
    proof {
        assert forall|m: Seq<EntryModel>| #[trigger] loaded_from(file, m) implies m == m0 by {
            lemma_loaded_unique(file, m, m0);
        }
        assert(es.subrange(0, 0) =~= Seq::<EntryModel>::empty());
    }
    let tag: [u8; 4] = [98, 108, 111, 98];
    assert(tag@ =~= blob_tag());
    let mut objects: Vec<ObjectRecord> = Vec::new();
    let mut i: usize = 0;
    while i < files.len()
        invariant
            0 <= i <= files@.len(),
            es == snapshot_entries(files@),
            tag@ == blob_tag(),
            index_wf(m0),
            loaded_from(file, m0),
            forall|m: Seq<EntryModel>| #[trigger] loaded_from(file, m) ==> m == m0,
            index_wf(index@),
            index@ == upsert_all(m0, es.subrange(0, i as int)),
            objects@.len() == i,
            forall|k: int| 0 <= k < i ==> (#[trigger] objects@[k]).describes(
                blob_tag(),
                files@[k].content@,
            ),
            forall|k: int| 0 <= k < files@.len() ==> !has_nul(encode_utf8(#[trigger] files@[k].path@)),
        decreases files@.len() - i,
    {
        let f = &files[i];
        let record = store_object(&tag, f.content.as_slice());
        let entry = create_entry(f.path.as_str(), record.address, &f.meta);
        proof {
            lemma_upsert_all_step(m0, es, i as int);
            assert(entry@ == es[i as int]);
            assert(!has_nul(encode_utf8(files@[i as int].path@)));
            assert(entry_wf(entry@));
        }
        match index.upsert(entry) {
            Ok(()) => {},
            Err(e) => {
                proof {
                    lemma_upsert_sorted(upsert_all(m0, es.subrange(0, i as int)), es[i as int]);
                }
                return Err(e);
            },
        }
        objects.push(record);
        i = i + 1;
    }
    assert(es.subrange(0, files@.len() as int) =~= es);
    let bytes = write_index(&index);
    Ok(AddOutcome { objects, index: bytes })
}

} // verus!

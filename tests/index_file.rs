use minigit::error::StoreError;
use minigit::index::{
    create_entry, entry_padding, path_lt, read_index, write_index, FileMeta, Index,
    REGULAR_FILE_MODE,
};
use minigit::store::{add, add_index, load_index, FileSnapshot};
use sha2::Digest;

fn meta(n: u32) -> FileMeta {
    FileMeta {
        ctime_sec: 1_700_000_000 + n,
        ctime_nsec: 123 + n,
        mtime_sec: 1_700_000_100 + n,
        mtime_nsec: 456 + n,
        dev: 2049,
        ino: 77 + n,
        uid: 1000,
        gid: 1000,
        file_size: 5 + n,
    }
}

fn index_of(paths: &[&str]) -> Index {
    let mut index = Index::new();
    for (i, p) in paths.iter().enumerate() {
        let entry = create_entry(p, [i as u8; 32], &meta(i as u32));
        index.upsert(entry).unwrap();
    }
    index
}

fn paths(index: &Index) -> Vec<Vec<u8>> {
    index.entries.iter().map(|e| e.path.clone()).collect()
}

#[test]
fn padding_rule() {
    // 75 + 5 = 80 is a multiple of 8
    assert_eq!(entry_padding(5), 0);
    assert_eq!(entry_padding(0), 5);
    assert_eq!(entry_padding(1), 4);
    assert_eq!(entry_padding(4), 1);
    assert_eq!(entry_padding(6), 7);
    assert_eq!(entry_padding(13), 0);
}

#[test]
fn create_entry_fields() {
    let e = create_entry("src/main.rs", [9u8; 32], &meta(0));
    assert_eq!(e.mode, REGULAR_FILE_MODE);
    assert_eq!(e.mode, 0o100644);
    assert_eq!(e.flags, 11);
    assert_eq!(e.path, b"src/main.rs".to_vec());
    assert_eq!(e.hash, [9u8; 32]);
    assert_eq!(e.ctime_sec, 1_700_000_000);
    assert_eq!(e.file_size, 5);
}

#[test]
fn long_path_flags_are_capped() {
    let long = "x".repeat(5000);
    let e = create_entry(&long, [0u8; 32], &meta(0));
    assert_eq!(e.flags, 4095);
    assert_eq!(e.path.len(), 5000);
}

#[test]
fn byte_order_of_paths() {
    assert!(path_lt(b"a", b"b"));
    assert!(path_lt(b"a", b"ab"));
    assert!(!path_lt(b"ab", b"a"));
    assert!(!path_lt(b"a", b"a"));
    assert!(path_lt(b"", b"a"));
    assert!(path_lt(b"Z", b"a"));
}

#[test]
fn first_record_on_fresh_store() {
    let empty = load_index(None).unwrap();
    assert_eq!(empty.entries.len(), 0);

    let bytes = add_index(None, "hello", [1u8; 32], &meta(0)).unwrap();
    // header, one 80-byte entry (75 + 5 path bytes, no padding), checksum
    assert_eq!(bytes.len(), 12 + 80 + 32);
    assert_eq!(&bytes[0..4], b"DIRC");
    assert_eq!(&bytes[4..8], &[0, 0, 0, 2]);
    assert_eq!(&bytes[8..12], &[0, 0, 0, 1]);
    assert_eq!(&bytes[12..16], &(1_700_000_000u32).to_be_bytes());
    assert_eq!(&bytes[36..40], &(0o100644u32).to_be_bytes());
    assert_eq!(&bytes[52..84], &[1u8; 32]);
    assert_eq!(&bytes[84..86], &[0, 5]);
    assert_eq!(&bytes[86..91], b"hello");
    assert_eq!(bytes[91], 0);
    let sum: [u8; 32] = sha2::Sha256::digest(&bytes[..92]).into();
    assert_eq!(&bytes[92..], &sum);
}

#[test]
fn padded_single_entry() {
    let bytes = add_index(None, "a.txt2", [1u8; 32], &meta(0)).unwrap();
    // 75 + 6 = 81, padded to 88
    assert_eq!(bytes.len(), 12 + 88 + 32);
    assert_eq!(&bytes[8..12], &[0, 0, 0, 1]);
    assert_eq!(&bytes[12 + 74..12 + 80], b"a.txt2");
    for b in &bytes[12 + 80..12 + 88] {
        assert_eq!(*b, 0);
    }
}

#[test]
fn save_load_save_is_byte_identical() {
    let index = index_of(&["b.txt", "a.txt", "dir/c", "a"]);
    let first = write_index(&index);
    let loaded = read_index(&first).unwrap();
    assert_eq!(paths(&loaded), paths(&index));
    let second = write_index(&loaded);
    assert_eq!(first, second);
}

#[test]
fn empty_index_round_trip() {
    let index = Index::new();
    let bytes = write_index(&index);
    assert_eq!(bytes.len(), 44);
    let loaded = read_index(&bytes).unwrap();
    assert_eq!(loaded.entries.len(), 0);
}

#[test]
fn flipped_bytes_are_detected() {
    let index = index_of(&["one", "two", "three/four"]);
    let bytes = write_index(&index);
    let body = bytes.len() - 32;
    for i in 0..body {
        let mut changed = bytes.clone();
        changed[i] ^= 0x01;
        assert_eq!(read_index(&changed).unwrap_err(), StoreError::CorruptIndex);
    }
}

#[test]
fn malformed_files_are_corrupt() {
    assert_eq!(read_index(b"").unwrap_err(), StoreError::CorruptIndex);
    assert_eq!(read_index(b"not an index at all, clearly not").unwrap_err(), StoreError::CorruptIndex);
    let bytes = write_index(&index_of(&["x"]));
    assert_eq!(read_index(&bytes[..bytes.len() - 1]).unwrap_err(), StoreError::CorruptIndex);
    let mut longer = bytes.clone();
    longer.push(0);
    assert_eq!(read_index(&longer).unwrap_err(), StoreError::CorruptIndex);
    assert_eq!(
        add_index(Some(&bytes[..20]), "y", [0u8; 32], &meta(0)).unwrap_err(),
        StoreError::CorruptIndex
    );
}

#[test]
fn upserts_keep_paths_sorted() {
    let index = index_of(&["m", "c", "x", "a", "cc", "b/z", "b", "c"]);
    let p = paths(&index);
    for w in p.windows(2) {
        assert!(w[0] < w[1]);
    }
    assert_eq!(p.len(), 7);
}

#[test]
fn upsert_replaces_existing_path() {
    let mut index = index_of(&["a", "b", "c"]);
    let replacement = create_entry("b", [0xee; 32], &meta(9));
    index.upsert(replacement).unwrap();
    assert_eq!(index.entries.len(), 3);
    assert_eq!(paths(&index), vec![b"a".to_vec(), b"b".to_vec(), b"c".to_vec()]);
    assert_eq!(index.entries[1].hash, [0xee; 32]);
    assert_eq!(index.entries[1].ino, 77 + 9);
}

#[test]
fn add_index_updates_existing_file() {
    let first = add_index(None, "b", [1u8; 32], &meta(0)).unwrap();
    let second = add_index(Some(&first), "a", [2u8; 32], &meta(1)).unwrap();
    let loaded = read_index(&second).unwrap();
    assert_eq!(paths(&loaded), vec![b"a".to_vec(), b"b".to_vec()]);
    let third = add_index(Some(&second), "b", [3u8; 32], &meta(2)).unwrap();
    let loaded = read_index(&third).unwrap();
    assert_eq!(loaded.entries.len(), 2);
    assert_eq!(loaded.entries[1].hash, [3u8; 32]);
}

#[test]
fn nul_in_path_is_invalid() {
    assert_eq!(
        add_index(None, "a\0b", [0u8; 32], &meta(0)).unwrap_err(),
        StoreError::InvalidPath
    );
}

#[test]
fn add_stores_and_records_files() {
    let files = vec![
        FileSnapshot { path: "z.txt".to_string(), content: b"zzz".to_vec(), meta: meta(0) },
        FileSnapshot { path: "a.txt".to_string(), content: b"hello".to_vec(), meta: meta(1) },
    ];
    let out = add(&files, None).unwrap();
    assert_eq!(out.objects.len(), 2);
    assert_eq!(out.objects[1].payload, b"blob 5\0hello".to_vec());
    let loaded = read_index(&out.index).unwrap();
    assert_eq!(paths(&loaded), vec![b"a.txt".to_vec(), b"z.txt".to_vec()]);
    assert_eq!(loaded.entries[0].hash, out.objects[1].address);
    assert_eq!(loaded.entries[1].hash, out.objects[0].address);
}

#[test]
fn add_refuses_nul_path() {
    let files = vec![FileSnapshot { path: "bad\0".to_string(), content: vec![], meta: meta(0) }];
    assert_eq!(add(&files, None).err(), Some(StoreError::InvalidPath));
}

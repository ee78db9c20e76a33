use minigit::object::{compress_object, hex_address, store_object, tagged_payload_bytes};
use sha2::Digest;

fn hex(b: &[u8]) -> String {
    let mut s = String::new();
    for x in b {
        s.push_str(&format!("{:02x}", x));
    }
    s
}

#[test]
fn hello_blob_payload_and_location() {
    let payload = tagged_payload_bytes(b"blob", b"hello");
    assert_eq!(payload, b"blob 5\0hello".to_vec());

    let record = store_object(b"blob", b"hello");
    assert_eq!(record.payload, b"blob 5\0hello".to_vec());
    let expected: [u8; 32] = sha2::Sha256::digest(b"blob 5\0hello").into();
    assert_eq!(record.address, expected);
    let full = hex(&expected);
    assert_eq!(String::from_utf8(record.dir_name.clone()).unwrap(), full[..2].to_string());
    assert_eq!(String::from_utf8(record.file_name.clone()).unwrap(), full[2..].to_string());
    assert_eq!(record.dir_name.len(), 2);
    assert_eq!(record.file_name.len(), 62);
}

#[test]
fn empty_content_payload() {
    let record = store_object(b"blob", b"");
    assert_eq!(record.payload, b"blob 0\0".to_vec());
}

#[test]
fn multi_digit_length_payload() {
    let content = vec![7u8; 1234];
    let payload = tagged_payload_bytes(b"blob", &content);
    let mut expected = b"blob 1234\0".to_vec();
    expected.extend_from_slice(&content);
    assert_eq!(payload, expected);
}

#[test]
fn storing_twice_gives_the_same_address() {
    let a = store_object(b"blob", b"some content");
    let b = store_object(b"blob", b"some content");
    assert_eq!(a.address, b.address);
    assert_eq!(a.dir_name, b.dir_name);
    assert_eq!(a.file_name, b.file_name);
}

#[test]
fn distinct_contents_give_distinct_addresses() {
    let inputs: Vec<&[u8]> = vec![b"", b"a", b"b", b"hello", b"hello ", b"\0", b"hellp"];
    for i in 0..inputs.len() {
        for j in 0..inputs.len() {
            if i != j {
                let a = store_object(b"blob", inputs[i]);
                let b = store_object(b"blob", inputs[j]);
                assert_ne!(a.address, b.address);
            }
        }
    }
}

#[test]
fn hex_address_is_lowercase_hex() {
    let mut address = [0u8; 32];
    address[0] = 0xab;
    address[1] = 0x09;
    address[31] = 0xf0;
    let h = String::from_utf8(hex_address(&address)).unwrap();
    assert_eq!(h.len(), 64);
    assert!(h.starts_with("ab09"));
    assert!(h.ends_with("f0"));
}

#[test]
fn compressed_object_decodes_to_payload() {
    let record = store_object(b"blob", b"hello hello hello hello");
    let compressed = compress_object(&record).unwrap();
    assert_ne!(compressed, record.payload);
    let decoded = zstd::stream::decode_all(&compressed[..]).unwrap();
    assert_eq!(decoded, record.payload);
}

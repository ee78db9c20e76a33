use crate::bytes::{append_bytes, copy_range};
use crate::digest::{sha256, sha256_of, zstd_compress, zstd_frame_of};
use crate::error::StoreError;
use vstd::prelude::*;

verus! {

/// The ASCII decimal digits of `n`, most significant first.
pub open spec fn decimal(n: nat) -> Seq<u8>
    decreases n,
{
    if n < 10 {
        seq![(48 + n) as u8]
    } else {
        decimal(n / 10).push((48 + n % 10) as u8)
    }
}

/// The tagged payload: `"<tag> <length>\0"` followed by the content.
pub open spec fn tagged_payload(tag: Seq<u8>, content: Seq<u8>) -> Seq<u8> {
    tag + seq![32u8] + decimal(content.len()) + seq![0u8] + content
}

/// The address under which a content is stored with a given tag.
pub open spec fn content_address(tag: Seq<u8>, content: Seq<u8>) -> Seq<u8> {
    sha256_of(tagged_payload(tag, content))@
}

/// The lowercase hexadecimal digit of a value below 16.
pub open spec fn hex_digit(v: u8) -> u8 {
    if v < 10 {
        (48 + v) as u8
    } else {
        (87 + v) as u8
    }
}

/// Lowercase hexadecimal rendering: two digits per byte, high nibble first.
pub open spec fn hex_of(b: Seq<u8>) -> Seq<u8> {
    Seq::new(
        2 * b.len(),
        |i: int|
            if i % 2 == 0 {
                hex_digit(b[i / 2] / 16)
            } else {
                hex_digit(b[i / 2] % 16)
            },
    )
}

/// What storing one content produces: its address, the two path components
/// under `objects/`, and the tagged payload that is compressed into the file.
pub struct ObjectRecord {
    pub address: [u8; 32],
    pub dir_name: Vec<u8>,
    pub file_name: Vec<u8>,
    pub payload: Vec<u8>,
}

impl ObjectRecord {
    /// The record of `content` stored under `tag`.
    pub open spec fn describes(&self, tag: Seq<u8>, content: Seq<u8>) -> bool {
        &&& self.payload@ == tagged_payload(tag, content)
        &&& self.address == sha256_of(self.payload@)
        &&& self.dir_name@ == hex_of(self.address@).subrange(0, 2)
        &&& self.file_name@ == hex_of(self.address@).subrange(2, 64)
    }
}

/// Appends the decimal digits of `n` to `out`.
fn push_decimal(out: &mut Vec<u8>, n: usize)
    ensures
        final(out)@ == old(out)@ + decimal(n as nat),
    decreases n,
{
    if n >= 10 {
        push_decimal(out, n / 10);
    }
    let d: u8 = (n % 10) as u8;
    out.push(48 + d);
    assert(final(out)@ =~= old(out)@ + decimal(n as nat));
}

/// Builds `"<tag> <length>\0"` followed by the content.
pub fn tagged_payload_bytes(tag: &[u8], content: &[u8]) -> (r: Vec<u8>)
    ensures
        r@ == tagged_payload(tag@, content@),
{
    let mut r: Vec<u8> = Vec::new();
    append_bytes(&mut r, tag);
    r.push(32);
    push_decimal(&mut r, content.len());
    r.push(0);
    append_bytes(&mut r, content);
    assert(r@ =~= tagged_payload(tag@, content@));
    r
}

fn hex_digit_of(v: u8) -> (r: u8)
    requires
        v < 16,
    ensures
        r == hex_digit(v),
{
    if v < 10 {
        48 + v
    } else {
        87 + v
    }
}

/// Renders a 32-byte address as 64 lowercase hexadecimal digits.
pub fn hex_address(address: &[u8; 32]) -> (r: Vec<u8>)
    ensures
        r@ == hex_of(address@),
        r@.len() == 64,
{
    let mut r: Vec<u8> = Vec::new();
    let mut i: usize = 0;
    while i < 32
        invariant
            0 <= i <= 32,
            address@.len() == 32,
            r@ =~= hex_of(address@.subrange(0, i as int)),
        decreases 32 - i,
    {
        let b = address[i];
        r.push(hex_digit_of(b / 16));
        r.push(hex_digit_of(b % 16));
        assert(r@ =~= hex_of(address@.subrange(0, i + 1)));
        i = i + 1;
    }
    assert(address@.subrange(0, 32) =~= address@);
    r
}

/// Computes the address of `content` stored under `tag`, the directory and
/// file names of its object file, and the tagged payload to be compressed.
pub fn store_object(tag: &[u8], content: &[u8]) -> (r: ObjectRecord)
    ensures
        r.describes(tag@, content@),
        r.address@ == content_address(tag@, content@),
{
    let payload = tagged_payload_bytes(tag, content);
    let address = sha256(payload.as_slice());
    let hex = hex_address(&address);
    let dir_name = copy_range(hex.as_slice(), 0, 2);
    let file_name = copy_range(hex.as_slice(), 2, 64);
    ObjectRecord { address, dir_name, file_name, payload }
}

proof fn lemma_decimal_digits(n: nat)
    ensures
        decimal(n).len() >= 1,
        forall|i: int| 0 <= i < decimal(n).len() ==> 48 <= #[trigger] decimal(n)[i] <= 57,
    decreases n,
{
    if n >= 10 {
        lemma_decimal_digits(n / 10);
    }
}

/// Storing the same content under the same tag twice yields the same
/// address, the same object path and the same payload.
pub proof fn lemma_store_deterministic(
    tag: Seq<u8>,
    content: Seq<u8>,
    r1: ObjectRecord,
    r2: ObjectRecord,
)
    requires
        r1.describes(tag, content),
        r2.describes(tag, content),
    ensures
        r1.address == r2.address,
        r1.address@ == content_address(tag, content),
        r1.dir_name@ == r2.dir_name@,
        r1.file_name@ == r2.file_name@,
        r1.payload@ == r2.payload@,
{
}

/// Two different contents stored under one tag have different tagged
/// payloads, so their addresses differ unless SHA-256 itself collides.
pub proof fn lemma_distinct_contents_distinct_payloads(tag: Seq<u8>, c1: Seq<u8>, c2: Seq<u8>)
    requires
        c1 != c2,
    ensures
        tagged_payload(tag, c1) != tagged_payload(tag, c2),
{
    let pay_a = tagged_payload(tag, c1);
    let pay_b = tagged_payload(tag, c2);
    let d1 = decimal(c1.len());
    let d2 = decimal(c2.len());
    let l: int = tag.len() as int + 1;
    lemma_decimal_digits(c1.len());
    lemma_decimal_digits(c2.len());
    if pay_a == pay_b {
        if d1.len() == d2.len() {
            assert(c1 =~= pay_a.subrange(l + d1.len() + 1, pay_a.len() as int));
            assert(c2 =~= pay_b.subrange(l + d2.len() + 1, pay_b.len() as int));
        } else if d1.len() < d2.len() {
            assert(pay_a[l + d1.len() as int] == 0);
            assert(pay_b[l + d1.len() as int] == d2[d1.len() as int]);
        } else {
            assert(pay_b[l + d2.len() as int] == 0);
            assert(pay_a[l + d2.len() as int] == d1[d2.len() as int]);
        }
    }
}

/// Compresses the tagged payload of a record into the bytes of its object file.
pub fn compress_object(record: &ObjectRecord) -> (r: Result<Vec<u8>, StoreError>)
    ensures
        match r {
            Ok(v) => v@ == zstd_frame_of(record.payload@),
            Err(e) => e == StoreError::Compression,
        },
{
    match zstd_compress(record.payload.as_slice()) {
        Some(v) => Ok(v),
        None => Err(StoreError::Compression),
    }
}

} // verus!

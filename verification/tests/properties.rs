use sha1_stream::u8_slice_to_bool;
use sha1_stream::SHA1;

fn digest_of_bits(bits: &[bool]) -> String {
    let mut sha = SHA1::new();
    sha.add(bits);
    sha.finalize().to_hex()
}

#[test]
fn empty_message() {
    let mut sha = SHA1::new();
    let d = sha.finalize();
    assert_eq!(d.to_hex(), "da39a3ee5e6b4b0d3255bfef95601890afd80709");
}

#[test]
fn empty_add_is_a_no_op() {
    let mut sha = SHA1::new();
    sha.add(&[]);
    sha.add(&*u8_slice_to_bool(b"sha"));
    sha.add(&[]);
    let d = sha.finalize();
    assert_eq!(d.to_hex(), "d8f4590320e1343a915b6394170650a8f35d6926");
}

#[test]
fn determinism() {
    let msg = u8_slice_to_bool(b"determinism check, run twice on fresh engines");
    let mut first = SHA1::new();
    first.add(&msg);
    let mut second = SHA1::new();
    second.add(&msg);
    assert_eq!(first.finalize().to_hex(), second.finalize().to_hex());
}

#[test]
fn chunking_invariance() {
    // 150 bytes: spans two full 512-bit blocks with a remainder.
    let mut bytes = Vec::new();
    for i in 0..150u32 {
        bytes.push((i * 7 + 3) as u8);
    }
    let msg = u8_slice_to_bool(&bytes);
    let whole = digest_of_bits(&msg);

    // Split at a bit position inside a byte.
    let mut sha = SHA1::new();
    sha.add(&msg[..3]);
    sha.add(&msg[3..]);
    assert_eq!(sha.finalize().to_hex(), whole);

    // Split exactly at the block boundary and just past it.
    let mut sha = SHA1::new();
    sha.add(&msg[..512]);
    sha.add(&msg[512..513]);
    sha.add(&msg[513..]);
    assert_eq!(sha.finalize().to_hex(), whole);

    // One bit at a time.
    let mut sha = SHA1::new();
    for i in 0..msg.len() {
        sha.add(&msg[i..i + 1]);
    }
    assert_eq!(sha.finalize().to_hex(), whole);
}

#[test]
fn reset_after_finalize() {
    let mut sha = SHA1::new();
    sha.add(&*u8_slice_to_bool(b"something to forget"));
    sha.finalize();
    let first = sha.finalize();
    let second = sha.finalize();
    assert_eq!(first.to_hex(), "da39a3ee5e6b4b0d3255bfef95601890afd80709");
    assert_eq!(second.to_hex(), "da39a3ee5e6b4b0d3255bfef95601890afd80709");
}

#[test]
fn clear_discards_pending_input() {
    let mut sha = SHA1::new();
    sha.add(&*u8_slice_to_bool(b"to be discarded"));
    sha.clear();
    let d = sha.finalize();
    assert_eq!(d.to_hex(), "da39a3ee5e6b4b0d3255bfef95601890afd80709");
}

#[test]
fn length_boundary_448_bits() {
    let msg = u8_slice_to_bool(&[b'a'; 56]);
    assert_eq!(msg.len(), 448);
    assert_eq!(
        digest_of_bits(&msg),
        "c2db330f6083854c99d4b5bfb6e8f29f201be699"
    );
}

#[test]
fn length_boundary_512_bits() {
    let msg = u8_slice_to_bool(&[b'a'; 64]);
    assert_eq!(msg.len(), 512);
    assert_eq!(
        digest_of_bits(&msg),
        "0098ba824b5c16427bd7a1122a5a442a25ec644d"
    );
}

#[test]
fn length_boundary_511_bits() {
    let msg = u8_slice_to_bool(&[b'a'; 64]);
    assert_eq!(
        digest_of_bits(&msg[..511]),
        "07909d772e0321200f56e5fcc67bffbacb09e060"
    );
}

#[test]
fn length_boundary_447_bits() {
    let msg = u8_slice_to_bool(&[b'a'; 56]);
    assert_eq!(
        digest_of_bits(&msg[..447]),
        "b9bc2df7dd523914ab18b2209dcb02515aaeab5f"
    );
}

#[test]
fn digest_words_are_big_endian() {
    let mut sha = SHA1::new();
    let d = sha.finalize();
    assert_eq!(
        d.words().as_slice(),
        &[0xda39a3ee, 0x5e6b4b0d, 0x3255bfef, 0x95601890, 0xafd80709]
    );
}

#[test]
fn byte_expansion_is_msb_first() {
    // 0xa5 is 1010_0101.
    let bits = u8_slice_to_bool(&[0xa5]);
    assert_eq!(
        bits,
        vec![true, false, true, false, false, true, false, true]
    );
}

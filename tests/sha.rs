use hash_engines::sha1::Sha1;
use hash_engines::sha3::{Sha3State, Sha3_256};

fn hex(b: &[u8]) -> String {
    b.iter().map(|x| format!("{:02x}", x)).collect()
}

fn sha1(msg: &[u8]) -> String {
    let mut h = Sha1::new();
    h.process(msg);
    hex(&h.fixed_result())
}

fn sha3(msg: &[u8]) -> String {
    let mut h = Sha3_256::new();
    h.process(msg);
    hex(&h.fixed_result())
}

#[test]
fn sha1_vectors() {
    assert_eq!(sha1(b""), "da39a3ee5e6b4b0d3255bfef95601890afd80709");
    assert_eq!(sha1(b"abc"), "a9993e364706816aba3e25717850c26c9cd0d89d");
    assert_eq!(sha1(b"hello world"), "2aae6c35c94fcfb415dbe95f408b9ce91ee846ed");
    assert_eq!(
        sha1(b"abcdbcdecdefdefgefghfghighijhijkijkljklmklmnlmnomnopnopq"),
        "84983e441c3bd26ebaae4aa1f95129e5e54670f1"
    );
}

#[test]
fn sha1_default_and_chunks() {
    let msg = b"abcdbcdecdefdefgefghfghighijhijkijkljklmklmnlmnomnopnopq";
    let mut h = Sha1::default();
    h.process(&msg[..10]);
    h.process(&msg[10..]);
    assert_eq!(hex(&h.fixed_result()), "84983e441c3bd26ebaae4aa1f95129e5e54670f1");
}

#[test]
fn sha1_block_multiple_lengths() {
    let msg = [b'a'; 64];
    let whole = sha1(&msg);
    let mut h = Sha1::new();
    for b in msg.iter() {
        h.process(&[*b]);
    }
    assert_eq!(hex(&h.fixed_result()), whole);
    assert_eq!(sha1(&msg), "0098ba824b5c16427bd7a1122a5a442a25ec644d");
}

#[test]
fn sha1_padding_layout() {
    let p = hash_engines::sha1::length_padding(3);
    assert_eq!(p.len(), 61);
    assert_eq!(p[0], 0x80);
    assert_eq!(&p[53..], &[0, 0, 0, 0, 0, 0, 0, 24]);
    let p = hash_engines::sha1::length_padding(56);
    assert_eq!(p.len(), 72);
}

#[test]
fn sha3_256_vectors() {
    assert_eq!(sha3(b""), "a7ffc6f8bf1ed76651c14756a061d662f580ff4de43b49fa82d80a4b80f8434a");
    assert_eq!(sha3(b"abc"), "3a985da74fe225b2045c172d6bd390bd855f086e3e9d525b46bfe24511431532");
}

#[test]
fn sha3_256_chunking_and_rate_boundary() {
    let msg: Vec<u8> = (0u32..300).map(|i| (i * 13) as u8).collect();
    for len in [135usize, 136, 137, 272, 300] {
        let whole = sha3(&msg[..len]);
        let mut h = Sha3_256::new();
        for c in msg[..len].chunks(17) {
            h.process(c);
        }
        assert_eq!(hex(&h.fixed_result()), whole);
    }
}

#[test]
fn sha3_lane_byte_order() {
    let mut s = Sha3State::new();
    s.absorb_block(&[0u8; 136]);
    let bytes = s.as_bytes();
    assert_eq!(&bytes[..8], &[0xe7, 0xdd, 0xe1, 0x40, 0x79, 0x8f, 0x25, 0xf1]);
    assert_eq!(s.state[0], 0xF1258F7940E1DDE7);

    let mut block = [0u8; 8];
    block[0] = 1;
    let mut a = Sha3State::new();
    a.absorb_block(&block);
    let mut b = Sha3State::new();
    b.state[0] = 1;
    b.apply_f();
    assert_eq!(a.as_bytes(), b.as_bytes());
}

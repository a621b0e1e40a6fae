use hash_engines::gost94::{a, p, psi, x, Gost94, Gost94State, SBox};

const S_TEST: SBox = [
    [4, 10, 9, 2, 13, 8, 0, 14, 6, 11, 1, 12, 7, 15, 5, 3],
    [14, 11, 4, 12, 6, 13, 15, 10, 2, 3, 8, 1, 0, 7, 5, 9],
    [5, 8, 1, 13, 10, 3, 4, 2, 14, 15, 12, 7, 6, 0, 9, 11],
    [7, 13, 10, 1, 0, 8, 9, 15, 14, 4, 6, 12, 11, 2, 5, 3],
    [6, 12, 7, 1, 5, 15, 13, 8, 4, 10, 9, 14, 0, 3, 11, 2],
    [4, 11, 10, 0, 7, 2, 1, 13, 3, 6, 8, 5, 9, 12, 15, 14],
    [13, 11, 4, 1, 3, 15, 5, 9, 0, 10, 14, 7, 6, 8, 2, 12],
    [1, 15, 13, 0, 5, 7, 10, 4, 9, 2, 3, 14, 6, 11, 8, 12],
];

const S_CRYPTO_PRO: SBox = [
    [10, 4, 5, 6, 8, 1, 3, 7, 13, 12, 14, 0, 9, 2, 11, 15],
    [5, 15, 4, 0, 2, 13, 11, 9, 1, 7, 6, 3, 12, 14, 10, 8],
    [7, 15, 12, 14, 9, 4, 1, 0, 3, 11, 5, 2, 6, 10, 8, 13],
    [4, 10, 7, 12, 0, 15, 2, 8, 14, 1, 6, 5, 13, 11, 9, 3],
    [7, 6, 4, 11, 9, 12, 2, 10, 1, 8, 0, 14, 15, 13, 3, 5],
    [7, 6, 2, 4, 13, 9, 15, 0, 10, 1, 5, 11, 8, 14, 12, 3],
    [13, 14, 4, 1, 7, 0, 5, 10, 3, 12, 8, 15, 6, 2, 9, 11],
    [1, 3, 10, 9, 5, 11, 4, 15, 8, 6, 7, 14, 13, 0, 2, 12],
];

fn hex(b: &[u8]) -> String {
    b.iter().map(|x| format!("{:02x}", x)).collect()
}

fn digest(s: SBox, msg: &[u8]) -> String {
    let mut h = Gost94::new(s, [0u8; 32]);
    h.process(msg);
    hex(&h.fixed_result())
}

#[test]
fn gost94_test_paramset_vectors() {
    assert_eq!(
        digest(S_TEST, b""),
        "ce85b99cc46752fffee35cab9a7b0278abb4c2d2055cff685af4912c49490f8d"
    );
    assert_eq!(
        digest(S_TEST, b"abc"),
        "f3134348c44fb1b2a277729e2285ebb5cb5e0f29c975bc753b70497c06a4d51d"
    );
    assert_eq!(
        digest(S_TEST, b"Suppose the original message has length = 50 bytes"),
        "471aba57a60a770d3a76130635c1fbea4ef14de51f78b4ae57dd893b62f55208"
    );
}

#[test]
fn gost94_cryptopro_vectors() {
    assert_eq!(
        digest(S_CRYPTO_PRO, b""),
        "981e5f3ca30c841487830f84fb433e13ac1101569b9c13584ac483234cd656c0"
    );
    assert_eq!(
        digest(S_CRYPTO_PRO, b"a"),
        "e74c52dd282183bf37af0079c9f78055715a103f17e3133ceff1aacf2f403011"
    );
    assert_eq!(
        digest(S_CRYPTO_PRO, b"abc"),
        "b285056dbf18d7392d7677369524dd14747459ed8143997e163b2986f92fd42c"
    );
    assert_eq!(
        digest(S_CRYPTO_PRO, b"message digest"),
        "bc6041dd2aa401ebfa6e9886734174febdb4729aa972d60f549ac39b29721ba0"
    );
}

#[test]
fn gost94_exact_block_message() {
    assert_eq!(
        digest(S_TEST, b"This is message, length=32 bytes"),
        "b1c466d37519b82e8319819ff32595e047a28cb6f83eff1c6916a815a637fffa"
    );
    assert_eq!(
        digest(S_CRYPTO_PRO, b"This is message, length=32 bytes"),
        "2cefc2f7b7bdc514e18ea57fa74ff357e7fa17d652c75f69cb1be7893ede48eb"
    );
}

#[test]
fn gost94_chunking_invariance() {
    let msg: Vec<u8> = (0u32..200).map(|i| (i * 7 + 3) as u8).collect();
    let whole = digest(S_CRYPTO_PRO, &msg);
    for split in [0usize, 1, 31, 32, 33, 64, 100, 199, 200] {
        let mut h = Gost94::new(S_CRYPTO_PRO, [0u8; 32]);
        h.process(&msg[..split]);
        h.process(&msg[split..]);
        assert_eq!(hex(&h.fixed_result()), whole);
    }
    let mut h = Gost94::new(S_CRYPTO_PRO, [0u8; 32]);
    for b in msg.iter() {
        h.process(&[*b]);
    }
    assert_eq!(hex(&h.fixed_result()), whole);
}

#[test]
fn gost94_reuse_after_finalize() {
    let mut h = Gost94::new(S_TEST, [0u8; 32]);
    h.process(b"some earlier message that is longer than one block");
    let _ = h.fixed_result();
    h.process(b"abc");
    assert_eq!(hex(&h.fixed_result()), digest(S_TEST, b"abc"));
}

#[test]
fn gost94_accumulators() {
    let mut h = Gost94::new(S_TEST, [0u8; 32]);
    h.process(&[0xffu8; 96]);
    assert_eq!(h.length_counter(), [768, 0, 0, 0]);
    assert_eq!(h.checksum(), [u64::MAX - 2, u64::MAX, u64::MAX, u64::MAX]);

    let mut block = [0u8; 32];
    for b in block[..8].iter_mut() {
        *b = 0xff;
    }
    let mut h = Gost94::new(S_TEST, [0u8; 32]);
    h.process(&block);
    h.process(&block);
    h.process(&[1u8; 5]);
    assert_eq!(h.length_counter(), [8 * 69, 0, 0, 0]);
    assert_eq!(h.checksum(), [u64::MAX - 1, 1, 0, 0]);
}

#[test]
fn gost94_iv_is_a_parameter() {
    let mut h = Gost94::new(S_TEST, [1u8; 32]);
    h.process(b"abc");
    assert_ne!(hex(&h.fixed_result()), digest(S_TEST, b"abc"));
}

#[test]
fn gost94_counter_carries() {
    let mut st = Gost94State { s: S_TEST, h: [0u8; 32], n: [u64::MAX - 7, 0, 0, 0], sigma: [0; 4] };
    st.update_n(1);
    assert_eq!(st.n, [0, 1, 0, 0]);
    let mut st = Gost94State { s: S_TEST, h: [0u8; 32], n: [0; 4], sigma: [0; 4] };
    st.update_n(1usize << 61);
    assert_eq!(st.n, [0, 1, 0, 0]);

    let mut st = Gost94State { s: S_TEST, h: [0u8; 32], n: [0; 4], sigma: [u64::MAX, u64::MAX, u64::MAX, 0] };
    let mut block = [0u8; 32];
    block[0] = 1;
    st.update_sigma(&block);
    assert_eq!(st.sigma, [0, 0, 0, 1]);
    let mut st = Gost94State { s: S_TEST, h: [0u8; 32], n: [0; 4], sigma: [u64::MAX; 4] };
    st.update_sigma(&block);
    assert_eq!(st.sigma, [0, 0, 0, 0]);
}

#[test]
fn gost94_transforms() {
    let mut v = [0u8; 32];
    for (i, b) in v.iter_mut().enumerate() {
        *b = i as u8;
    }
    let t = p(v);
    assert_eq!(&t[..8], &[0, 8, 16, 24, 1, 9, 17, 25]);
    let u = a(v);
    assert_eq!(&u[..24], &v[8..]);
    assert_eq!(u[24], 0 ^ 8);
    assert_eq!(u[31], 7 ^ 15);
    let mut w = v;
    psi(&mut w);
    assert_eq!(&w[..30], &v[2..]);
    assert_eq!(w[30], 0 ^ 2 ^ 4 ^ 6 ^ 24 ^ 30);
    assert_eq!(w[31], 1 ^ 3 ^ 5 ^ 7 ^ 25 ^ 31);
    assert_eq!(x(&v, &v), [0u8; 32]);
}

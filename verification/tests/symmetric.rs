use pqc_dilithium::symmetric::{
    _crh, hash, stream128_absorb, stream128_init, stream128_squeezeblocks, stream256_absorb,
    stream256_init, stream256_squeezeblocks, State,
};

fn hex(bytes: &[u8]) -> String {
    let mut s = String::new();
    for b in bytes {
        s.push_str(&format!("{:02x}", b));
    }
    s
}

#[test]
fn hash_known_answers() {
    assert_eq!(
        hex(&hash(b"")),
        "c5d2460186f7233c927e7db2dcc703c0e500b653ca82273b7bfad8045d85a470"
    );
    assert_eq!(
        hex(&hash(b"Hello")),
        "06b3dfaec148fb1bb2b066f10ec285e7c9bf402ab32aa78a5d38e34566810cd2"
    );
}

#[test]
fn crh_known_answers() {
    let mut out = [7u8; 70];
    _crh(&mut out, b"", 0);
    assert_eq!(
        hex(&out[..64]),
        "46b9dd2b0ba88d13233b3feb743eeb243fcd52ea62b81b82b50c27646ed5762f\
         d75dc4ddd8c0f200cb05019d67b592f6fc821c49479ab48640292eacb3b7c4be"
    );
    assert_eq!(&out[64..], &[7u8; 6]);
    let mut out = [0u8; 64];
    _crh(&mut out, b"abcdef", 3);
    assert_eq!(
        hex(&out),
        "483366601360a8771c6863080cc4114d8db44530f8f1e1ee4f94ea37e78b5739\
         d5a15bef186a5386c75744c0527e1faa9f8726e462a12a4feb06bd8801e751e4"
    );
}

#[test]
fn stream_init_and_squeeze() {
    let mut state = State::default();
    assert_eq!(state.s, [0u8; 32]);
    stream256_init(&mut state, b"abc", 0x0102);
    assert_eq!(
        hex(&state.s),
        "81b285364f5e9871ffc2b70a3e75f23b321137677c98e3bd8773d84d5a3a61b1"
    );
    let mut other = State::default();
    stream128_init(&mut other, b"abc", 0x0102);
    assert_eq!(other.s, state.s);
    let mut out = [9u8; 140];
    stream256_squeezeblocks(&mut out, 1, &mut state);
    assert_eq!(
        hex(&out[..40]),
        "81b285364f5e9871ffc2b70a3e75f23b321137677c98e3bd8773d84d5a3a61b1420cea472940eabd"
    );
    assert_eq!(&out[136..], &[9u8; 4]);
    let mut long = [0u8; 168];
    stream128_squeezeblocks(&mut long, 1, &mut other);
    assert_eq!(&long[..136], &out[..136]);
}

#[test]
fn squeeze_advances_the_state_once_per_block_of_32() {
    let mut state = State::default();
    stream256_init(&mut state, b"abc", 0x0102);
    let start = state.s;
    let mut none = [0u8; 8];
    stream256_squeezeblocks(&mut none, 0, &mut state);
    assert_eq!(state.s, start);
    assert_eq!(none, [0u8; 8]);
    // 136 bytes are four whole states and a part of the fifth.
    let mut out = [0u8; 136];
    stream256_squeezeblocks(&mut out, 1, &mut state);
    let mut expected = start;
    for block in 0..5 {
        let upto = if block < 4 { 32 } else { 8 };
        assert_eq!(&out[32 * block..32 * block + upto], &expected[..upto]);
        expected = hash(&expected);
    }
    assert_eq!(state.s, expected);
}

#[test]
fn absorb_hashes_state_and_input() {
    let mut state = State::default();
    stream128_init(&mut state, b"abc", 0x0102);
    let mut twin = state;
    stream128_absorb(&mut state, b"xyz");
    assert_eq!(
        hex(&state.s),
        "79551b39b8c76f75767007111725c7842fbb12fb7858bb8af613ed2dac4fede5"
    );
    stream256_absorb(&mut twin, b"xyz");
    assert_eq!(twin.s, state.s);
}

use rldeck::hash::{hex, of_bytes, short, Digesting};

#[test]
fn every_byte_becomes_two_lowercase_digits() {
    assert_eq!(hex(&[0x00, 0x0f, 0xa5, 0xff]), "000fa5ff");
    assert_eq!(hex(&[]), "");
}

#[test]
fn a_short_digest_is_a_prefix_of_the_long_one() {
    let full = of_bytes(b"/games/rocketleague");
    assert_eq!(short(b"/games/rocketleague", 6), full[..12]);
    assert_ne!(short(b"/games/rocketleague", 6), short(b"/other", 6));
}

#[test]
fn the_digest_of_nothing_is_the_known_one() {
    assert_eq!(of_bytes(b""), "e3b0c44298fc1c149afbf4c8996fb92427ae41e4649b934ca495991b7852b855");
    assert_eq!(of_bytes(b"abc"), "ba7816bf8f01cfea414140de5dae2223b00361a396177a9cb410ff61f20015ad");
}

#[test]
fn different_bytes_give_different_hex() {
    assert_ne!(hex(&[0x01]), hex(&[0x10]));
    assert_eq!(hex(&[0xab, 0xcd]).len(), 4);
}

#[test]
fn a_digest_fed_in_chunks_matches_the_digest_of_the_whole() {
    let mut digest = Digesting::new();
    digest.feed(b"ab");
    digest.feed(b"");
    digest.feed(b"c");
    assert_eq!(digest.finish(), "ba7816bf8f01cfea414140de5dae2223b00361a396177a9cb410ff61f20015ad");
    assert_eq!(Digesting::new().finish(), of_bytes(b""));
}

#[test]
fn a_file_and_its_bytes_hash_the_same() {
    let chunk = 1usize << 20;
    let payload = vec![0x5Au8; chunk * 2 + 7];
    let mut digest = Digesting::new();
    for piece in payload.chunks(chunk) {
        digest.feed(piece);
    }
    assert_eq!(digest.finish(), of_bytes(&payload));
}

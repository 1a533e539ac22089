use chk_index::chk_map::{decode_text_key, derive_key_16, derive_key_255, InvalidKeyError, DIGEST_LEN};
use sha1::{Digest, Sha1};

fn sha1_bytes(data: &[u8]) -> Vec<u8> {
    let mut h = Sha1::new();
    h.update(data);
    h.finalize().to_vec()
}

fn hex_bytes(data: &[u8]) -> Vec<u8> {
    let mut out: Vec<u8> = Vec::new();
    for b in data {
        let hi: u8 = b >> 4;
        let lo: u8 = b & 0x0f;
        out.push(if hi < 10 { b'0' + hi } else { b'a' + hi - 10 });
        out.push(if lo < 10 { b'0' + lo } else { b'a' + lo - 10 });
    }
    out
}

fn key(parts: &[&[u8]]) -> Vec<Vec<u8>> {
    parts.iter().map(|p| p.to_vec()).collect()
}

#[test]
fn determinism_16() {
    let k = key(&[b"file-1", b"rev-1"]);
    assert_eq!(derive_key_16(&k), derive_key_16(&k));
}

#[test]
fn determinism_255() {
    let k = key(&[b"file-1", b"rev-1"]);
    assert_eq!(derive_key_255(&k), derive_key_255(&k));
}

#[test]
fn hex_key_fixed_length_and_alphabet() {
    let keys: Vec<Vec<Vec<u8>>> = vec![
        key(&[]),
        key(&[b""]),
        key(&[b"", b""]),
        key(&[b"file-1", b"rev-1"]),
        key(&[b"\x00\x0a\xff"]),
    ];
    for k in &keys {
        let r = derive_key_16(k);
        assert_eq!(r.len(), 2 * DIGEST_LEN);
        assert_eq!(r.len(), 40);
        for c in &r {
            assert!(c.is_ascii_hexdigit() && !c.is_ascii_uppercase());
        }
    }
}

#[test]
fn escaped_key_has_no_nul_and_no_lf() {
    let mut escaped_any: bool = false;
    for i in 0..200u32 {
        let k = key(&[format!("file-{i}").as_bytes(), b"rev-1"]);
        let r = derive_key_255(&k);
        assert!(r.len() >= DIGEST_LEN);
        for b in &r {
            assert_ne!(*b, 0u8);
            assert_ne!(*b, b'\n');
        }
        if r.len() > DIGEST_LEN {
            escaped_any = true;
        }
    }
    assert!(escaped_any);
}

#[test]
fn escaped_key_matches_escaped_digest() {
    for i in 0..50u32 {
        let k = key(&[format!("file-{i}").as_bytes(), b"rev-1"]);
        let digest = sha1_bytes(&[b"file-".to_vec(), i.to_string().into_bytes(),
            b"\x00rev-1".to_vec()].concat());
        let mut expected: Vec<u8> = Vec::new();
        for b in &digest {
            if *b == 0u8 {
                expected.push(b'\\');
                expected.push(b'0');
            } else if *b == b'\n' {
                expected.push(b'\\');
                expected.push(b'n');
            } else {
                expected.push(*b);
            }
        }
        assert_eq!(derive_key_255(&k), expected);
    }
}

#[test]
fn decode_round_trip() {
    let r = decode_text_key(&b"a\x00b".to_vec()).unwrap();
    assert_eq!(r.0, b"a".to_vec());
    assert_eq!(r.1, b"b".to_vec());

    let r = decode_text_key(&b"\x00".to_vec()).unwrap();
    assert_eq!(r.0, b"".to_vec());
    assert_eq!(r.1, b"".to_vec());

    let r = decode_text_key(&b"file-1\x00rev-1".to_vec()).unwrap();
    assert_eq!(r.0, b"file-1".to_vec());
    assert_eq!(r.1, b"rev-1".to_vec());
}

#[test]
fn decode_without_nul_fails() {
    assert_eq!(decode_text_key(&b"".to_vec()), Err(InvalidKeyError));
    assert_eq!(decode_text_key(&b"file-1".to_vec()), Err(InvalidKeyError));
}

#[test]
fn decode_with_two_nuls_fails() {
    assert_eq!(decode_text_key(&b"a\x00b\x00c".to_vec()), Err(InvalidKeyError));
    assert_eq!(decode_text_key(&b"\x00\x00".to_vec()), Err(InvalidKeyError));
}

#[test]
fn end_to_end_matches_sha1_of_joined_key() {
    let k = key(&[b"file-1", b"rev-1"]);
    let expected = hex_bytes(&sha1_bytes(b"file-1\x00rev-1"));
    assert_eq!(derive_key_16(&k), expected);

    let decoded = decode_text_key(&b"file-1\x00rev-1".to_vec()).unwrap();
    assert_eq!(decoded.0, b"file-1".to_vec());
    assert_eq!(decoded.1, b"rev-1".to_vec());
}

#[test]
fn single_and_empty_component_keys() {
    let one = derive_key_16(&key(&[b"only"]));
    assert_eq!(one, hex_bytes(&sha1_bytes(b"only")));

    let none = derive_key_16(&key(&[]));
    assert_eq!(none, hex_bytes(&sha1_bytes(b"")));

    let three = derive_key_16(&key(&[b"a", b"b", b"c"]));
    assert_eq!(three, hex_bytes(&sha1_bytes(b"a\x00b\x00c")));
}

use filecord::hash::cid_algo;
use filecord::hash::cid_blake3;
use filecord::hash::cid_for;
use filecord::hash::cid_sha256;
use filecord::hash::tagged_cid;
use filecord::hash::verify_cid;
use filecord::hash::CidAlgo;
use filecord::hash::CidError;
use filecord::hash::CID_LEN;
use filecord::hash::DIGEST_LEN;

#[test]
fn blake3_of_nothing() {
    assert_eq!(
        cid_blake3(b""),
        "blake3:af1349b9f5f9a1a6a0404dea36dcc9499bcb25c9adc112b7cc9a93cae41f3262"
    );
}

#[test]
fn sha256_of_nothing_and_of_abc() {
    assert_eq!(
        cid_sha256(b""),
        "sha256:e3b0c44298fc1c149afbf4c8996fb92427ae41e4649b934ca495991b7852b855"
    );
    assert_eq!(
        cid_sha256(b"abc"),
        "sha256:ba7816bf8f01cfea414140de5dae2223b00361a396177a9cb410ff61f20015ad"
    );
}

#[test]
fn cid_is_tag_colon_and_64_lowercase_hex_digits() {
    for cid in [cid_blake3(b"hello"), cid_sha256(b"hello")] {
        let (tag, hex) = cid.split_once(':').unwrap();
        assert!(tag == "blake3" || tag == "sha256");
        assert_eq!(hex.len(), 64);
        assert!(hex.chars().all(|c| c.is_ascii_digit() || ('a'..='f').contains(&c)));
    }
}

#[test]
fn same_bytes_same_cid() {
    let data: Vec<u8> = (0..=255u8).collect();
    assert_eq!(cid_blake3(&data), cid_blake3(&data.clone()));
    assert_eq!(cid_sha256(&data), cid_sha256(&data.clone()));
}

#[test]
fn one_differing_byte_changes_the_cid() {
    let data: Vec<u8> = (0..200u8).collect();
    let base_b = cid_blake3(&data);
    let base_s = cid_sha256(&data);
    for i in 0..data.len() {
        let mut other = data.clone();
        other[i] ^= 1;
        assert_ne!(cid_blake3(&other), base_b);
        assert_ne!(cid_sha256(&other), base_s);
    }
}

#[test]
fn the_two_algorithms_give_different_cids() {
    assert_ne!(cid_blake3(b"x"), cid_sha256(b"x"));
}

#[test]
fn cid_for_follows_the_algorithm() {
    assert_eq!(cid_for(CidAlgo::Blake3, b"data"), cid_blake3(b"data"));
    assert_eq!(cid_for(CidAlgo::Sha256, b"data"), cid_sha256(b"data"));
}

#[test]
fn tag_names_the_algorithm() {
    assert_eq!(cid_algo(&cid_blake3(b"a")), Some(CidAlgo::Blake3));
    assert_eq!(cid_algo(&cid_sha256(b"a")), Some(CidAlgo::Sha256));
    assert_eq!(cid_algo("blake3:"), Some(CidAlgo::Blake3));
    assert_eq!(cid_algo("sha256:zz"), Some(CidAlgo::Sha256));
    assert_eq!(cid_algo("blake3"), None);
    assert_eq!(cid_algo("md5:00"), None);
    assert_eq!(cid_algo(""), None);
    assert_eq!(cid_algo("BLAKE3:00"), None);
    assert_eq!(cid_algo("é"), None);
}

#[test]
fn verify_accepts_own_bytes_and_names_each_failure() {
    let data = b"some content";
    assert_eq!(verify_cid(&cid_blake3(data), data), Ok(()));
    assert_eq!(verify_cid(&cid_sha256(data), data), Ok(()));
    assert_eq!(verify_cid(&cid_blake3(data), b"other content"), Err(CidError::Mismatch));
    assert_eq!(verify_cid(&cid_sha256(data), b""), Err(CidError::Mismatch));
    assert_eq!(verify_cid("blake3:00", data), Err(CidError::Mismatch));
    assert_eq!(verify_cid("crc32:00", data), Err(CidError::UnknownAlgorithm));
    assert_eq!(verify_cid("", data), Err(CidError::UnknownAlgorithm));
    let upper = cid_blake3(data).to_uppercase();
    assert_eq!(verify_cid(&upper, data), Err(CidError::UnknownAlgorithm));
}

#[test]
fn an_identifier_is_71_characters_long() {
    assert_eq!(CID_LEN, 71);
    assert_eq!(DIGEST_LEN, 32);
    for data in [&b""[..], &b"a"[..], &[0u8; 1000][..]] {
        for cid in [cid_blake3(data), cid_sha256(data), cid_for(CidAlgo::Blake3, data), cid_for(CidAlgo::Sha256, data)] {
            assert_eq!(cid.chars().count(), 71);
            assert_eq!(cid.len(), 71);
            assert_eq!(cid.as_bytes()[6], b':');
        }
    }
}

#[test]
fn tag_and_digest_are_joined_with_a_colon() {
    assert_eq!(tagged_cid(CidAlgo::Blake3, &[0xde, 0xad, 0xbe, 0xef]), "blake3:deadbeef");
    assert_eq!(tagged_cid(CidAlgo::Sha256, &[0x00, 0x0f, 0xf0, 0xff, 0x1a]), "sha256:000ff0ff1a");
    assert_eq!(tagged_cid(CidAlgo::Blake3, &[]), "blake3:");
    assert_eq!(tagged_cid(CidAlgo::Sha256, &[]), "sha256:");
    let all: Vec<u8> = (0..=255u8).collect();
    let cid = tagged_cid(CidAlgo::Blake3, &all);
    assert_eq!(cid.len(), 7 + 512);
    let expected: String = all.iter().map(|b| format!("{:02x}", b)).collect();
    assert_eq!(&cid[7..], expected);
}

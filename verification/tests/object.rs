use fvcs::object::{compress, decompress, hash_bytes, hex_encode, object_matches, object_path, object_path_in, ObjectError};
use fvcs::repo::Repository;

#[test]
fn hashes_are_sha256_hex() {
    assert_eq!(hash_bytes(b""), "e3b0c44298fc1c149afbf4c8996fb92427ae41e4649b934ca495991b7852b855");
    assert_eq!(hash_bytes(b"abc"), "ba7816bf8f01cfea414140de5dae2223b00361a396177a9cb410ff61f20015ad");
    assert_eq!(hex_encode(&[0, 15, 255]), "000fff");
}

#[test]
fn compression_roundtrip() {
    let data = b"hello figura".to_vec();
    let c = compress(&data).unwrap();
    assert_ne!(c, data);
    assert_eq!(decompress(&c).unwrap(), data);
    assert_eq!(decompress(b"not zlib"), Err(ObjectError::Decompress));
}

#[test]
fn objects_checked_against_their_name() {
    let data = b"local x = 1\n";
    let c = compress(data).unwrap();
    assert!(object_matches(&c, &hash_bytes(data)));
    assert!(!object_matches(&c, &hash_bytes(b"other")));
    assert!(!object_matches(b"junk", &hash_bytes(data)));
}

#[test]
fn object_paths() {
    let repo = Repository { root: "/r".to_string() };
    assert_eq!(object_path(&repo, "abcdef"), "/r/.fvcs/objects/ab/cdef");
    assert_eq!(object_path_in("/pool", "0123"), "/pool/01/23");
}

use std::io::Read;
use sha1::Digest;

use idiot::builder::compress_and_hash;
use idiot::builder::BuildError;
use idiot::ignore::IgnoreList;
use idiot::parse::usize_from_bytes;
use idiot::parse::ObjectError;
use idiot::parse::ParseError;
use idiot::path_in_ignore;
use idiot::GitObject;
use idiot::Mode;
use idiot::ObjType;

fn hex_of(bytes: &[u8]) -> String {
    hex::encode(bytes)
}

fn blob_hello() -> GitObject {
    GitObject::build_blob("a.txt".to_string(), b"hello".to_vec())
}

fn default_ignore() -> IgnoreList {
    IgnoreList::new()
}

#[test]
fn blob_payload_is_hashed_canonically() {
    let blob = blob_hello();
    assert!(matches!(blob.mode, Mode::FileBlob));
    let sha = blob.sha.as_ref().unwrap();
    assert_eq!(sha.len(), 20);
    // The canonical payload is "blob 5\0hello"; its digest is fixed.
    assert_eq!(hex_of(sha), "b6fc4c620b67d95f953a5c1c1230aaab5db5a1b0");
    // Against the hashing crate directly, over the canonical bytes.
    let expect = sha1::Sha1::digest(b"blob 5\0hello");
    assert_eq!(sha.as_slice(), expect.as_slice());
}

#[test]
fn blob_content_is_the_compressed_canonical_bytes() {
    let blob = blob_hello();
    let content = match &blob.obj_type {
        ObjType::Blob { content, .. } => content.clone(),
        _ => panic!("expected a blob"),
    };
    let mut decoded = Vec::new();
    flate2::bufread::ZlibDecoder::new(content.as_slice())
        .read_to_end(&mut decoded)
        .unwrap();
    assert_eq!(decoded, b"blob 5\0hello");
}

#[test]
fn tree_over_one_blob_has_exact_size_and_hash() {
    let blob = blob_hello();
    let blob_sha = blob.sha.clone().unwrap();
    let dir = b".".to_vec();
    let tree = GitObject::build_tree(&dir, Some("root".to_string()), vec![blob], &default_ignore())
        .unwrap();
    let (size, objs) = match &tree.obj_type {
        ObjType::Tree { size, objs, .. } => (*size, objs),
        _ => panic!("expected a tree"),
    };
    // N = len("100644 a.txt\0") + 20
    assert_eq!(size, 33);
    assert_eq!(objs.len(), 1);
    let mut entry = b"100644 a.txt\0".to_vec();
    entry.extend_from_slice(&blob_sha);
    let mut canonical = b"tree 33\0".to_vec();
    canonical.extend_from_slice(&entry);
    let expect = sha1::Sha1::digest(&canonical);
    assert_eq!(tree.sha.as_ref().unwrap().as_slice(), expect.as_slice());
    assert_eq!(
        hex_of(tree.sha.as_ref().unwrap()),
        "65829399355e5929e44741d637d52c614ac21bc3"
    );
}

#[test]
fn entry_encoding_is_mode_path_nul_hash() {
    let blob = blob_hello();
    let blob_sha = blob.sha.clone().unwrap();
    let bytes = blob.tree_content_bytes();
    let mut expect = b"100644 a.txt\0".to_vec();
    expect.extend_from_slice(&blob_sha);
    assert_eq!(bytes, expect);
}

#[test]
fn round_trip_through_compression_and_parse() {
    let blob = blob_hello();
    let blob_sha = blob.sha.clone().unwrap();
    let dir = b".".to_vec();
    let tree = GitObject::build_tree(&dir, Some("root".to_string()), vec![blob], &default_ignore())
        .unwrap();
    let tree_size = match &tree.obj_type {
        ObjType::Tree { size, .. } => *size,
        _ => panic!("expected a tree"),
    };
    // Rebuild the canonical bytes and compress them as the store would.
    let mut canonical = format!("tree {}\0", tree_size).into_bytes();
    match &tree.obj_type {
        ObjType::Tree { objs, .. } => {
            for o in objs.iter() {
                canonical.extend_from_slice(&o.tree_content_bytes());
            }
        },
        _ => panic!("expected a tree"),
    }
    let (_, compressed) = compress_and_hash(&canonical);
    let parsed = GitObject::parse_stored(&compressed).unwrap();
    assert!(matches!(parsed.mode, Mode::SubDir));
    assert!(parsed.sha.is_none());
    match &parsed.obj_type {
        ObjType::Tree { path, size, objs } => {
            assert!(path.is_none());
            assert_eq!(*size, 33);
            assert_eq!(objs.len(), 1);
            assert!(matches!(objs[0].mode, Mode::FileBlob));
            assert_eq!(objs[0].as_path_str(), "a.txt");
            assert_eq!(objs[0].sha.as_ref().unwrap(), &blob_sha);
        },
        _ => panic!("expected a tree"),
    }
}

#[test]
fn building_twice_in_any_order_gives_the_same_hash() {
    let dir = b".".to_vec();
    let ignore = default_ignore();
    let a1 = GitObject::build_blob("a.txt".to_string(), b"one".to_vec());
    let b1 = GitObject::build_blob("b.txt".to_string(), b"two".to_vec());
    let a2 = GitObject::build_blob("a.txt".to_string(), b"one".to_vec());
    let b2 = GitObject::build_blob("b.txt".to_string(), b"two".to_vec());
    let t1 = GitObject::build_tree(&dir, Some("d".to_string()), vec![a1, b1], &ignore).unwrap();
    let t2 = GitObject::build_tree(&dir, Some("d".to_string()), vec![b2, a2], &ignore).unwrap();
    assert_eq!(t1.sha.as_ref().unwrap(), t2.sha.as_ref().unwrap());
    let paths1: Vec<String> = match &t1.obj_type {
        ObjType::Tree { objs, .. } => objs.iter().map(|o| o.as_path_str().to_string()).collect(),
        _ => panic!("expected a tree"),
    };
    let paths2: Vec<String> = match &t2.obj_type {
        ObjType::Tree { objs, .. } => objs.iter().map(|o| o.as_path_str().to_string()).collect(),
        _ => panic!("expected a tree"),
    };
    assert_eq!(paths1, paths2);
}

#[test]
fn changing_one_byte_changes_the_root_hash() {
    let dir = b".".to_vec();
    let ignore = default_ignore();
    let a1 = GitObject::build_blob("a.txt".to_string(), b"hello".to_vec());
    let a2 = GitObject::build_blob("a.txt".to_string(), b"hellp".to_vec());
    let t1 = GitObject::build_tree(&dir, Some("d".to_string()), vec![a1], &ignore).unwrap();
    let t2 = GitObject::build_tree(&dir, Some("d".to_string()), vec![a2], &ignore).unwrap();
    assert_ne!(t1.sha.as_ref().unwrap(), t2.sha.as_ref().unwrap());
}

#[test]
fn children_sort_by_path() {
    let dir = b".".to_vec();
    let ignore = default_ignore();
    let b = GitObject::build_blob("b.txt".to_string(), b"b".to_vec());
    let a = GitObject::build_blob("a.txt".to_string(), b"a".to_vec());
    let inner = GitObject::build_tree(&dir, Some("c".to_string()), vec![], &ignore).unwrap();
    let tree = GitObject::build_tree(&dir, Some("d".to_string()), vec![b, a, inner], &ignore)
        .unwrap();
    let paths: Vec<String> = match &tree.obj_type {
        ObjType::Tree { objs, .. } => objs.iter().map(|o| o.as_path_str().to_string()).collect(),
        _ => panic!("expected a tree"),
    };
    assert_eq!(paths, vec!["a.txt".to_string(), "b.txt".to_string(), "c".to_string()]);
}

#[test]
fn tree_precedes_blob_on_equal_paths() {
    let dir = b".".to_vec();
    let ignore = default_ignore();
    for blob_first in [true, false] {
        let blob = GitObject::build_blob("x".to_string(), b"f".to_vec());
        let sub = GitObject::build_tree(&dir, Some("x".to_string()), vec![], &ignore).unwrap();
        let children = if blob_first { vec![blob, sub] } else { vec![sub, blob] };
        let tree =
            GitObject::build_tree(&dir, Some("d".to_string()), children, &ignore).unwrap();
        match &tree.obj_type {
            ObjType::Tree { objs, .. } => {
                assert_eq!(objs.len(), 2);
                assert!(matches!(objs[0].obj_type, ObjType::Tree { .. }));
                assert!(matches!(objs[1].obj_type, ObjType::Blob { .. }));
            },
            _ => panic!("expected a tree"),
        }
    }
}

#[test]
fn ignored_child_is_excluded_from_count_and_size() {
    let dir = b".".to_vec();
    let ignore = IgnoreList::from_config(b".log\n");
    let keep = GitObject::build_blob("keep.txt".to_string(), b"k".to_vec());
    let drop = GitObject::build_blob("secret.log".to_string(), b"s".to_vec());
    let tree = GitObject::build_tree(&dir, Some("d".to_string()), vec![keep, drop], &ignore)
        .unwrap();
    match &tree.obj_type {
        ObjType::Tree { objs, size, .. } => {
            assert_eq!(objs.len(), 1);
            assert_eq!(objs[0].as_path_str(), "keep.txt");
            // len("100644 keep.txt\0") + 20
            assert_eq!(*size, 16 + 20);
        },
        _ => panic!("expected a tree"),
    }
}

#[test]
fn deletion_marker_parses_to_no_hash() {
    let parsed = GitObject::from_bytes(b"100644 gone.txt\0").unwrap();
    assert!(parsed.sha.is_none());
    assert!(matches!(parsed.mode, Mode::FileBlob));
    assert_eq!(parsed.as_path_str(), "gone.txt");
}

#[test]
fn tree_bytes_parse_back_even_with_nul_in_hash() {
    let mut entry = b"40000 sub\0".to_vec();
    let hash: Vec<u8> = vec![
        0, 1, 2, 3, 4, 5, 6, 7, 8, 9, 10, 11, 12, 13, 14, 15, 16, 17, 18, 19,
    ];
    entry.extend_from_slice(&hash);
    let mut bytes = format!("tree {}\0", entry.len()).into_bytes();
    bytes.extend_from_slice(&entry);
    let parsed = GitObject::from_bytes(&bytes).unwrap();
    match &parsed.obj_type {
        ObjType::Tree { size, objs, .. } => {
            assert_eq!(*size, 30);
            assert_eq!(objs.len(), 1);
            assert!(matches!(objs[0].mode, Mode::SubDir));
            assert_eq!(objs[0].as_path_str(), "sub");
            assert_eq!(objs[0].sha.as_ref().unwrap(), &hash);
        },
        _ => panic!("expected a tree"),
    }
}

#[test]
fn malformed_objects_are_rejected() {
    assert_eq!(GitObject::from_bytes(b"tree abc\0").unwrap_err(), ParseError::NotANumber);
    assert_eq!(GitObject::from_bytes(b"999999 x\0aa").unwrap_err(), ParseError::InvalidMode);
    assert_eq!(GitObject::from_bytes(b"100644 a.txt").unwrap_err(), ParseError::NoNameOrSha);
    assert_eq!(
        GitObject::from_bytes(b"tree 33\0100644 a.txt\0short").unwrap_err(),
        ParseError::TruncatedHash
    );
    assert_eq!(GitObject::from_bytes(b"").unwrap_err(), ParseError::NotANumber);
    let mut bad_utf8 = b"tree 30\0100644 a".to_vec();
    bad_utf8.push(0xFF);
    bad_utf8.push(b'b');
    bad_utf8.push(0);
    bad_utf8.extend_from_slice(&[7u8; 20]);
    assert_eq!(GitObject::from_bytes(&bad_utf8).unwrap_err(), ParseError::InvalidUtf8);
}

#[test]
fn malformed_compressed_stream_is_rejected() {
    let garbage = b"this is not a zlib stream";
    assert_eq!(GitObject::parse_stored(garbage).unwrap_err(), ObjectError::Decompress);
}

#[test]
fn numbers_parse_exactly() {
    assert_eq!(usize_from_bytes(b"0").unwrap(), 0);
    assert_eq!(usize_from_bytes(b"12345").unwrap(), 12345);
    assert_eq!(usize_from_bytes(b"007").unwrap(), 7);
    assert_eq!(usize_from_bytes(b"").unwrap_err(), ParseError::NotANumber);
    assert_eq!(usize_from_bytes(b"12a").unwrap_err(), ParseError::NotANumber);
    assert_eq!(usize_from_bytes(b"+3").unwrap_err(), ParseError::NotANumber);
    assert_eq!(
        usize_from_bytes(b"99999999999999999999999999999").unwrap_err(),
        ParseError::NotANumber
    );
}

#[test]
fn modes_decode_exactly() {
    assert!(matches!(Mode::from_code(100644), Some(Mode::FileBlob)));
    assert!(matches!(Mode::from_code(100755), Some(Mode::ExeBlob)));
    assert!(matches!(Mode::from_code(40000), Some(Mode::SubDir)));
    assert!(matches!(Mode::from_code(160000), Some(Mode::SubMod)));
    assert!(matches!(Mode::from_code(120000), Some(Mode::SymLink)));
    assert!(Mode::from_code(100643).is_none());
    assert!(matches!(Mode::new(120000), Mode::SymLink));
}

#[test]
fn ignore_matching_is_a_suffix_test() {
    let ignore = IgnoreList::from_config(b"# comment\n\n  .log  \ntarget");
    assert!(path_in_ignore(&b"./build/output.log".to_vec(), &ignore));
    assert!(path_in_ignore(&b"./target".to_vec(), &ignore));
    assert!(path_in_ignore(&b"./x/.git/".to_vec(), &ignore));
    assert!(!path_in_ignore(&b"./src/main.rs".to_vec(), &ignore));
    assert!(!path_in_ignore(&b"./log.txt".to_vec(), &ignore));
}

#[test]
fn default_ignore_covers_the_store_directories() {
    let ignore = IgnoreList::new();
    assert!(path_in_ignore(&b"./.git/".to_vec(), &ignore));
    assert!(path_in_ignore(&b"./.idiot/".to_vec(), &ignore));
    assert!(!path_in_ignore(&b"./src".to_vec(), &ignore));
}

#[test]
fn full_string_lists_mode_kind_hash_and_path() {
    let blob = blob_hello();
    assert_eq!(
        blob.to_full_string(),
        "100644 blob b6fc4c620b67d95f953a5c1c1230aaab5db5a1b0 a.txt"
    );
    let marker = GitObject::from_bytes(b"100644 gone.txt\0").unwrap();
    assert_eq!(marker.to_full_string(), "100644 blob gone.txt");
}

#[test]
fn full_string_hex_agrees_with_the_hex_crate() {
    let blob = blob_hello();
    let sha = blob.sha.clone().unwrap();
    let line = blob.to_full_string();
    assert!(line.contains(&hex::encode(&sha)));
}

#[test]
fn compress_and_hash_is_stable_and_lossless() {
    let data = b"some canonical bytes";
    let (sha1_a, comp_a) = compress_and_hash(data);
    let (sha1_b, comp_b) = compress_and_hash(data);
    assert_eq!(sha1_a, sha1_b);
    assert_eq!(comp_a, comp_b);
    let mut decoded = Vec::new();
    flate2::bufread::ZlibDecoder::new(comp_a.as_slice())
        .read_to_end(&mut decoded)
        .unwrap();
    assert_eq!(decoded, data);
    assert_eq!(sha1_a.as_slice(), sha1::Sha1::digest(data).as_slice());
}

#[test]
fn build_tree_rejects_a_nul_in_a_surviving_name() {
    let dir = b".".to_vec();
    let ignore = default_ignore();
    let bad = GitObject::build_blob("a\0b".to_string(), b"x".to_vec());
    let err = GitObject::build_tree(&dir, Some("d".to_string()), vec![bad], &ignore).unwrap_err();
    assert_eq!(err, BuildError::NameWithNul);
}

#[test]
fn object_equality_is_hash_equality() {
    let a = GitObject::build_blob("a.txt".to_string(), b"same".to_vec());
    let b = GitObject::build_blob("b.txt".to_string(), b"same".to_vec());
    // Identity is the content hash, and a blob's hash covers its content
    // alone, so the differing names do not matter.
    assert_eq!(a, b);
    let c = GitObject::build_blob("a.txt".to_string(), b"other".to_vec());
    assert_ne!(a, c);
}

#[test]
fn hash_is_stable_across_compression_levels() {
    let canonical = b"blob 5\0hello";
    let (sha, stream_default) = compress_and_hash(canonical);
    // Re-compress the same canonical bytes at the strongest level: the
    // stream may differ, but the content hash is taken over the canonical
    // bytes themselves, so the storage key cannot move.
    let mut stream_best = Vec::new();
    flate2::bufread::ZlibEncoder::new(&canonical[..], flate2::Compression::best())
        .read_to_end(&mut stream_best)
        .unwrap();
    let mut redecoded = Vec::new();
    flate2::bufread::ZlibDecoder::new(stream_best.as_slice())
        .read_to_end(&mut redecoded)
        .unwrap();
    assert_eq!(redecoded, canonical);
    assert_eq!(sha.as_slice(), sha1::Sha1::digest(canonical).as_slice());
    let mut decoded_default = Vec::new();
    flate2::bufread::ZlibDecoder::new(stream_default.as_slice())
        .read_to_end(&mut decoded_default)
        .unwrap();
    assert_eq!(decoded_default, canonical);
}

use conserve::blockdir::BlockDir;
use conserve::codec::{
    block_relpath, compress, decompress, has_block_name_form, hash_bytes, hex_encode,
};
use conserve::errors::Error;

#[test]
fn hash_is_blake2b_256_in_hex() {
    // The digest of the empty input, as the BLAKE2 reference gives it.
    assert_eq!(
        hash_bytes(b""),
        "0e5751c026e543b2e8ab2eb06099daa1d1e5df47778f7787faab45cdf12fe3a8"
    );
    assert_eq!(hash_bytes(b"hello").len(), 64);
    assert_ne!(hash_bytes(b"hello"), hash_bytes(b"hello!"));
    assert!(has_block_name_form(&hash_bytes(b"hello")));
}

#[test]
fn hex_encoding_is_lower_case() {
    assert_eq!(hex_encode(&[]), "");
    assert_eq!(hex_encode(&[0x00, 0x0f, 0xa0, 0xff, 0x5e]), "000fa0ff5e");
}

#[test]
fn block_names_have_64_hex_digits() {
    let name = "0e5751c026e543b2e8ab2eb06099daa1d1e5df47778f7787faab45cdf12fe3a8";
    assert!(has_block_name_form(name));
    assert!(!has_block_name_form(&name[1..]));
    assert!(!has_block_name_form(&name.to_uppercase()));
    assert!(!has_block_name_form(&name.replace('a', "g")));
    assert!(!has_block_name_form(""));
}

#[test]
fn store_then_load_gives_the_same_bytes() {
    let mut dir = BlockDir::new();
    for content in [&b""[..], b"hi\n", b"0123456789012345678901234567890123456789", &[7u8; 100000]] {
        let hash = dir.store(content).unwrap();
        assert_eq!(hash, hash_bytes(content));
        assert!(dir.contains(&hash));
        assert_eq!(dir.load(&hash).unwrap(), content);
    }
    assert_eq!(dir.list().len(), 4);
}

#[test]
fn stored_blocks_are_compressed() {
    let mut dir = BlockDir::new();
    let content = [7u8; 100000];
    let hash = dir.store(&content).unwrap();
    let stored = dir.compressed_size(&hash).unwrap();
    assert!(stored > 0);
    assert!(stored < content.len() / 10);
    assert_eq!(dir.compressed_size("nothing"), None);
}

#[test]
fn storing_twice_stores_once() {
    let mut dir = BlockDir::new();
    let first = dir.store(b"the same").unwrap();
    let second = dir.store(b"the same").unwrap();
    assert_eq!(first, second);
    assert_eq!(dir.list(), vec![first]);
}

#[test]
fn load_of_a_missing_block_fails() {
    let dir = BlockDir::new();
    let hash = hash_bytes(b"not there");
    assert!(!dir.contains(&hash));
    assert_eq!(dir.load(&hash), Err(Error::BlockMissing { hash: hash.clone() }));
    assert_eq!(dir.slice(&hash, 0, 1), Err(Error::BlockMissing { hash }));
}

#[test]
fn load_of_a_damaged_block_fails() {
    let mut good = BlockDir::new();
    let hash = good.store(b"some content that is to be damaged").unwrap();

    // A file that holds no compressed data at all.
    let mut dir = BlockDir::new();
    assert!(dir.insert_file(hash.clone(), vec![0xff, 0xff, 0xff, 0xff, 0xff, 0xff, 0xff]));
    assert_eq!(dir.load(&hash), Err(Error::BlockCorrupt { hash: hash.clone() }));

    // A file that holds the compressed form of other content.
    let mut other = BlockDir::new();
    let other_hash = other.store(b"other content").unwrap();
    let mut dir = BlockDir::new();
    let mut swapped = BlockDir::new();
    swapped.store(b"other content").unwrap();
    assert!(dir.insert_file(hash.clone(), compressed_form(b"other content")));
    assert_eq!(dir.load(&hash), Err(Error::BlockCorrupt { hash: hash.clone() }));
    assert_ne!(hash, other_hash);

    // And the empty file.
    let mut dir = BlockDir::new();
    assert!(dir.insert_file(hash.clone(), vec![]));
    assert_eq!(dir.load(&hash), Err(Error::BlockCorrupt { hash: hash.clone() }));
    assert_eq!(
        dir.store(b"some content that is to be damaged"),
        Err(Error::BlockCorrupt { hash })
    );
}

fn compressed_form(content: &[u8]) -> Vec<u8> {
    snap::raw::Encoder::new().compress_vec(content).unwrap()
}

#[test]
fn slice_takes_a_part_of_a_block() {
    let mut dir = BlockDir::new();
    let hash = dir.store(b"0123456789").unwrap();
    assert_eq!(dir.slice(&hash, 0, 10).unwrap(), b"0123456789");
    assert_eq!(dir.slice(&hash, 3, 4).unwrap(), b"3456");
    assert_eq!(dir.slice(&hash, 10, 0).unwrap(), b"");
    assert_eq!(dir.slice(&hash, 0, 11), Err(Error::BlockCorrupt { hash: hash.clone() }));
    assert_eq!(dir.slice(&hash, 11, 0), Err(Error::BlockCorrupt { hash: hash.clone() }));
    assert_eq!(
        dir.slice(&hash, u64::MAX, u64::MAX),
        Err(Error::BlockCorrupt { hash })
    );
}

#[test]
fn list_shows_blocks_only() {
    let mut dir = BlockDir::new();
    let hash = dir.store(b"a block").unwrap();
    assert!(dir.insert_file("README".to_string(), b"not a block".to_vec()));
    assert!(!dir.insert_file("README".to_string(), b"again".to_vec()));
    assert_eq!(dir.list(), vec![hash]);
    assert!(dir.contains("README"));
}

#[test]
fn validate_counts_damaged_blocks() {
    let mut dir = BlockDir::new();
    dir.store(b"one").unwrap();
    dir.store(b"two").unwrap();
    let stats = dir.validate();
    assert_eq!(stats.block_read_count, 2);
    assert_eq!(stats.block_error_count, 0);

    let damaged = hash_bytes(b"three");
    dir.insert_file(damaged, compressed_form(b"not three"));
    dir.insert_file("stray".to_string(), vec![1, 2, 3]);
    let stats = dir.validate();
    assert_eq!(stats.block_read_count, 3);
    assert_eq!(stats.block_error_count, 1);
}

#[test]
fn blocks_lie_in_directories_by_their_first_digits() {
    let hash = hash_bytes(b"");
    assert_eq!(
        block_relpath(&hash).unwrap(),
        "d/0e5/0e5751c026e543b2e8ab2eb06099daa1d1e5df47778f7787faab45cdf12fe3a8"
    );
    assert_eq!(block_relpath("README"), None);
    assert_eq!(block_relpath(""), None);
}

#[test]
fn what_is_stored_can_be_taken_as_it_is_kept() {
    let mut dir = BlockDir::new();
    let hash = dir.store(b"some bytes").unwrap();
    dir.insert_file("stray".to_string(), vec![1, 2, 3]);
    assert_eq!(dir.file_names(), vec![hash.clone(), "stray".to_string()]);
    assert_eq!(dir.stored_bytes(&hash), Some(&compressed_form(b"some bytes")));
    assert_eq!(dir.stored_bytes("stray"), Some(&vec![1, 2, 3]));
    assert_eq!(dir.stored_bytes("nothing"), None);
}

#[test]
fn compression_is_that_of_snappy_and_is_undone() {
    for content in [&b""[..], b"a", b"hello hello hello hello hello", &[5u8; 70000]] {
        let packed = compress(content).unwrap();
        assert_eq!(packed, compressed_form(content));
        assert!(!packed.is_empty());
        assert_eq!(decompress(&packed).unwrap(), content);
    }
    assert_ne!(compress(b"hello hello hello hello hello").unwrap(), b"hello hello hello hello hello");
    assert!(compress(&[5u8; 70000]).unwrap().len() < 7000);
    assert_eq!(decompress(b""), None);
    assert_eq!(decompress(&[0xff, 0xff, 0xff, 0xff, 0xff, 0xff, 0xff]), None);
    // The form of the empty data is one byte.
    assert_eq!(compress(b"").unwrap(), [0u8]);
    assert_eq!(decompress(&[0u8]).unwrap(), b"");
}

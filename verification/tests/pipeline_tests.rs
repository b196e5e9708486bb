use sha2::Digest;
use file_history::path_walker::strip_leading_separator;
use file_history::pipeline::{hash_file, sha512_finalize, sha512_new, sha512_update};

const ABC_SHA512: &str = "ddaf35a193617abacc417349ae20413112e6fa4e89a97ea20a9eeee64b55d39a\
2192992a274fc1a836ba3c23a3feebbd454d4423643ce80e2a9ac94fa54ca49f";

#[test]
fn hash_file_matches_known_vector() {
    let h = hash_file(&vec![b"abc".to_vec()]);
    assert_eq!(file_history::codec::format_hash(&h), ABC_SHA512);
}

#[test]
fn hash_file_matches_direct_computation() {
    let data = b"some file content, long enough to be split".to_vec();
    let direct: Vec<u8> = sha2::Sha512::digest(&data).to_vec();
    let whole = hash_file(&vec![data.clone()]);
    assert_eq!(whole, direct);
}

#[test]
fn hash_file_is_chunking_independent() {
    let whole = hash_file(&vec![b"abcdef".to_vec()]);
    let split = hash_file(&vec![b"ab".to_vec(), b"cd".to_vec(), b"ef".to_vec()]);
    let empty_chunks = hash_file(&vec![b"".to_vec(), b"abcdef".to_vec(), b"".to_vec()]);
    assert_eq!(whole, split);
    assert_eq!(whole, empty_chunks);
}

#[test]
fn hash_file_empty_content() {
    let direct: Vec<u8> = sha2::Sha512::digest(b"").to_vec();
    assert_eq!(hash_file(&Vec::new()), direct);
    assert_eq!(hash_file(&vec![Vec::new()]), direct);
}

#[test]
fn streamed_hash_matches_known_vector() {
    let mut hasher = sha512_new();
    sha512_update(&mut hasher, b"a");
    sha512_update(&mut hasher, b"");
    sha512_update(&mut hasher, b"bc");
    let h = sha512_finalize(hasher);
    assert_eq!(file_history::codec::format_hash(&h), ABC_SHA512);
}

#[test]
fn streamed_hash_matches_chunked_and_direct() {
    let data = b"streamed through the hasher in several bounded chunks";
    let mut hasher = sha512_new();
    for chunk in data.chunks(7) {
        sha512_update(&mut hasher, chunk);
    }
    let streamed = sha512_finalize(hasher);
    let direct: Vec<u8> = sha512_direct(data);
    assert_eq!(streamed, direct);
    assert_eq!(streamed, hash_file(&vec![data.to_vec()]));
}

fn sha512_direct(data: &[u8]) -> Vec<u8> {
    sha2::Sha512::digest(data).to_vec()
}

#[test]
fn fresh_hasher_digests_empty_input() {
    let direct: Vec<u8> = sha2::Sha512::digest(b"").to_vec();
    assert_eq!(sha512_finalize(sha512_new()), direct);
}

#[test]
fn strip_leading_separator_cases() {
    assert_eq!(strip_leading_separator(&String::from("/a/b.txt")), "a/b.txt");
    assert_eq!(strip_leading_separator(&String::from("a/b.txt")), "a/b.txt");
    assert_eq!(strip_leading_separator(&String::from("")), "");
    assert_eq!(strip_leading_separator(&String::from("/")), "");
    assert_eq!(strip_leading_separator(&String::from("//x")), "/x");
}

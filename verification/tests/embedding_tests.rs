use motion_space::embedding::{
    add_text_features, embed_post, hash_bytes, hash_str, tokenize, EMBEDDING_DIM, TOKEN_WEIGHT,
    TRIGRAM_WEIGHT,
};
use motion_space::SCALE;

fn fnv(bytes: &[u8]) -> u64 {
    let mut h: u64 = 0xcbf29ce484222325;
    for &b in bytes {
        h ^= b as u64;
        h = h.wrapping_mul(0x100000001b3);
    }
    h
}

#[test]
fn hash_bytes_is_fnv1a() {
    assert_eq!(hash_bytes(b""), 0xcbf29ce484222325);
    assert_eq!(hash_bytes(b"a"), fnv(b"a"));
    assert_eq!(hash_bytes(b"hello"), fnv(b"hello"));
}

#[test]
fn hash_str_hashes_the_utf8_bytes() {
    assert_eq!(hash_str("hello"), hash_bytes("hello".as_bytes()));
    assert_eq!(hash_str("\u{e9}t\u{e9}"), hash_bytes("\u{e9}t\u{e9}".as_bytes()));
}

#[test]
fn tokenize_splits_on_whitespace() {
    let chars: Vec<char> = "  one two\tthree  ".chars().collect();
    let toks = tokenize(&chars);
    let words: Vec<String> = toks.iter().map(|t| t.iter().collect()).collect();
    assert_eq!(words, vec!["one", "two", "three"]);
}

#[test]
fn tokenize_of_blank_text_is_empty() {
    let chars: Vec<char> = " \t \n ".chars().collect();
    assert!(tokenize(&chars).is_empty());
}

#[test]
fn embedding_has_the_fixed_dimension() {
    let v = embed_post("any text at all");
    assert_eq!(v.data.len(), EMBEDDING_DIM);
}

#[test]
fn single_short_token_fills_one_bucket() {
    // "abc" is one token and one 3-gram, hashed over the same bytes
    let idx = (hash_bytes(b"abc") % EMBEDDING_DIM as u64) as usize;
    let v = embed_post("abc");
    for (i, &x) in v.data.iter().enumerate() {
        if i == idx {
            assert_eq!(x, TOKEN_WEIGHT + TRIGRAM_WEIGHT);
        } else {
            assert_eq!(x, 0);
        }
    }
    // the cached normalized copy is the unit vector on that axis
    let unit = v.normalized.as_ref().unwrap();
    assert_eq!(unit[idx], SCALE);
}

#[test]
fn embedding_lowercases_its_text() {
    let upper = embed_post("HELLO WORLD");
    let lower = embed_post("hello world");
    assert_eq!(upper.data, lower.data);
}

#[test]
fn embedding_of_empty_text_is_zero_with_no_unit_form() {
    let v = embed_post("");
    assert!(v.data.iter().all(|&x| x == 0));
    assert_eq!(v.norm, Some(0));
    assert!(v.normalized.is_none());
}

#[test]
fn add_text_features_accumulates_tokens_and_trigrams() {
    let mut bucket = vec![0i64; EMBEDDING_DIM];
    add_text_features(&mut bucket, "ab cd");
    // two tokens of one unit, and three 3-grams over "ab cd" lowered
    let total: i64 = bucket.iter().sum();
    assert_eq!(total, 2 * TOKEN_WEIGHT + 3 * TRIGRAM_WEIGHT);
}

#[test]
fn add_text_features_leaves_empty_buckets_alone() {
    let mut bucket: Vec<i64> = Vec::new();
    add_text_features(&mut bucket, "words");
    assert!(bucket.is_empty());
}

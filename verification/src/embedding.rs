//! The feature-hashing embedding: a text becomes a fixed-dimension vector by
//! hashing lowercase whitespace-separated tokens and character 3-grams into
//! buckets, then normalizing (when the norm is non-zero, and only into the
//! cache: the raw bucket counts stay as the components).

use vstd::prelude::*;
use vstd::utf8::{encode_scalar, encode_utf8};

use crate::math::{coords_ok, spec_norm, VecN};
use crate::COORD_LIMIT;

verus! {

/// The fixed dimension of every embedding this module produces.
pub const EMBEDDING_DIM: usize = 128;

/// Weight added to a bucket for each token, in micro-units (one unit).
pub const TOKEN_WEIGHT: i64 = 1_000_000;

/// Weight added to a bucket for each character 3-gram (three tenths of a
/// unit).
pub const TRIGRAM_WEIGHT: i64 = 300_000;

/// What `str::to_lowercase` returns for the given characters.
pub uninterp spec fn lower_of(s: Seq<char>) -> Seq<char>;

/// Whether a character counts as whitespace for tokenization.
pub uninterp spec fn is_space_char(c: char) -> bool;

/// Relies on str::to_lowercase: the lowercase mapping depends on the
/// characters alone, and an empty string stays empty.
#[verifier::external_body]
fn lower_chars(s: &str) -> (r: Vec<char>)
    ensures
        r@ == lower_of(s@),
        s@.len() == 0 ==> r@.len() == 0,
{
    s.to_lowercase().chars().collect()
}

/// Relies on char::is_whitespace: whether the character has the Unicode
/// White_Space property; the answer depends on the character alone.
#[verifier::external_body]
pub(crate) fn is_space(c: char) -> (r: bool)
    ensures
        r == is_space_char(c),
{
    c.is_whitespace()
}

/// Relies on char::encode_utf8: the bytes written are the character's UTF-8
/// encoding, between one and four of them.
#[verifier::external_body]
fn char_utf8(c: char) -> (r: Vec<u8>)
    ensures
        r@ == encode_scalar(c as u32),
{
    let mut buf = [0u8; 4];
    c.encode_utf8(&mut buf).as_bytes().to_vec()
}

/// One step of the FNV-1a hash: fold a byte in and multiply, wrapping.
pub open spec fn spec_fnv_step(h: u64, b: u8) -> u64 {
    (((h ^ (b as u64)) as nat * 0x100000001b3) % 0x1_0000_0000_0000_0000) as u64
}

/// The 64-bit FNV-1a hash of a byte sequence.
pub open spec fn spec_fnv(bytes: Seq<u8>) -> u64
    decreases bytes.len(),
{
    if bytes.len() == 0 {
        0xcbf29ce484222325u64
    } else {
        spec_fnv_step(spec_fnv(bytes.drop_last()), bytes.last())
    }
}

proof fn lemma_fnv_take(bytes: Seq<u8>, i: int)
    requires
        0 <= i < bytes.len(),
    ensures
        spec_fnv(bytes.take(i + 1)) == spec_fnv_step(spec_fnv(bytes.take(i)), bytes[i]),
{
    assert(bytes.take(i + 1).drop_last() =~= bytes.take(i));
}

/// The 64-bit FNV-1a hash of a byte slice.
pub fn hash_bytes(bytes: &[u8]) -> (r: u64)
    ensures
        r == spec_fnv(bytes@),
{
    let mut hash: u64 = 0xcbf29ce484222325;
    let mut i: usize = 0;
    proof {
        assert(bytes@.take(0) =~= Seq::<u8>::empty());
    }
    while i < bytes.len()
        invariant
            i <= bytes@.len(),
            hash == spec_fnv(bytes@.take(i as int)),
        decreases bytes@.len() - i,
    {
        proof {
            lemma_fnv_take(bytes@, i as int);
        }
        hash = hash ^ (bytes[i] as u64);
        hash = hash.wrapping_mul(0x100000001b3);
        i = i + 1;
    }
    proof {
        assert(bytes@.take(bytes@.len() as int) =~= bytes@);
    }
    hash
}

/// The FNV-1a hash of the UTF-8 bytes of a string.
pub fn hash_str(s: &str) -> (r: u64)
    ensures
        r == spec_fnv(encode_utf8(s@)),
{
    hash_bytes(s.as_bytes())
}

/// Appending a character appends its encoding.
proof fn lemma_encode_utf8_push(s: Seq<char>, c: char)
    ensures
        encode_utf8(s.push(c)) == encode_utf8(s) + encode_scalar(c as u32),
    decreases s.len(),
{
    let sp = s.push(c);
    assert(sp.len() == s.len() + 1);
    if s.len() == 0 {
        assert(sp[0] == c);
        assert(sp.drop_first() =~= Seq::<char>::empty());
        assert(encode_utf8(sp) == encode_scalar(sp[0] as u32) + encode_utf8(sp.drop_first()));
        assert(encode_utf8(Seq::<char>::empty()) == Seq::<u8>::empty());
        assert(encode_utf8(s) == Seq::<u8>::empty());
        assert(encode_scalar(sp[0] as u32) + Seq::<u8>::empty() =~= encode_scalar(c as u32));
        assert(encode_utf8(s) + encode_scalar(c as u32) =~= encode_scalar(c as u32));
    } else {
        assert(sp.drop_first() =~= s.drop_first().push(c));
        lemma_encode_utf8_push(s.drop_first(), c);
        assert(sp[0] == s[0]);
        assert(encode_utf8(sp) == encode_scalar(sp[0] as u32) + encode_utf8(sp.drop_first()));
        assert(encode_utf8(sp.drop_first()) == encode_utf8(s.drop_first()) + encode_scalar(
            c as u32,
        ));
        assert(encode_utf8(s) == encode_scalar(s[0] as u32) + encode_utf8(s.drop_first()));
        assert(encode_scalar(s[0] as u32) + (encode_utf8(s.drop_first()) + encode_scalar(
            c as u32,
        )) =~= (encode_scalar(s[0] as u32) + encode_utf8(s.drop_first())) + encode_scalar(
            c as u32,
        ));
    }
}

/// The UTF-8 bytes of a character sequence, exactly `encode_utf8`.
fn chars_utf8(chars: &[char]) -> (r: Vec<u8>)
    ensures
        r@ == encode_utf8(chars@),
{
    let mut out: Vec<u8> = Vec::new();
    let mut i: usize = 0;
    proof {
        assert(chars@.take(0) =~= Seq::<char>::empty());
    }
    while i < chars.len()
        invariant
            i <= chars@.len(),
            out@ == encode_utf8(chars@.take(i as int)),
        decreases chars@.len() - i,
    {
        let enc = char_utf8(chars[i]);
        let mut j: usize = 0;
        while j < enc.len()
            invariant
                j <= enc@.len(),
                out@ == encode_utf8(chars@.take(i as int)) + enc@.take(j as int),
                i < chars@.len(),
                enc@ == encode_scalar(chars@[i as int] as u32),
            decreases enc@.len() - j,
        {
            proof {
                assert(enc@.take(j as int + 1) =~= enc@.take(j as int).push(enc@[j as int]));
            }
            out.push(enc[j]);
            j = j + 1;
        }
        proof {
            assert(enc@.take(enc@.len() as int) =~= enc@);
            lemma_encode_utf8_push(chars@.take(i as int), chars@[i as int]);
            assert(chars@.take(i as int).push(chars@[i as int]) =~= chars@.take(i as int + 1));
        }
        i = i + 1;
    }
    proof {
        assert(chars@.take(chars@.len() as int) =~= chars@);
        assert(out@ == encode_utf8(chars@.take(chars@.len() as int)) + Seq::<u8>::empty().take(0));
        assert(out@ =~= encode_utf8(chars@));
    }
    out
}

/// The whitespace-split state after reading a character sequence: the
/// finished tokens and the token still being read.
pub open spec fn spec_tok_state(s: Seq<char>) -> (Seq<Seq<char>>, Seq<char>)
    decreases s.len(),
{
    if s.len() == 0 {
        (Seq::empty(), Seq::empty())
    } else {
        let (done, cur) = spec_tok_state(s.drop_last());
        let c = s.last();
        if is_space_char(c) {
            if cur.len() > 0 {
                (done.push(cur), Seq::empty())
            } else {
                (done, Seq::empty())
            }
        } else {
            (done, cur.push(c))
        }
    }
}

/// The maximal whitespace-free runs of a character sequence, in order.
pub open spec fn spec_tokens(s: Seq<char>) -> Seq<Seq<char>> {
    let (done, cur) = spec_tok_state(s);
    if cur.len() > 0 {
        done.push(cur)
    } else {
        done
    }
}

/// Split a character sequence into its whitespace-separated tokens.
pub fn tokenize(chars: &[char]) -> (r: Vec<Vec<char>>)
    ensures
        r.deep_view() == spec_tokens(chars@),
{
    let mut done: Vec<Vec<char>> = Vec::new();
    let mut cur: Vec<char> = Vec::new();
    let mut i: usize = 0;
    proof {
        assert(chars@.take(0) =~= Seq::<char>::empty());
        assert(done.deep_view() =~= spec_tok_state(chars@.take(0)).0);
    }
    while i < chars.len()
        invariant
            i <= chars@.len(),
            done.deep_view() == spec_tok_state(chars@.take(i as int)).0,
            cur@ == spec_tok_state(chars@.take(i as int)).1,
        decreases chars@.len() - i,
    {
        let c = chars[i];
        let ghost done0 = done.deep_view();
        let ghost cur0 = cur@;
        proof {
            assert(chars@.take(i as int + 1).drop_last() =~= chars@.take(i as int));
            assert(chars@.take(i as int + 1).last() == c);
        }
        if is_space(c) {
            if cur.len() > 0 {
                proof {
                    assert(cur.deep_view() =~= cur0);
                }
                done.push(cur);
                cur = Vec::new();
                proof {
                    assert(done.deep_view() =~= done0.push(cur0));
                }
            }
        } else {
            cur.push(c);
        }
        i = i + 1;
    }
    proof {
        assert(chars@.take(chars@.len() as int) =~= chars@);
    }
    if cur.len() > 0 {
        let ghost done0 = done.deep_view();
        let ghost cur0 = cur@;
        proof {
            assert(cur.deep_view() =~= cur0);
        }
        done.push(cur);
        proof {
            assert(done.deep_view() =~= done0.push(cur0));
        }
    }
    done
}

/// Add a weight to a bucket, saturating at the component limit.
pub open spec fn spec_sat_add(x: i64, w: i64) -> i64 {
    if x + w > COORD_LIMIT {
        COORD_LIMIT
    } else {
        (x + w) as i64
    }
}

/// A bucket vector with a weight added at the hash index of a byte sequence.
pub open spec fn spec_bucket_add(b: Seq<i64>, bytes: Seq<u8>, w: i64) -> Seq<i64> {
    let idx = spec_fnv(bytes) as int % b.len() as int;
    b.update(idx, spec_sat_add(b[idx], w))
}

/// The buckets after hashing in every token, in order.
pub open spec fn spec_fold_tokens(b: Seq<i64>, toks: Seq<Seq<char>>) -> Seq<i64>
    decreases toks.len(),
{
    if toks.len() == 0 {
        b
    } else {
        spec_bucket_add(spec_fold_tokens(b, toks.drop_last()), encode_utf8(toks.last()),
            TOKEN_WEIGHT)
    }
}

/// The buckets after hashing in the first `n` character 3-grams, in order.
pub open spec fn spec_fold_trigrams(b: Seq<i64>, s: Seq<char>, n: int) -> Seq<i64>
    decreases n,
{
    if n <= 0 {
        b
    } else {
        spec_bucket_add(spec_fold_trigrams(b, s, n - 1), encode_utf8(s.subrange(n - 1, n + 2)),
            TRIGRAM_WEIGHT)
    }
}

/// How many 3-grams a sequence of the given length has.
pub open spec fn spec_trigram_count(len: int) -> int {
    if len >= 3 {
        len - 2
    } else {
        0
    }
}


/// Every bucket is a non-negative weight within the component limit.
pub open spec fn buckets_ok(b: Seq<i64>) -> bool {
    forall|i: int| 0 <= i < b.len() ==> 0 <= #[trigger] b[i] <= COORD_LIMIT
}

/// Add a weight to a bucket value, saturating at the component limit.
fn sat_add(x: i64, w: i64) -> (r: i64)
    requires
        0 <= x <= COORD_LIMIT,
        0 <= w <= COORD_LIMIT,
    ensures
        r == spec_sat_add(x, w),
        0 <= r <= COORD_LIMIT,
{
    if x > COORD_LIMIT - w {
        COORD_LIMIT
    } else {
        x + w
    }
}

/// Hash a byte sequence into the buckets with the given weight.
fn bucket_add(bucket: &mut Vec<i64>, bytes: &[u8], w: i64)
    requires
        old(bucket)@.len() > 0,
        buckets_ok(old(bucket)@),
        0 <= w <= COORD_LIMIT,
    ensures
        final(bucket)@ == spec_bucket_add(old(bucket)@, bytes@, w),
        final(bucket)@.len() == old(bucket)@.len(),
        buckets_ok(final(bucket)@),
{
    let h = hash_bytes(bytes);
    let idx = (h % (bucket.len() as u64)) as usize;
    let v = bucket[idx];
    let nv = sat_add(v, w);
    bucket.set(idx, nv);
}

/// The buckets after hashing in the lowercased text's tokens and 3-grams;
/// empty buckets stay empty.
pub open spec fn spec_add_text_features(b: Seq<i64>, text: Seq<char>) -> Seq<i64> {
    if b.len() == 0 {
        b
    } else {
        let low = lower_of(text);
        spec_fold_trigrams(spec_fold_tokens(b, spec_tokens(low)), low, spec_trigram_count(
            low.len() as int))
    }
}

proof fn lemma_fold_tokens_take(b: Seq<i64>, toks: Seq<Seq<char>>, k: int)
    requires
        0 <= k < toks.len(),
    ensures
        spec_fold_tokens(b, toks.take(k + 1)) == spec_bucket_add(
            spec_fold_tokens(b, toks.take(k)),
            encode_utf8(toks[k]),
            TOKEN_WEIGHT,
        ),
{
    assert(toks.take(k + 1).drop_last() =~= toks.take(k));
    assert(toks.take(k + 1).last() == toks[k]);
}

/// Fold a text's features into existing buckets: one token weight for every
/// whitespace-separated token of the lowercased text, one 3-gram weight for
/// every window of three characters.
pub fn add_text_features(bucket: &mut Vec<i64>, text: &str)
    requires
        buckets_ok(old(bucket)@),
    ensures
        final(bucket)@ == spec_add_text_features(old(bucket)@, text@),
        final(bucket)@.len() == old(bucket)@.len(),
        buckets_ok(final(bucket)@),
{
    if bucket.len() == 0 {
        return ;
    }
    let ghost b0 = bucket@;
    let low = lower_chars(text);
    let toks = tokenize(low.as_slice());
    let ghost tv = toks.deep_view();
    let mut k: usize = 0;
    proof {
        assert(tv.take(0) =~= Seq::<Seq<char>>::empty());
    }
    while k < toks.len()
        invariant
            toks.deep_view() == tv,
            tv == spec_tokens(low@),
            toks@.len() == tv.len(),
            k <= toks@.len(),
            bucket@ == spec_fold_tokens(b0, tv.take(k as int)),
            bucket@.len() == b0.len(),
            b0.len() > 0,
            buckets_ok(bucket@),
        decreases toks@.len() - k,
    {
        let bytes = chars_utf8(toks[k].as_slice());
        proof {
            lemma_fold_tokens_take(b0, tv, k as int);
            assert(toks@[k as int].deep_view() =~= toks@[k as int]@);
            assert(tv[k as int] == toks@[k as int]@);
        }
        bucket_add(bucket, bytes.as_slice(), TOKEN_WEIGHT);
        k = k + 1;
    }
    proof {
        assert(tv.take(tv.len() as int) =~= tv);
    }
    let ghost b1 = bucket@;
    if low.len() >= 3 {
        let len = low.len();
        let count = len - 2;
        let mut t: usize = 0;
        while t < count
            invariant
                low@.len() >= 3,
                len == low@.len(),
                count == len - 2,
                t <= count,
                bucket@ == spec_fold_trigrams(b1, low@, t as int),
                bucket@.len() == b0.len(),
                b0.len() > 0,
                buckets_ok(bucket@),
            decreases count - t,
        {
            let mut w: Vec<char> = Vec::new();
            w.push(low[t]);
            w.push(low[t + 1]);
            w.push(low[t + 2]);
            proof {
                assert(w@ =~= low@.subrange(t as int, t as int + 3));
            }
            let bytes = chars_utf8(w.as_slice());
            bucket_add(bucket, bytes.as_slice(), TRIGRAM_WEIGHT);
            t = t + 1;
        }
    }
}

/// The raw bucket counts of a text at a given dimension.
pub open spec fn spec_embed_raw(text: Seq<char>, dim: int) -> Seq<i64> {
    spec_add_text_features(Seq::<i64>::new(dim as nat, |i: int| 0i64), text)
}

/// Embed a text as a vector of `EMBEDDING_DIM` raw feature counts. The norm
/// is cached, and when it is non-zero the unit-normalized copy is cached too;
/// the components stay the raw counts.
pub fn embed_post(text: &str) -> (v: VecN)
    ensures
        v.wf(),
        v.data@ == spec_embed_raw(text@, EMBEDDING_DIM as int),
        v.data@.len() == EMBEDDING_DIM,
        v.norm == Some(spec_norm(v.data@) as i64),
        spec_norm(v.data@) > 0 <==> v.normalized is Some,
{
    let mut bucket: Vec<i64> = Vec::new();
    while bucket.len() < EMBEDDING_DIM
        invariant
            bucket@.len() <= EMBEDDING_DIM,
            forall|i: int| 0 <= i < bucket@.len() ==> bucket@[i] == 0i64,
        decreases EMBEDDING_DIM - bucket@.len(),
    {
        bucket.push(0);
    }
    proof {
        assert(bucket@ =~= Seq::<i64>::new(EMBEDDING_DIM as nat, |i: int| 0i64));
    }
    add_text_features(&mut bucket, text);
    let mut v = VecN::new(bucket);
    let n = v.norm();
    if n > 0 {
        let nres = v.normalize();
        proof {
            assert(nres is Ok);
        }
    }
    v
}

} // verus!

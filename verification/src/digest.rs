//! Digests: the keys by which a changed file and an exact duplicate are recognized.

use sha2::Digest;
use vstd::prelude::*;
use vstd::utf8::{encode_utf8, encode_utf8_decode_utf8};

verus! {

/// The SHA-256 digest of bytes.
pub uninterp spec fn sha256_of(bytes: Seq<u8>) -> Seq<u8>;

/// `sha2::Sha256::digest`: the SHA-256 digest of bytes, which is 32 bytes long.
#[verifier::external_body]
fn sha256(bytes: &[u8]) -> (d: Vec<u8>)
    ensures
        d@ == sha256_of(bytes@),
        d@.len() == 32,
{
    sha2::Sha256::digest(bytes).to_vec()
}

/// A hexadecimal digit, in lower case.
pub open spec fn hex_digit(d: int) -> char {
    if d < 10 {
        ((48 + d) as u8) as char
    } else {
        ((87 + d) as u8) as char
    }
}

/// Bytes in hexadecimal, two digits each.
pub open spec fn hex(bytes: Seq<u8>) -> Seq<char>
    decreases bytes.len(),
{
    if bytes.len() == 0 {
        Seq::empty()
    } else {
        hex(bytes.drop_last()).push(hex_digit(bytes.last() as int / 16)).push(
            hex_digit(bytes.last() as int % 16),
        )
    }
}

fn digit_char(d: u8) -> (c: char)
    requires
        d < 16,
    ensures
        c == hex_digit(d as int),
{
    if d < 10 {
        (48 + d) as char
    } else {
        (87 + d) as char
    }
}

/// Bytes in hexadecimal.
pub fn hex_text(bytes: &Vec<u8>) -> (t: String)
    ensures
        t@ == hex(bytes@),
{
    let mut t = "".to_owned();
    proof {
        reveal_strlit("");
    }
    assert(t@ =~= hex(bytes@.take(0)));
    for i in 0..bytes.len()
        invariant
            t@ == hex(bytes@.take(i as int)),
    {
        assert(bytes@.take(i + 1).drop_last() == bytes@.take(i as int));
        t.push(digit_char(bytes[i] / 16));
        t.push(digit_char(bytes[i] % 16));
    }
    assert(bytes@.take(bytes@.len() as int) == bytes@);
    t
}

/// The digest of an original's bytes, in hexadecimal: equal for exact duplicates.
pub fn content_hash(bytes: &[u8]) -> (t: String)
    ensures
        t@ == hex(sha256_of(bytes@)),
{
    hex_text(&sha256(bytes))
}

/// An integer as eight bytes in two's complement, the lowest first.
pub open spec fn le_bytes(v: i64) -> Seq<u8> {
    let n: int = if v < 0 {
        v + 0x1_0000_0000_0000_0000
    } else {
        v as int
    };
    low_bytes(n as nat, 8)
}

/// The `len` lowest bytes of a number, the lowest first.
pub open spec fn low_bytes(n: nat, len: nat) -> Seq<u8>
    decreases len,
{
    if len == 0 {
        Seq::empty()
    } else {
        seq![(n % 256) as u8] + low_bytes(n / 256, (len - 1) as nat)
    }
}

fn push_le_bytes(out: &mut Vec<u8>, v: i64)
    ensures
        final(out)@ == old(out)@ + le_bytes(v),
{
    let n: u64 = if v < 0 {
        (v as i128 + 0x1_0000_0000_0000_0000) as u64
    } else {
        v as u64
    };
    let ghost goal = out@ + low_bytes(n as nat, 8);
    let mut rest: u64 = n;
    for k in 0..8usize
        invariant
            goal == out@ + low_bytes(rest as nat, (8 - k) as nat),
    {
        let ghost was = out@;
        assert(low_bytes(rest as nat, (8 - k) as nat) == seq![(rest % 256) as u8] + low_bytes(
            rest as nat / 256,
            (7 - k) as nat,
        ));
        out.push((rest % 256) as u8);
        rest = rest / 256;
        assert(goal =~= out@ + low_bytes(rest as nat, (7 - k) as nat));
    }
    assert(goal =~= out@);
}

/// What a cache key is the digest of: path, modified-time and size.
pub open spec fn key_bytes(path: Seq<char>, mtime: i64, size: i64) -> Seq<u8> {
    encode_utf8(path).push(124) + le_bytes(mtime).push(124) + le_bytes(size)
}

/// The cache key of a file.
pub open spec fn key_of_file(path: Seq<char>, mtime: i64, size: i64) -> Seq<char> {
    hex(sha256_of(key_bytes(path, mtime, size)))
}

/// A cache key that changes whenever the file's content plausibly changes. Path +
/// modified-time + size is cheap and good enough to detect edits without hashing the whole
/// file (and without downloading a cloud original).
pub fn cache_key(path: &str, mtime: i64, size: i64) -> (key: String)
    ensures
        key@ == key_of_file(path@, mtime, size),
{
    let name = path.as_bytes();
    let mut bytes: Vec<u8> = Vec::new();
    for i in 0..name.len()
        invariant
            bytes@ == name@.take(i as int),
    {
        bytes.push(name[i]);
        assert(bytes@ =~= name@.take(i + 1));
    }
    assert(bytes@ =~= encode_utf8(path@));
    bytes.push(124);
    push_le_bytes(&mut bytes, mtime);
    bytes.push(124);
    push_le_bytes(&mut bytes, size);
    assert(bytes@ =~= key_bytes(path@, mtime, size));
    hex_text(&sha256(bytes.as_slice()))
}

proof fn lemma_low_bytes(m: nat, n: nat, len: nat)
    requires
        low_bytes(m, len) == low_bytes(n, len),
    ensures
        m % pow256(len) == n % pow256(len),
    decreases len,
{
    if len > 0 {
        let (x, y) = (low_bytes(m, len), low_bytes(n, len));
        let (p, q) = (low_bytes(m / 256, (len - 1) as nat), low_bytes(n / 256, (len - 1) as nat));
        assert(x[0] == (m % 256) as u8 && y[0] == (n % 256) as u8);
        assert(x.skip(1) =~= p);
        assert(y.skip(1) =~= q);
        lemma_low_bytes(m / 256, n / 256, (len - 1) as nat);
        lemma_pow256((len - 1) as nat);
        lemma_mod_split(m, pow256((len - 1) as nat));
        lemma_mod_split(n, pow256((len - 1) as nat));
    }
}

spec fn pow256(len: nat) -> nat
    decreases len,
{
    if len == 0 {
        1
    } else {
        256 * pow256((len - 1) as nat)
    }
}

proof fn lemma_pow256(len: nat)
    ensures
        pow256(len) >= 1,
    decreases len,
{
    if len > 0 {
        lemma_pow256((len - 1) as nat);
    }
}

proof fn lemma_mod_split(m: nat, p: nat)
    requires
        p >= 1,
    ensures
        m % (256 * p) == m % 256 + 256 * ((m / 256) % p),
{
    vstd::arithmetic::div_mod::lemma_mod_breakdown(m as int, 256, p as int);
}

proof fn lemma_low_bytes_len(n: nat, len: nat)
    ensures
        low_bytes(n, len).len() == len,
    decreases len,
{
    if len > 0 {
        lemma_low_bytes_len(n / 256, (len - 1) as nat);
    }
}

proof fn lemma_le_bytes(v: i64, w: i64)
    ensures
        le_bytes(v).len() == 8,
        le_bytes(v) == le_bytes(w) ==> v == w,
{
    let wrap = 0x1_0000_0000_0000_0000int;
    let m: int = if v < 0 {
        v + wrap
    } else {
        v as int
    };
    let n: int = if w < 0 {
        w + wrap
    } else {
        w as int
    };
    lemma_low_bytes_len(m as nat, 8);
    if le_bytes(v) == le_bytes(w) {
        lemma_low_bytes(m as nat, n as nat, 8);
        assert(pow256(8) == wrap) by {
            reveal_with_fuel(pow256, 9);
        }
        assert(m % wrap == m && n % wrap == n) by (nonlinear_arith)
            requires
                0 <= m < wrap,
                0 <= n < wrap,
        ;
    }
}

/// Two files with the same digest input are at the same path and have the same
/// modified-time and size: an edit that changes any of them changes what the key is the
/// digest of.
pub proof fn law_key_covers_every_change(
    p1: Seq<char>,
    m1: i64,
    s1: i64,
    p2: Seq<char>,
    m2: i64,
    s2: i64,
)
    requires
        key_bytes(p1, m1, s1) == key_bytes(p2, m2, s2),
    ensures
        p1 == p2,
        m1 == m2,
        s1 == s2,
{
    let (a, b) = (encode_utf8(p1), encode_utf8(p2));
    let (x, y) = (key_bytes(p1, m1, s1), key_bytes(p2, m2, s2));
    lemma_le_bytes(m1, m2);
    lemma_le_bytes(m2, m1);
    lemma_le_bytes(s1, s2);
    lemma_le_bytes(s2, s1);
    assert(x.len() == a.len() + 18 && y.len() == b.len() + 18);
    let n = a.len() as int;
    assert(x.take(n) =~= a);
    assert(y.take(n) =~= b);
    assert(x.subrange(n + 1, n + 9) =~= le_bytes(m1));
    assert(y.subrange(n + 1, n + 9) =~= le_bytes(m2));
    assert(x.subrange(n + 10, n + 18) =~= le_bytes(s1));
    assert(y.subrange(n + 10, n + 18) =~= le_bytes(s2));
    encode_utf8_decode_utf8(p1);
    encode_utf8_decode_utf8(p2);
}

} // verus!

//! The parts that a store is split into.

use vstd::prelude::*;
use vstd::utf8::encode_utf8;

verus! {

/// How many parts a store has.
pub const SHARD_COUNT: usize = 16;

/// How many bytes of a name its part depends on.
pub const HASHED_BYTES: usize = 8;

/// The FNV-1a hash of a sequence of bytes.
pub open spec fn fnv1a(bytes: Seq<u8>) -> u64
    decreases bytes.len(),
{
    if bytes.len() == 0 {
        0xcbf29ce484222325
    } else {
        (fnv1a(bytes.drop_last()) ^ (bytes.last() as u64)).wrapping_mul(0x100000001b3)
    }
}

/// The first bytes of a name.
pub open spec fn hashed_part(bytes: Seq<u8>) -> Seq<u8> {
    if bytes.len() < HASHED_BYTES {
        bytes
    } else {
        bytes.take(HASHED_BYTES as int)
    }
}

/// The part of the store that a name belongs to.
pub open spec fn shard_of(name: Seq<char>) -> int {
    fnv1a(hashed_part(encode_utf8(name))) as int % SHARD_COUNT as int
}

proof fn lemma_encode_push(name: Seq<char>, c: char)
    requires
        (c as u32) < 0x80,
    ensures
        encode_utf8(name.push(c)) == encode_utf8(name).push(c as u8),
    decreases name.len(),
{
    let longer = name.push(c);
    if name.len() == 0 {
        let u = c as u32;
        assert(longer.drop_first() =~= Seq::empty());
        assert(encode_utf8(longer.drop_first()) =~= Seq::empty());
        assert(u < 0x80 ==> (u & 0x7F) == u) by (bit_vector);
        assert(encode_utf8(longer) =~= encode_utf8(name).push(c as u8));
    } else {
        lemma_encode_push(name.drop_first(), c);
        assert(longer.drop_first() =~= name.drop_first().push(c));
        assert(encode_utf8(longer) =~= encode_utf8(name).push(c as u8));
    }
}

/// The last hexadecimal digit of a product with the hash's prime follows from that of the other
/// factor.
proof fn lemma_product_ends(x: u64)
    ensures
        x.wrapping_mul(0x100000001b3) % 16 == (3 * (x % 16)) % 16,
{
    let product = x as int * 0x100000001b3;
    vstd::arithmetic::div_mod::lemma_mod_mod(product, 16, 0x1000_0000_0000_0000);
    assert(x.wrapping_mul(0x100000001b3) == product % (16int * 0x1000_0000_0000_0000int));
    let quotient = x as int / 16;
    let end = x as int % 16;
    assert(x == 16 * quotient + end);
    let rest = quotient * 0x100000001b3 + end * 0x100000001b;
    assert(product == 16 * rest + 3 * end);
    vstd::arithmetic::div_mod::lemma_mod_multiples_vanish(rest, 3 * end, 16);
}

proof fn lemma_three_times(p: int, q: int)
    requires
        0 <= p < 16,
        0 <= q < 16,
        (3 * p) % 16 == (3 * q) % 16,
    ensures
        p == q,
{
}

proof fn lemma_products_differ(x: u64, y: u64)
    requires
        x % 16 != y % 16,
    ensures
        x.wrapping_mul(0x100000001b3) % 16 != y.wrapping_mul(0x100000001b3) % 16,
{
    let p = x.wrapping_mul(0x100000001b3) % 16;
    let q = y.wrapping_mul(0x100000001b3) % 16;
    assert(p != q) by {
        lemma_product_ends(x);
        lemma_product_ends(y);
        if p == q {
            lemma_three_times((x % 16) as int, (y % 16) as int);
        }
    }
}

proof fn lemma_last_byte_differs(h: u64, a: u8, b: u8)
    requires
        0x61 <= a <= 0x70,
        0x61 <= b <= 0x70,
        a != b,
    ensures
        (h ^ (a as u64)) % 16 != (h ^ (b as u64)) % 16,
{
    assert((h ^ (a as u64)) % 16 != (h ^ (b as u64)) % 16) by (bit_vector)
        requires
            0x61 <= a <= 0x70,
            0x61 <= b <= 0x70,
            a != b,
    ;
}

/// Names spread over the parts: of sixteen names that differ only in their last letter, from `a`
/// to `p`, no two go to the same part, where that letter is one of the bytes that count.
pub proof fn law_names_spread(name: Seq<char>, a: char, b: char)
    requires
        encode_utf8(name).len() < HASHED_BYTES,
        'a' <= a && a <= 'p',
        'a' <= b && b <= 'p',
        a != b,
    ensures
        shard_of(name.push(a)) != shard_of(name.push(b)),
{
    lemma_encode_push(name, a);
    lemma_encode_push(name, b);
    let bytes = encode_utf8(name);
    let with_a = bytes.push(a as u8);
    let with_b = bytes.push(b as u8);
    assert(hashed_part(with_a) =~= with_a);
    assert(hashed_part(with_b) =~= with_b);
    assert(with_a.drop_last() =~= bytes);
    assert(with_b.drop_last() =~= bytes);
    let h = fnv1a(bytes);
    lemma_last_byte_differs(h, a as u8, b as u8);
    lemma_products_differ(h ^ (a as u8 as u64), h ^ (b as u8 as u64));
}

/// The part of the store that a name belongs to, by the hash of its first few bytes. Names are
/// random, so that even a simple hash spreads them evenly.
pub fn shard_index(name: &str) -> (r: usize)
    ensures
        r < SHARD_COUNT,
        r == shard_of(name@),
{
    let bytes = name.as_bytes();
    let mut hash: u64 = 0xcbf29ce484222325;
    let mut i: usize = 0;
    assert(bytes@.take(0) =~= Seq::empty());
    while i < HASHED_BYTES && i < bytes.len()
        invariant
            i <= HASHED_BYTES,
            i <= bytes@.len(),
            hash == fnv1a(bytes@.take(i as int)),
        decreases HASHED_BYTES - i,
    {
        assert(bytes@.take(i + 1).drop_last() =~= bytes@.take(i as int));
        hash = hash ^ (bytes[i] as u64);
        hash = hash.wrapping_mul(0x100000001b3);
        i += 1;
    }
    assert(bytes@.take(i as int) =~= hashed_part(bytes@));
    assert((hash as usize) % 16 == hash % 16) by (bit_vector);
    (hash as usize) % SHARD_COUNT
}

/// Only the first bytes of a name count, and there is a part for every name.
pub proof fn law_only_first_bytes_count(a: Seq<char>, b: Seq<char>)
    ensures
        0 <= shard_of(a) < SHARD_COUNT,
        encode_utf8(a).len() >= 8 && encode_utf8(b).len() >= 8 && encode_utf8(a).take(8)
            == encode_utf8(b).take(8) ==> shard_of(a) == shard_of(b),
{
}

/// Each byte of a name that counts is worked into the hash, and the hash says the part.
pub proof fn law_every_byte_is_hashed(bytes: Seq<u8>, b: u8, name: Seq<char>)
    ensures
        fnv1a(Seq::empty()) == 0xcbf29ce484222325,
        fnv1a(bytes.push(b)) == ((fnv1a(bytes) ^ (b as u64)) as int * 0x100000001b3)
            % 0x1_0000_0000_0000_0000,
        encode_utf8(name).len() <= 8 ==> shard_of(name) == fnv1a(encode_utf8(name)) % 16,
        encode_utf8(name).len() > 8 ==> shard_of(name) == fnv1a(encode_utf8(name).take(8)) % 16,
{
    assert(bytes.push(b).drop_last() =~= bytes);
    if encode_utf8(name).len() == 8 {
        assert(encode_utf8(name).take(8) =~= encode_utf8(name));
    }
}

} // verus!

//! Byte strings as lists of 128-bit words: fifteen bytes to a word, the
//! first byte lowest.

use vstd::prelude::*;

verus! {

/// The number of bytes that one word carries.
pub const CHUNK_SIZE: usize = 15;

/// 256 to the power `k`.
pub open spec fn pow256(k: nat) -> nat
    decreases k,
{
    if k == 0 {
        1
    } else {
        256 * pow256((k - 1) as nat)
    }
}

/// The number whose base-256 digits are `bytes`, lowest digit first.
pub open spec fn le_value(bytes: Seq<u8>) -> nat
    decreases bytes.len(),
{
    if bytes.len() == 0 {
        0
    } else {
        bytes[0] as nat + 256 * le_value(bytes.drop_first())
    }
}

/// How many words the packing of `len` bytes has.
pub open spec fn chunk_count(len: nat) -> nat {
    (len + CHUNK_SIZE - 1) as nat / (CHUNK_SIZE as nat)
}

/// The `i`-th group of at most `CHUNK_SIZE` bytes.
pub open spec fn chunk(bytes: Seq<u8>, i: int) -> Seq<u8> {
    let end = if CHUNK_SIZE * (i + 1) <= bytes.len() {
        CHUNK_SIZE * (i + 1)
    } else {
        bytes.len() as int
    };
    bytes.subrange(CHUNK_SIZE * i, end)
}

/// The packing of `bytes`: one word for each group, the value of its bytes.
pub open spec fn packed_words(bytes: Seq<u8>) -> Seq<u128> {
    Seq::new(chunk_count(bytes.len()), |i: int| le_value(chunk(bytes, i)) as u128)
}

/// The bytes of one word: its base-256 digits from the lowest up to the
/// highest that is not zero, at least one and at most `limit`.
pub open spec fn word_bytes(v: nat, limit: nat) -> Seq<u8>
    decreases limit,
{
    if limit == 0 {
        Seq::<u8>::empty()
    } else if v < 256 {
        seq![v as u8]
    } else {
        seq![(v % 256) as u8] + word_bytes(v / 256, (limit - 1) as nat)
    }
}

/// The unpacking of `words`: the bytes of each word, one after the other.
pub open spec fn unpacked_bytes(words: Seq<u128>) -> Seq<u8>
    decreases words.len(),
{
    if words.len() == 0 {
        Seq::<u8>::empty()
    } else {
        unpacked_bytes(words.drop_last()) + word_bytes(words.last() as nat, CHUNK_SIZE as nat)
    }
}

proof fn lemma_pow256_positive(k: nat)
    ensures
        pow256(k) >= 1,
    decreases k,
{
    if k > 0 {
        lemma_pow256_positive((k - 1) as nat);
    }
}

/// Larger exponents give larger powers.
pub proof fn lemma_pow256_increases(j: nat, k: nat)
    requires
        j <= k,
    ensures
        pow256(j) <= pow256(k),
    decreases k,
{
    if j < k {
        lemma_pow256_increases(j, (k - 1) as nat);
    }
}

/// The largest power of 256 that the packing meets.
pub proof fn lemma_pow256_values()
    ensures
        pow256(14) == 0x0001_0000_0000_0000_0000_0000_0000_0000,
        pow256(15) == 0x0100_0000_0000_0000_0000_0000_0000_0000,
{
    reveal_with_fuel(pow256, 16);
}

/// `x` shifted left by `8 * k` bits is `x` times 256 to the power `k`, while
/// the product fits.
proof fn lemma_shift_by_eights(x: u128, k: nat)
    requires
        x * pow256(k) <= u128::MAX,
        k <= 15,
    ensures
        x << ((8 * k) as u128) == x * pow256(k),
    decreases k,
{
    if k == 0 {
        assert(x << 0u128 == x) by (bit_vector);
        assert(x * pow256(k) == x) by (nonlinear_arith)
            requires
                pow256(k) == 1,
        ;
    } else {
        let j = (k - 1) as nat;
        lemma_pow256_positive(j);
        assert(x * pow256(j) * 256 == x * pow256(k)) by (nonlinear_arith)
            requires
                pow256(k) == 256 * pow256(j),
        ;
        assert(x * pow256(j) <= x * pow256(k)) by (nonlinear_arith)
            requires
                pow256(k) == 256 * pow256(j),
        ;
        lemma_shift_by_eights(x, j);
        let s: u128 = (8 * j) as u128;
        let t: u128 = (8 * k) as u128;
        let y: u128 = x << s;
        assert(x << t == y * 256) by (bit_vector)
            requires
                t == s + 8,
                s <= 112,
                y == x << s,
                y <= 0x00ff_ffff_ffff_ffff_ffff_ffff_ffff_ffffu128,
        ;
    }
}

/// A run of digits extended by one more digit at its high end.
pub proof fn lemma_le_value_push(bytes: Seq<u8>, b: u8)
    ensures
        le_value(bytes.push(b)) == le_value(bytes) + b * pow256(bytes.len()),
        le_value(bytes) < pow256(bytes.len()),
    decreases bytes.len(),
{
    let longer = bytes.push(b);
    assert(le_value(longer) == longer[0] as nat + 256 * le_value(longer.drop_first()));
    if bytes.len() == 0 {
        assert(longer.drop_first() =~= Seq::<u8>::empty());
        assert(b * pow256(0) == b) by (nonlinear_arith)
            requires
                pow256(0) == 1,
        ;
    } else {
        let rest = bytes.drop_first();
        assert(longer.drop_first() =~= rest.push(b));
        lemma_le_value_push(rest, b);
        let p = pow256(rest.len());
        assert(pow256(bytes.len()) == 256 * p);
        assert(256 * (b * p) == b * (256 * p)) by (nonlinear_arith);
        assert(le_value(bytes) == bytes[0] as nat + 256 * le_value(rest));
    }
}

/// Packs `bytes` into words, `CHUNK_SIZE` bytes to a word; the last word
/// may carry fewer.
pub fn pack_bytes_as_u128_chunks(bytes: &[u8]) -> (out: Vec<u128>)
    ensures
        out@ == packed_words(bytes@),
{
    let mut out: Vec<u128> = Vec::new();
    let mut start: usize = 0;
    while start < bytes.len()
        invariant
            start <= bytes.len(),
            start == CHUNK_SIZE * out.len() || start == bytes.len(),
            out.len() == chunk_count(start as nat),
            forall|i: int| 0 <= i < out.len() ==> out[i] == #[trigger] packed_words(bytes@)[i],
        decreases bytes.len() - start,
    {
        let end: usize = if bytes.len() - start > CHUNK_SIZE {
            start + CHUNK_SIZE
        } else {
            bytes.len()
        };
        let mut v: u128 = 0;
        let mut j: usize = 0;
        proof {
            assert(bytes@.subrange(start as int, start as int) =~= Seq::<u8>::empty());
            lemma_pow256_positive(0);
        }
        while j < end - start
            invariant
                start < end <= bytes.len(),
                end - start <= CHUNK_SIZE,
                j <= end - start,
                v == le_value(bytes@.subrange(start as int, start + j)),
                v < pow256(j as nat),
            decreases end - start - j,
        {
            let ghost seen = bytes@.subrange(start as int, start + j);
            let b = bytes[start + j];
            let shift: u128 = (j as u128) * 8;
            let piece: u128 = (b as u128) << shift;
            proof {
                lemma_pow256_values();
                lemma_pow256_increases(j as nat, 14);
                assert(b * pow256(j as nat) <= u128::MAX) by (nonlinear_arith)
                    requires
                        b <= 255,
                        pow256(j as nat) <= 0x0001_0000_0000_0000_0000_0000_0000_0000,
                ;
                lemma_shift_by_eights(b as u128, j as nat);
                lemma_shift_by_eights(1, j as nat);
                assert((v | piece) == v + piece) by (bit_vector)
                    requires
                        shift <= 112,
                        v < (1u128 << shift),
                        piece == (b as u128) << shift,
                ;
                lemma_le_value_push(seen, b);
                assert(bytes@.subrange(start as int, start + j + 1) =~= seen.push(b));
                assert(pow256((j + 1) as nat) == 256 * pow256(j as nat));
                assert(v + b * pow256(j as nat) < 256 * pow256(j as nat)) by (nonlinear_arith)
                    requires
                        v < pow256(j as nat),
                        b <= 255,
                ;
            }
            v |= piece;
            j += 1;
        }
        proof {
            let i = out.len() as int;
            assert(chunk(bytes@, i) == bytes@.subrange(start as int, end as int));
            assert(i < chunk_count(bytes@.len()));
        }
        out.push(v);
        start = end;
    }
    assert(out@ =~= packed_words(bytes@));
    out
}

/// Unpacks `ints` into bytes: of each word its bytes from the lowest up to
/// the highest that is not zero, and one zero byte for the word zero.
pub fn unpack_u128_chunks_to_bytes(ints: &[u128]) -> (out: Vec<u8>)
    ensures
        out@ == unpacked_bytes(ints@),
{
    let mut out: Vec<u8> = Vec::new();
    let mut i: usize = 0;
    while i < ints.len()
        invariant
            i <= ints.len(),
            out@ == unpacked_bytes(ints@.take(i as int)),
        decreases ints.len() - i,
    {
        let ghost before = out@;
        let word = ints[i];
        let mut x: u128 = word;
        let mut taken: usize = 0;
        loop
            invariant_except_break
                taken < CHUNK_SIZE,
                out@ + word_bytes(x as nat, (CHUNK_SIZE - taken) as nat) == before + word_bytes(
                    word as nat,
                    CHUNK_SIZE as nat,
                ),
            ensures
                out@ == before + word_bytes(word as nat, CHUNK_SIZE as nat),
            decreases CHUNK_SIZE - taken,
        {
            let ghost so_far = out@;
            let low: u8 = (x & 0xff) as u8;
            let rest: u128 = x >> 8;
            assert(x & 0xff == x % 256) by (bit_vector);
            assert(x >> 8 == x / 256) by (bit_vector);
            out.push(low);
            taken += 1;
            if rest == 0 || taken == CHUNK_SIZE {
                proof {
                    if rest != 0 {
                        assert(word_bytes(rest as nat, 0) =~= Seq::<u8>::empty());
                    }
                    assert(out@ =~= so_far + word_bytes(x as nat, (CHUNK_SIZE - taken + 1) as nat));
                }
                break ;
            }
            proof {
                assert(out@ + word_bytes(rest as nat, (CHUNK_SIZE - taken) as nat) =~= so_far
                    + word_bytes(x as nat, (CHUNK_SIZE - taken + 1) as nat));
            }
            x = rest;
        }
        proof {
            assert(ints@.take(i + 1).drop_last() =~= ints@.take(i as int));
            assert(ints@.take(i + 1).last() == word);
        }
        i += 1;
    }
    assert(ints@.take(ints@.len() as int) =~= ints@);
    out
}

/// Whether unpacking gives back every byte of the packing of `bytes`: each
/// group ends in a byte that is not zero, or is a single byte. A zero byte
/// at the end of a longer group does not come back.
pub open spec fn survives_packing(bytes: Seq<u8>) -> bool {
    forall|i: int|
        0 <= i < chunk_count(bytes.len()) ==> (#[trigger] chunk(bytes, i)).last() != 0 || chunk(
            bytes,
            i,
        ).len() == 1
}

/// Digits whose highest is not zero stand for a number that is not zero.
pub proof fn lemma_le_value_positive(bytes: Seq<u8>)
    requires
        bytes.len() >= 1,
        bytes.last() != 0,
    ensures
        le_value(bytes) > 0,
    decreases bytes.len(),
{
    if bytes.len() > 1 {
        let rest = bytes.drop_first();
        assert(rest.last() == bytes.last());
        lemma_le_value_positive(rest);
    }
}

/// The bytes of the value of a group are the group, where the group's last
/// byte is not zero or the group is a single byte.
pub proof fn lemma_word_bytes_of_group(group: Seq<u8>, limit: nat)
    requires
        1 <= group.len() <= limit,
        group.last() != 0 || group.len() == 1,
    ensures
        word_bytes(le_value(group), limit) == group,
    decreases group.len(),
{
    let rest = group.drop_first();
    let v = le_value(group);
    assert(v == group[0] as nat + 256 * le_value(rest));
    if group.len() == 1 {
        assert(rest =~= Seq::<u8>::empty());
        assert(word_bytes(v, limit) =~= group);
    } else {
        assert(rest.last() == group.last());
        lemma_le_value_positive(rest);
        lemma_word_bytes_of_group(rest, (limit - 1) as nat);
        assert(v % 256 == group[0] as nat && v / 256 == le_value(rest)) by (nonlinear_arith)
            requires
                v == group[0] as nat + 256 * le_value(rest),
                group[0] < 256,
        ;
        assert(word_bytes(v, limit) =~= seq![group[0]] + rest);
        assert(seq![group[0]] + rest =~= group);
    }
}

/// Unpacking the first `m` words of a packing gives the bytes of the first
/// `m` groups.
proof fn lemma_round_trip_prefix(bytes: Seq<u8>, m: nat)
    requires
        survives_packing(bytes),
        m <= chunk_count(bytes.len()),
    ensures
        unpacked_bytes(packed_words(bytes).take(m as int)) == bytes.take(
            if CHUNK_SIZE * m <= bytes.len() {
                (CHUNK_SIZE * m) as int
            } else {
                bytes.len() as int
            },
        ),
    decreases m,
{
    let words = packed_words(bytes);
    if m == 0 {
        assert(words.take(0) =~= Seq::<u128>::empty());
        assert(bytes.take(0) =~= Seq::<u8>::empty());
    } else {
        let j = (m - 1) as int;
        let group = chunk(bytes, j);
        lemma_round_trip_prefix(bytes, (m - 1) as nat);
        assert(words.take(m as int).drop_last() =~= words.take(j));
        assert(words.take(m as int).last() == le_value(group) as u128);
        assert(1 <= group.len() <= CHUNK_SIZE);
        lemma_le_value_push(group, 0);
        lemma_pow256_values();
        lemma_pow256_increases(group.len(), 15);
        lemma_word_bytes_of_group(group, CHUNK_SIZE as nat);
        let end = if CHUNK_SIZE * m <= bytes.len() {
            (CHUNK_SIZE * m) as int
        } else {
            bytes.len() as int
        };
        assert(bytes.take(CHUNK_SIZE * j) + group =~= bytes.take(end));
    }
}

/// Unpacking undoes packing for every byte string of which each group ends
/// in a byte that is not zero or is a single byte.
pub proof fn lemma_chunk_round_trip(bytes: Seq<u8>)
    requires
        survives_packing(bytes),
    ensures
        unpacked_bytes(packed_words(bytes)) == bytes,
{
    let n = chunk_count(bytes.len());
    lemma_round_trip_prefix(bytes, n);
    assert(packed_words(bytes).take(n as int) =~= packed_words(bytes));
    assert(bytes.take(bytes.len() as int) =~= bytes);
}

/// The bytes of a word are no more than the digits that its value needs.
proof fn lemma_word_bytes_len(v: nat, limit: nat, digits: nat)
    requires
        1 <= digits <= limit,
        v < pow256(digits),
    ensures
        word_bytes(v, limit).len() <= digits,
    decreases digits,
{
    if v >= 256 {
        assert(pow256(1) == 256 * pow256(0));
        assert(pow256(0) == 1);
        assert(digits >= 2);
        assert(pow256(digits) == 256 * pow256((digits - 1) as nat));
        lemma_word_bytes_len(v / 256, (limit - 1) as nat, (digits - 1) as nat);
    }
}

/// The first `m` words of a packing unpack to no more bytes than the
/// first `m` groups have.
proof fn lemma_unpacked_len(bytes: Seq<u8>, m: nat)
    requires
        m <= chunk_count(bytes.len()),
    ensures
        unpacked_bytes(packed_words(bytes).take(m as int)).len() <= (if CHUNK_SIZE * m
            <= bytes.len() {
            CHUNK_SIZE * m
        } else {
            bytes.len() as int
        }),
    decreases m,
{
    let words = packed_words(bytes);
    if m == 0 {
        assert(words.take(0) =~= Seq::<u128>::empty());
    } else {
        let j = (m - 1) as int;
        let group = chunk(bytes, j);
        lemma_unpacked_len(bytes, (m - 1) as nat);
        assert(words.take(m as int).drop_last() =~= words.take(j));
        assert(words.take(m as int).last() == le_value(group) as u128);
        lemma_le_value_push(group, 0);
        lemma_pow256_values();
        lemma_pow256_increases(group.len(), 15);
        lemma_word_bytes_len(le_value(group), CHUNK_SIZE as nat, group.len());
    }
}

/// Once a group ends in a zero byte and is longer than one byte, the
/// words up to it and beyond unpack to fewer bytes than the groups have.
proof fn lemma_unpacked_len_short(bytes: Seq<u8>, m: nat, bad: int)
    requires
        m <= chunk_count(bytes.len()),
        0 <= bad < m,
        chunk(bytes, bad).last() == 0,
        chunk(bytes, bad).len() != 1,
    ensures
        unpacked_bytes(packed_words(bytes).take(m as int)).len() < (if CHUNK_SIZE * m
            <= bytes.len() {
            CHUNK_SIZE * m
        } else {
            bytes.len() as int
        }),
    decreases m,
{
    let words = packed_words(bytes);
    let j = (m - 1) as int;
    let group = chunk(bytes, j);
    assert(words.take(m as int).drop_last() =~= words.take(j));
    assert(words.take(m as int).last() == le_value(group) as u128);
    lemma_le_value_push(group, 0);
    lemma_pow256_values();
    lemma_pow256_increases(group.len(), 15);
    if bad == j {
        lemma_unpacked_len(bytes, (m - 1) as nat);
        let front = group.drop_last();
        assert(group =~= front.push(0));
        lemma_le_value_push(front, 0);
        assert(0 * pow256(front.len()) == 0) by (nonlinear_arith);
        lemma_word_bytes_len(le_value(group), CHUNK_SIZE as nat, front.len());
    } else {
        lemma_unpacked_len_short(bytes, (m - 1) as nat, bad);
        lemma_word_bytes_len(le_value(group), CHUNK_SIZE as nat, group.len());
    }
}

/// Unpacking undoes packing only for the byte strings that survive it:
/// in every other one a zero byte at the end of a group is lost.
pub proof fn lemma_chunk_round_trip_only_if(bytes: Seq<u8>)
    requires
        unpacked_bytes(packed_words(bytes)) == bytes,
    ensures
        survives_packing(bytes),
{
    if !survives_packing(bytes) {
        let n = chunk_count(bytes.len());
        let bad = choose|i: int|
            0 <= i < n && !((#[trigger] chunk(bytes, i)).last() != 0 || chunk(bytes, i).len() == 1);
        lemma_unpacked_len_short(bytes, n, bad);
        assert(packed_words(bytes).take(n as int) =~= packed_words(bytes));
    }
}

} // verus!

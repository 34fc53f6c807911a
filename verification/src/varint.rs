//! Variable-length integers: little-endian base 128, seven payload bits per
//! byte, the high bit of a byte set while more bytes follow.

use vstd::arithmetic::div_mod::{lemma_mod_multiples_vanish, lemma_small_mod};
use vstd::prelude::*;

verus! {

/// The number of bytes after which a value that still continues is rejected.
pub const MAX_VARINT_LEN: usize = 19;

/// Two to the power 128: one more than the largest word.
pub open spec fn word_modulus() -> nat {
    u128::MAX as nat + 1
}

/// 128 to the power `k`.
pub open spec fn pow128(k: nat) -> nat
    decreases k,
{
    if k == 0 {
        1
    } else {
        128 * pow128((k - 1) as nat)
    }
}

/// The encoding of `v`: its base-128 digits from the lowest, each but the
/// last with the continuation bit.
pub open spec fn varint_bytes(v: nat) -> Seq<u8>
    decreases v,
{
    if v < 128 {
        seq![v as u8]
    } else {
        seq![(v % 128 + 128) as u8] + varint_bytes(v / 128)
    }
}

/// How many bytes from `start` on carry the continuation bit, one after the other.
pub open spec fn continuation_run(bytes: Seq<u8>, start: int) -> nat
    decreases bytes.len() - start,
{
    if 0 <= start < bytes.len() && bytes[start] >= 128 {
        1 + continuation_run(bytes, start + 1)
    } else {
        0
    }
}

/// The number that a run of base-128 digits stands for, lowest digit first;
/// the continuation bits are not part of it.
pub open spec fn digits_value(digits: Seq<u8>) -> nat
    decreases digits.len(),
{
    if digits.len() == 0 {
        0
    } else {
        (digits[0] % 128) as nat + 128 * digits_value(digits.drop_first())
    }
}

/// The value that starts at `start`. A value ends with the first byte
/// without continuation bit. There is none where the bytes end before such a
/// byte (truncated), or where `MAX_VARINT_LEN` bytes in a row continue
/// (overflow). Bits beyond the 128th are dropped.
pub open spec fn varint_at(bytes: Seq<u8>, start: int) -> Option<u128> {
    let run = continuation_run(bytes, start);
    if start < 0 || run >= MAX_VARINT_LEN || start + run >= bytes.len() {
        None
    } else {
        Some((digits_value(bytes.subrange(start, start + run + 1)) % word_modulus()) as u128)
    }
}

/// Where reading stops: behind the value, or behind the bytes that were
/// looked at before the value was found to be truncated or to overflow.
pub open spec fn varint_next(bytes: Seq<u8>, start: int) -> int {
    let run = continuation_run(bytes, start);
    if start < 0 || start >= bytes.len() {
        start
    } else if run >= MAX_VARINT_LEN {
        start + MAX_VARINT_LEN
    } else if start + run >= bytes.len() {
        bytes.len() as int
    } else {
        start + run + 1
    }
}

/// Appends the encoding of `value` to `out`.
pub fn push_leb128_u128(value: u128, out: &mut Vec<u8>)
    ensures
        final(out)@ == old(out)@ + varint_bytes(value as nat),
{
    let mut v: u128 = value;
    loop
        invariant_except_break
            out@ + varint_bytes(v as nat) == old(out)@ + varint_bytes(value as nat),
        ensures
            out@ == old(out)@ + varint_bytes(value as nat),
        decreases v,
    {
        let ghost before = out@;
        let low: u8 = (v & 0x7f) as u8;
        let rest: u128 = v >> 7;
        assert(v & 0x7f == v % 128) by (bit_vector);
        assert(v >> 7 == v / 128) by (bit_vector);
        if rest != 0 {
            assert(low | 0x80 == low + 128) by (bit_vector)
                requires
                    low < 128,
            ;
            out.push(low | 0x80);
            assert(out@ + varint_bytes(rest as nat) == before + varint_bytes(v as nat));
            v = rest;
        } else {
            out.push(low);
            assert(out@ == before + varint_bytes(v as nat));
            break ;
        }
    }
}

/// `x` shifted left by `7 * k` bits is `x` times 128 to the power `k`, while
/// the product fits.
proof fn lemma_shift_by_sevens(x: u128, k: nat)
    requires
        x * pow128(k) <= u128::MAX,
        k <= 18,
    ensures
        x << ((7 * k) as u128) == x * pow128(k),
    decreases k,
{
    if k == 0 {
        assert(x << 0u128 == x) by (bit_vector);
        assert(x * pow128(k) == x) by (nonlinear_arith)
            requires
                pow128(k) == 1,
        ;
    } else {
        let j = (k - 1) as nat;
        lemma_pow128_positive(j);
        assert(x * pow128(j) * 128 == x * pow128(k)) by (nonlinear_arith)
            requires
                pow128(k) == 128 * pow128(j),
        ;
        assert(x * pow128(j) <= x * pow128(k)) by (nonlinear_arith)
            requires
                pow128(k) == 128 * pow128(j),
        ;
        lemma_shift_by_sevens(x, j);
        let s: u128 = (7 * j) as u128;
        let t: u128 = (7 * k) as u128;
        let y: u128 = x << s;
        assert(x << t == y * 128) by (bit_vector)
            requires
                t == s + 7,
                s <= 119,
                y == x << s,
                y <= 0x01ff_ffff_ffff_ffff_ffff_ffff_ffff_ffffu128,
        ;
    }
}

proof fn lemma_pow128_positive(k: nat)
    ensures
        pow128(k) >= 1,
    decreases k,
{
    if k > 0 {
        lemma_pow128_positive((k - 1) as nat);
    }
}

/// A run of digits extended by one more digit at its high end.
pub proof fn lemma_digits_value_push(digits: Seq<u8>, b: u8)
    ensures
        digits_value(digits.push(b)) == digits_value(digits) + (b % 128) * pow128(digits.len()),
        digits_value(digits) < pow128(digits.len()),
    decreases digits.len(),
{
    let low = (b % 128) as nat;
    let longer = digits.push(b);
    assert(digits_value(longer) == (longer[0] % 128) as nat + 128 * digits_value(
        longer.drop_first(),
    ));
    if digits.len() == 0 {
        assert(longer.drop_first() =~= Seq::<u8>::empty());
        assert(pow128(0) == 1);
        assert(low * pow128(0) == low) by (nonlinear_arith)
            requires
                pow128(0) == 1,
        ;
    } else {
        let rest = digits.drop_first();
        assert(longer.drop_first() =~= rest.push(b));
        lemma_digits_value_push(rest, b);
        let p = pow128(rest.len());
        assert(pow128(digits.len()) == 128 * p);
        assert(128 * (low * p) == low * (128 * p)) by (nonlinear_arith);
        assert(digits_value(digits) == (digits[0] % 128) as nat + 128 * digits_value(rest));
    }
}

/// The powers of 128 that a 128-bit word meets.
pub proof fn lemma_pow128_values()
    ensures
        pow128(17) == 0x0080_0000_0000_0000_0000_0000_0000_0000,
        pow128(18) == 0x4000_0000_0000_0000_0000_0000_0000_0000,
        pow128(19) == 128 * pow128(18),
{
    reveal_with_fuel(pow128, 20);
}

/// Larger exponents give larger powers.
pub proof fn lemma_pow128_increases(j: nat, k: nat)
    requires
        j <= k,
    ensures
        pow128(j) <= pow128(k),
    decreases k,
{
    if j < k {
        lemma_pow128_increases(j, (k - 1) as nat);
    }
}

/// Reads the value that starts at `*idx` and moves `*idx` behind what was
/// read.
pub fn read_leb128_u128(bytes: &[u8], idx: &mut usize) -> (r: Option<u128>)
    ensures
        r == varint_at(bytes@, *old(idx) as int),
        *final(idx) as int == varint_next(bytes@, *old(idx) as int),
{
    let ghost start: int = *idx as int;
    let mut result: u128 = 0;
    let mut shift: u128 = 0;
    proof {
        if start <= bytes@.len() {
            assert(bytes@.subrange(start, start) =~= Seq::<u8>::empty());
        }
    }
    while *idx < bytes.len()
        invariant
            *old(idx) as int == start,
            start <= *idx,
            *idx <= bytes.len() || *idx == start,
            *idx - start <= 18,
            shift == 7 * (*idx - start),
            continuation_run(bytes@, start) == (*idx - start) + continuation_run(
                bytes@,
                *idx as int,
            ),
            *idx <= bytes.len() ==> result == digits_value(bytes@.subrange(start, *idx as int)),
            result < pow128((*idx - start) as nat),
        decreases bytes.len() - *idx,
    {
        let ghost k: nat = (*idx - start) as nat;
        let ghost seen = bytes@.subrange(start, *idx as int);
        let byte = bytes[*idx];
        *idx += 1;
        let low: u128 = (byte & 0x7f) as u128;
        assert(byte & 0x7f == byte % 128) by (bit_vector);
        let piece: u128 = low << shift;
        let ghost kept: u128 = if k == 18 {
            low % 4
        } else {
            low
        };
        proof {
            lemma_pow128_values();
            lemma_pow128_increases(k, 18);
            lemma_pow128_positive(k);
            if k <= 17 {
                lemma_pow128_increases(k, 17);
            }
            assert(kept * pow128(k) <= u128::MAX) by (nonlinear_arith)
                requires
                    k == 18 ==> kept <= 3,
                    kept <= 127,
                    k == 18 ==> pow128(k) == 0x4000_0000_0000_0000_0000_0000_0000_0000,
                    k != 18 ==> pow128(k) <= 0x0080_0000_0000_0000_0000_0000_0000_0000,
            ;
            lemma_shift_by_sevens(kept, k);
            lemma_shift_by_sevens(1, k);
            assert(low << shift == kept << shift) by (bit_vector)
                requires
                    low < 128,
                    shift <= 126,
                    kept == (if shift == 126 {
                        low % 4
                    } else {
                        low
                    }),
            ;
            assert((result | piece) == result + piece) by (bit_vector)
                requires
                    shift <= 126,
                    result < (1u128 << shift),
                    piece == low << shift,
            ;
            lemma_digits_value_push(seen, byte);
            assert(bytes@.subrange(start, *idx as int) =~= seen.push(byte));
        }
        result |= piece;
        if (byte & 0x80) == 0 {
            proof {
                assert(byte & 0x80 == 0 <==> byte < 128) by (bit_vector);
                let whole = digits_value(seen.push(byte));
                assert(continuation_run(bytes@, start) == k);
                if k == 18 {
                    let q = (low / 4) as int;
                    assert(whole == word_modulus() * q + result) by (nonlinear_arith)
                        requires
                            whole == digits_value(seen) + low * pow128(k),
                            result == digits_value(seen) + (low % 4) * pow128(k),
                            pow128(k) == 0x4000_0000_0000_0000_0000_0000_0000_0000,
                            word_modulus() == 4 * 0x4000_0000_0000_0000_0000_0000_0000_0000,
                            q == low / 4,
                            low == 4 * (low / 4) + low % 4,
                    ;
                    lemma_mod_multiples_vanish(q, result as int, word_modulus() as int);
                    lemma_small_mod(result as nat, word_modulus());
                } else {
                    lemma_small_mod(result as nat, word_modulus());
                }
            }
            return Some(result);
        }
        proof {
            assert(byte & 0x80 == 0 <==> byte < 128) by (bit_vector);
        }
        shift += 7;
        if shift >= 128 {
            return None;
        }
        proof {
            assert(result < pow128(k + 1)) by {
                assert(pow128(k + 1) == 128 * pow128(k));
                assert(result < 128 * pow128(k)) by (nonlinear_arith)
                    requires
                        result == digits_value(seen) + low * pow128(k),
                        digits_value(seen) < pow128(k),
                        low <= 127,
                ;
            }
        }
    }
    None
}

/// The bytes of a list of words: the encodings of the words, one after the other.
pub open spec fn words_bytes(words: Seq<u128>) -> Seq<u8>
    decreases words.len(),
{
    if words.len() == 0 {
        Seq::<u8>::empty()
    } else {
        words_bytes(words.drop_last()) + varint_bytes(words.last() as nat)
    }
}

/// The words that can be read from `pos` on, one value after the other, up
/// to the end of the bytes or to the first value that is truncated or
/// overflows.
pub open spec fn bytes_words(bytes: Seq<u8>, pos: int) -> Seq<u128>
    decreases bytes.len() - pos,
{
    if pos < 0 || pos >= bytes.len() {
        Seq::<u128>::empty()
    } else {
        match varint_at(bytes, pos) {
            Some(v) => seq![v] + bytes_words(bytes, varint_next(bytes, pos)),
            None => Seq::<u128>::empty(),
        }
    }
}

/// The shape of an encoding: every byte but the last continues, the last
/// does not, the digits stand for the value, and a value of 128 bits takes
/// at most `MAX_VARINT_LEN` bytes. Only the value zero gives a zero byte.
pub proof fn lemma_varint_bytes_shape(v: nat)
    ensures
        varint_bytes(v).len() >= 1,
        forall|i: int| 0 <= i < varint_bytes(v).len() - 1 ==> #[trigger] varint_bytes(v)[i] >= 128,
        varint_bytes(v).last() < 128,
        v > 0 ==> varint_bytes(v).last() > 0,
        digits_value(varint_bytes(v)) == v,
        varint_bytes(v).len() >= 2 ==> v >= pow128((varint_bytes(v).len() - 1) as nat),
        v <= u128::MAX ==> varint_bytes(v).len() <= MAX_VARINT_LEN,
    decreases v,
{
    let e = varint_bytes(v);
    if v < 128 {
        assert(e.drop_first() =~= Seq::<u8>::empty());
        assert(digits_value(e) == (e[0] % 128) as nat + 128 * digits_value(e.drop_first()));
    } else {
        let rest = varint_bytes(v / 128);
        lemma_varint_bytes_shape(v / 128);
        assert(e.drop_first() =~= rest);
        assert(e.last() == rest.last());
        assert(digits_value(e) == (e[0] % 128) as nat + 128 * digits_value(e.drop_first()));
        assert forall|i: int| 0 <= i < e.len() - 1 implies #[trigger] e[i] >= 128 by {
            if i > 0 {
                assert(e[i] == rest[i - 1]);
            }
        }
        let n = (e.len() - 1) as nat;
        assert(pow128(n) == 128 * pow128((n - 1) as nat));
        if rest.len() >= 2 {
        } else {
            assert(pow128(0) == 1);
        }
        if v <= u128::MAX && e.len() > MAX_VARINT_LEN {
            lemma_pow128_values();
            lemma_pow128_increases(19, n);
        }
    }
}

/// A run of continuing bytes that a byte without continuation bit ends.
pub proof fn lemma_continuation_run(bytes: Seq<u8>, start: int, n: nat)
    requires
        0 <= start,
        start + n < bytes.len(),
        forall|i: int| start <= i < start + n ==> #[trigger] bytes[i] >= 128,
        bytes[start + n] < 128,
    ensures
        continuation_run(bytes, start) == n,
    decreases n,
{
    if n > 0 {
        lemma_continuation_run(bytes, start + 1, (n - 1) as nat);
    }
}

/// What is written is read back, wherever in a byte string it stands.
pub proof fn lemma_read_back(prefix: Seq<u8>, v: u128, suffix: Seq<u8>)
    ensures
        varint_at(prefix + varint_bytes(v as nat) + suffix, prefix.len() as int) == Some(v),
        varint_next(prefix + varint_bytes(v as nat) + suffix, prefix.len() as int) == prefix.len()
            + varint_bytes(v as nat).len(),
{
    let e = varint_bytes(v as nat);
    let bytes = prefix + e + suffix;
    let start = prefix.len() as int;
    let n = (e.len() - 1) as nat;
    lemma_varint_bytes_shape(v as nat);
    assert forall|i: int| start <= i < start + n implies #[trigger] bytes[i] >= 128 by {
        assert(bytes[i] == e[i - start]);
    }
    assert(bytes[start + n] == e.last());
    lemma_continuation_run(bytes, start, n);
    assert(bytes.subrange(start, start + n + 1) =~= e);
    lemma_small_mod(v as nat, word_modulus());
}

/// Decoding undoes encoding, for every word; and zero is the single byte zero.
pub proof fn lemma_varint_round_trip(v: u128)
    ensures
        varint_at(varint_bytes(v as nat), 0) == Some(v),
        varint_next(varint_bytes(v as nat), 0) == varint_bytes(v as nat).len(),
        varint_bytes(0) == seq![0u8],
{
    let e = varint_bytes(v as nat);
    lemma_read_back(Seq::<u8>::empty(), v, Seq::<u8>::empty());
    assert(Seq::<u8>::empty() + e + Seq::<u8>::empty() =~= e);
}

/// The bytes of a list of words, taken from its first word.
pub proof fn lemma_words_bytes_front(words: Seq<u128>)
    requires
        words.len() > 0,
    ensures
        words_bytes(words) == varint_bytes(words[0] as nat) + words_bytes(words.drop_first()),
    decreases words.len(),
{
    if words.len() == 1 {
        assert(words.drop_last() =~= Seq::<u128>::empty());
        assert(words.drop_first() =~= Seq::<u128>::empty());
        assert(words_bytes(words.drop_last()) =~= Seq::<u8>::empty());
        assert(words_bytes(words) =~= varint_bytes(words[0] as nat) + Seq::<u8>::empty());
    } else {
        let front = words.drop_last();
        lemma_words_bytes_front(front);
        assert(front.drop_first() =~= words.drop_first().drop_last());
        assert(words.drop_first().last() == words.last());
        assert(words_bytes(words.drop_first()) == words_bytes(front.drop_first()) + varint_bytes(
            words.last() as nat,
        ));
        assert(words_bytes(words) =~= varint_bytes(words[0] as nat) + words_bytes(
            words.drop_first(),
        ));
    }
}

/// Reading the bytes of a list of words gives the list back, whatever
/// stands before them.
pub proof fn lemma_words_round_trip(prefix: Seq<u8>, words: Seq<u128>)
    ensures
        bytes_words(prefix + words_bytes(words), prefix.len() as int) == words,
    decreases words.len(),
{
    let bytes = prefix + words_bytes(words);
    if words.len() == 0 {
        assert(bytes_words(bytes, prefix.len() as int) =~= words);
    } else {
        let first = varint_bytes(words[0] as nat);
        let rest = words.drop_first();
        lemma_words_bytes_front(words);
        lemma_varint_bytes_shape(words[0] as nat);
        lemma_read_back(prefix, words[0], words_bytes(rest));
        assert(bytes =~= prefix + first + words_bytes(rest));
        assert(bytes =~= (prefix + first) + words_bytes(rest));
        lemma_words_round_trip(prefix + first, rest);
        assert(bytes_words(bytes, prefix.len() as int) =~= seq![words[0]] + rest);
        assert(seq![words[0]] + rest =~= words);
    }
}

} // verus!

//! Asset identifiers in text: the block, a colon, and the position in the
//! block, both in decimal.

use crate::protostone::RuneId;
use vstd::prelude::*;

verus! {

/// Whether a byte is a decimal digit.
pub open spec fn is_digit(b: u8) -> bool {
    0x30 <= b <= 0x39
}

/// Whether every byte is a decimal digit.
pub open spec fn all_digits(text: Seq<u8>) -> bool {
    forall|i: int| 0 <= i < text.len() ==> is_digit(#[trigger] text[i])
}

/// The number that decimal digits stand for.
pub open spec fn decimal_value(digits: Seq<u8>) -> nat
    decreases digits.len(),
{
    if digits.len() == 0 {
        0
    } else {
        (decimal_value(digits.drop_last()) * 10 + (digits.last() - 0x30)) as nat
    }
}

/// The text without a plus sign in front of it.
pub open spec fn unsigned_part(text: Seq<u8>) -> Seq<u8> {
    if text.len() > 0 && text[0] == 0x2b {
        text.drop_first()
    } else {
        text
    }
}

/// The number that `text` stands for, up to `max`: decimal digits, at
/// least one, which a single plus sign may precede.
pub open spec fn parsed_number(text: Seq<u8>, max: nat) -> Option<nat> {
    let digits = unsigned_part(text);
    if digits.len() == 0 || !all_digits(digits) || decimal_value(digits) > max {
        None
    } else {
        Some(decimal_value(digits))
    }
}

/// The index of the first colon among the first `n` bytes.
pub open spec fn first_colon(text: Seq<u8>, n: nat) -> Option<int>
    decreases n,
{
    if n == 0 {
        None
    } else {
        match first_colon(text, (n - 1) as nat) {
            Some(i) => Some(i),
            None => if text[n - 1] == 0x3a {
                Some(n - 1)
            } else {
                None
            },
        }
    }
}

/// The asset that `text` names: a block number of 64 bits before the
/// first colon and a position of 32 bits behind it.
pub open spec fn parsed_rune_id(text: Seq<u8>) -> Option<RuneId> {
    match first_colon(text, text.len()) {
        None => None,
        Some(i) => match (
            parsed_number(text.subrange(0, i), u64::MAX as nat),
            parsed_number(text.subrange(i + 1, text.len() as int), u32::MAX as nat),
        ) {
            (Some(block), Some(tx)) => Some(RuneId { block: block as u64, tx: tx as u32 }),
            _ => None,
        },
    }
}

/// Reads the number in the bytes `from..to` of `text`, up to `max`.
fn parse_number(text: &[u8], from: usize, to: usize, max: u64) -> (r: Option<u64>)
    requires
        from <= to <= text.len(),
    ensures
        match r {
            Some(v) => parsed_number(text@.subrange(from as int, to as int), max as nat) == Some(
                v as nat,
            ),
            None => parsed_number(text@.subrange(from as int, to as int), max as nat) is None,
        },
{
    let ghost whole = text@.subrange(from as int, to as int);
    let start: usize = if from < to && text[from] == 0x2b {
        from + 1
    } else {
        from
    };
    let ghost digits = text@.subrange(start as int, to as int);
    assert(digits =~= unsigned_part(whole));
    if start == to {
        return None;
    }
    let mut acc: u128 = 0;
    let mut over: bool = false;
    let mut i: usize = start;
    assert(digits.take(0) =~= Seq::<u8>::empty());
    while i < to
        invariant
            start <= i <= to <= text.len(),
            digits == text@.subrange(start as int, to as int),
            digits == unsigned_part(whole),
            whole == text@.subrange(from as int, to as int),
            all_digits(digits.take(i - start)),
            over ==> decimal_value(digits.take(i - start)) > max,
            !over ==> acc == decimal_value(digits.take(i - start)) && acc <= max,
        decreases to - i,
    {
        let b = text[i];
        if b < 0x30 || b > 0x39 {
            proof {
                assert(digits[i - start] == b);
                assert(!is_digit(digits[i - start]));
                assert(!all_digits(digits));
                assert(unsigned_part(whole) == digits);
            }
            return None;
        }
        proof {
            assert(digits.take(i - start + 1).drop_last() =~= digits.take(i - start));
            assert(digits.take(i - start + 1).last() == b);
        }
        if !over {
            acc = acc * 10 + (b - 0x30) as u128;
            if acc > max as u128 {
                over = true;
            }
        }
        i += 1;
    }
    assert(digits.take(digits.len() as int) =~= digits);
    if over {
        None
    } else {
        Some(acc as u64)
    }
}

/// The asset that `text` names; `None` where it names none.
pub fn parse_rune_id(text: &str) -> (r: Option<RuneId>)
    ensures
        r == parsed_rune_id(vstd::utf8::encode_utf8(text@)),
{
    let bytes = text.as_bytes();
    let mut i: usize = 0;
    while i < bytes.len() && bytes[i] != 0x3a
        invariant
            i <= bytes.len(),
            first_colon(bytes@, i as nat) is None,
        decreases bytes.len() - i,
    {
        i += 1;
    }
    proof {
        lemma_first_colon(bytes@, i as int, bytes@.len());
    }
    if i == bytes.len() {
        return None;
    }
    let block = parse_number(bytes, 0, i, u64::MAX);
    let tx = parse_number(bytes, i + 1, bytes.len(), u32::MAX as u64);
    match (block, tx) {
        (Some(block), Some(tx)) => Some(RuneId { block, tx: tx as u32 }),
        _ => None,
    }
}

/// The first colon, once none was found before `i`.
proof fn lemma_first_colon(text: Seq<u8>, i: int, n: nat)
    requires
        0 <= i <= n <= text.len(),
        first_colon(text, i as nat) is None,
        i < text.len() ==> text[i] == 0x3a,
    ensures
        first_colon(text, n) == if i < n {
            Some(i)
        } else {
            None::<int>
        },
    decreases n,
{
    if i < n {
        lemma_first_colon(text, i, (n - 1) as nat);
    }
}

} // verus!

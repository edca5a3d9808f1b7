//! The Internet checksum: the 16-bit one's-complement sum of a message's
//! big-endian words, with the carries folded back in, then complemented.

use vstd::prelude::*;

verus! {

/// What the byte at `index` counts for in the sum: the high byte of a
/// big-endian word stands at an even index, the low byte at an odd one.
pub open spec fn byte_weight(index: int) -> nat {
    if index % 2 == 0 {
        256
    } else {
        1
    }
}

/// The sum of the 16-bit big-endian words of `bytes`. A trailing odd byte
/// counts as the high byte of a word whose low byte is zero.
pub open spec fn word_sum(bytes: Seq<u8>) -> nat
    decreases bytes.len(),
{
    if bytes.len() == 0 {
        0
    } else {
        word_sum(bytes.drop_last()) + byte_weight(bytes.len() - 1) * (bytes.last() as nat)
    }
}

/// End-around carry: whatever overflows sixteen bits is added back in at the
/// bottom until nothing overflows.
pub open spec fn fold_carries(n: nat) -> nat
    decreases n,
{
    if n < 0x1_0000 {
        n
    } else {
        fold_carries(n / 0x1_0000 + n % 0x1_0000)
    }
}

/// The checksum a sender stores: the complement of the folded word sum.
pub open spec fn internet_checksum(bytes: Seq<u8>) -> u16 {
    (0xFFFF - fold_carries(word_sum(bytes))) as u16
}

/// What a receiver tests: a message that carries its own checksum sums to
/// sixteen one bits.
pub open spec fn checksum_ok(bytes: Seq<u8>) -> bool {
    fold_carries(word_sum(bytes)) == 0xFFFF
}

/// Folding is reduction modulo 65535 with the representative taken from
/// `1..=65535`; only zero itself folds to zero.
pub proof fn lemma_fold_closed_form(n: nat)
    ensures
        fold_carries(n) == (if n == 0 {
            0
        } else {
            (n - 1) % 65535 + 1
        }),
        fold_carries(n) <= 0xFFFF,
    decreases n,
{
    if n >= 0x1_0000 {
        let q: nat = n / 0x1_0000;
        let r: nat = n % 0x1_0000;
        let m: nat = q + r;
        assert(n == 0x1_0000 * q + r);
        assert(0 < m < n);
        lemma_fold_closed_form(m);
        assert((n - 1) == (m - 1) + 65535 * q);
        vstd::arithmetic::div_mod::lemma_mod_multiples_vanish(q as int, (m - 1) as int, 65535);
    }
}

/// Folding the sum of a folded value and a further term gives what folding
/// the whole sum gives.
pub proof fn lemma_fold_add(n: nat, term: nat)
    ensures
        fold_carries(fold_carries(n) + term) == fold_carries(n + term),
{
    lemma_fold_closed_form(n);
    lemma_fold_closed_form(n + term);
    lemma_fold_closed_form(fold_carries(n) + term);
    if n > 0 {
        let k: nat = ((n - 1) / 65535) as nat;
        assert(n - 1 == 65535 * k + (n - 1) % 65535);
        assert(n + term - 1 == (fold_carries(n) + term - 1) + 65535 * k);
        vstd::arithmetic::div_mod::lemma_mod_multiples_vanish(
            k as int,
            (fold_carries(n) + term - 1) as int,
            65535,
        );
    }
}

/// The word sum of a prefix that is one byte longer.
pub proof fn lemma_word_sum_step(bytes: Seq<u8>, i: int)
    requires
        0 <= i < bytes.len(),
    ensures
        word_sum(bytes.take(i + 1)) == word_sum(bytes.take(i)) + byte_weight(i) * (bytes[i] as nat),
{
    assert(bytes.take(i + 1).drop_last() =~= bytes.take(i));
}

/// Replacing one byte moves the word sum by the difference of the two bytes,
/// taken at that byte's weight.
pub proof fn lemma_word_sum_update(bytes: Seq<u8>, i: int, value: u8)
    requires
        0 <= i < bytes.len(),
    ensures
        word_sum(bytes.update(i, value)) + byte_weight(i) * (bytes[i] as nat) == word_sum(bytes)
            + byte_weight(i) * (value as nat),
    decreases bytes.len(),
{
    let last: int = bytes.len() - 1;
    if i == last {
        assert(bytes.update(i, value).drop_last() =~= bytes.drop_last());
    } else {
        assert(bytes.update(i, value).drop_last() =~= bytes.drop_last().update(i, value));
        lemma_word_sum_update(bytes.drop_last(), i, value);
    }
}

/// A message whose checksum holds, and in which one byte is then replaced by
/// a different one, no longer passes the receiver's test.
pub proof fn lemma_changed_byte_is_detected(bytes: Seq<u8>, i: int, value: u8)
    requires
        checksum_ok(bytes),
        0 <= i < bytes.len(),
        value != bytes[i],
    ensures
        !checksum_ok(bytes.update(i, value)),
{
    let before: nat = word_sum(bytes);
    let after: nat = word_sum(bytes.update(i, value));
    lemma_word_sum_update(bytes, i, value);
    lemma_fold_closed_form(before);
    lemma_fold_closed_form(after);
    let w: nat = byte_weight(i);
    assert(w == 1 || w == 256);
    if after > 0 {
        assert(before > 0);
        let kb: int = (before - 1) / 65535;
        let ka: int = (after - 1) / 65535;
        assert(before - 1 == 65535 * kb + (before - 1) % 65535);
        assert(after - 1 == 65535 * ka + (after - 1) % 65535);
        if checksum_ok(bytes.update(i, value)) {
            assert(after - before == 65535 * (ka - kb));
            assert(after - before == w * (value as int) - w * (bytes[i] as int));
            assert(false);
        }
    }
}

/// Flipping one bit of one byte of a message whose checksum holds is always
/// detected.
pub proof fn lemma_flipped_bit_is_detected(bytes: Seq<u8>, i: int, bit: u8)
    requires
        checksum_ok(bytes),
        0 <= i < bytes.len(),
        bit < 8,
    ensures
        !checksum_ok(bytes.update(i, flip_bit(bytes[i], bit))),
{
    let b: u8 = bytes[i];
    assert((b ^ (1u8 << bit)) != b) by (bit_vector)
        requires
            bit < 8,
    ;
    lemma_changed_byte_is_detected(bytes, i, flip_bit(b, bit));
}

/// `byte` with the bit numbered `bit` (0 is the lowest) inverted.
pub open spec fn flip_bit(byte: u8, bit: u8) -> u8 {
    byte ^ (1u8 << bit)
}

/// Computes the Internet checksum of `bytes`.
pub fn checksum(bytes: &[u8]) -> (sum: u16)
    ensures
        sum == internet_checksum(bytes@),
{
    let mut acc: u32 = 0;
    let mut i: usize = 0;
    while i < bytes.len()
        invariant
            i <= bytes.len(),
            acc <= 0xFFFF,
            acc == fold_carries(word_sum(bytes@.take(i as int))),
        decreases bytes.len() - i,
    {
        let byte: u32 = bytes[i] as u32;
        let term: u32 = if i % 2 == 0 {
            byte * 256
        } else {
            byte
        };
        proof {
            lemma_word_sum_step(bytes@, i as int);
            lemma_fold_add(word_sum(bytes@.take(i as int)), term as nat);
            lemma_fold_closed_form((acc + term) as nat);
        }
        acc = acc + term;
        if acc > 0xFFFF {
            acc = acc - 0xFFFF;
        }
        i = i + 1;
    }
    proof {
        assert(bytes@.take(i as int) =~= bytes@);
    }
    (0xFFFF - acc) as u16
}

/// Tells whether `bytes`, checksum field included, passes the receiver's test.
pub fn verify_checksum(bytes: &[u8]) -> (ok: bool)
    ensures
        ok == checksum_ok(bytes@),
{
    let sum: u16 = checksum(bytes);
    proof {
        lemma_fold_closed_form(word_sum(bytes@));
    }
    sum == 0
}

} // verus!

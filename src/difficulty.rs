//! Leading-zero evaluation of 32-byte digests.
//!
//! The executable counter reads the digest one big-endian 64-bit word at a
//! time and counts leading zero bits, moving on to the next word only while
//! the current one is entirely zero. Its result is proved equal to a naive
//! nibble-by-nibble scan over the whole digest.

use vstd::arithmetic::power2::{
    lemma2_to64, lemma_pow2_adds, lemma_pow2_pos, lemma_pow2_strictly_increases,
    lemma_pow2_unfold, pow2,
};
use vstd::prelude::*;
use vstd::std_specs::bits::{axiom_u64_leading_zeros, u64_leading_zeros};

verus! {

/// Nibble `i` of `h`, most significant nibble of each byte first.
pub open spec fn nibble(h: Seq<u8>, i: int) -> nat {
    if i % 2 == 0 {
        (h[i / 2] as nat) / 16
    } else {
        (h[i / 2] as nat) % 16
    }
}

/// Length of the run of zero nibbles that starts at nibble `i`, not looking
/// at nibble `end` or beyond.
pub open spec fn zero_nibble_run(h: Seq<u8>, i: int, end: int) -> nat
    decreases end - i,
{
    if i >= end {
        0
    } else if nibble(h, i) == 0 {
        1 + zero_nibble_run(h, i + 1, end)
    } else {
        0
    }
}

/// Number of leading zero nibbles of `h`, scanning nibble by nibble.
pub open spec fn leading_zero_nibbles(h: Seq<u8>) -> nat {
    zero_nibble_run(h, 0, 2 * h.len() as int)
}

/// A digest meets a target when it has at least `target` leading zero nibbles.
pub open spec fn meets_target(h: Seq<u8>, target: int) -> bool {
    leading_zero_nibbles(h) >= target
}

/// Bit `i` of `h`, most significant bit of each byte first.
pub open spec fn bit(h: Seq<u8>, i: int) -> u8 {
    (h[i / 8] >> ((7 - i % 8) as u8)) & 1u8
}

/// The first `n` bits of `h` are all zero.
pub open spec fn leading_bits_zero(h: Seq<u8>, n: int) -> bool {
    forall|i: int| 0 <= i < n ==> #[trigger] bit(h, i) == 0
}

/// Big-endian value of the `n` nibbles of `h` starting at nibble `s`.
pub open spec fn nibbles_value(h: Seq<u8>, s: int, n: nat) -> nat
    decreases n,
{
    if n == 0 {
        0
    } else {
        nibbles_value(h, s, (n - 1) as nat) * 16 + nibble(h, s + n - 1)
    }
}

/// Big-endian value of the `n` bytes of `h` starting at byte `s`.
pub open spec fn bytes_value(h: Seq<u8>, s: int, n: nat) -> nat
    decreases n,
{
    if n == 0 {
        0
    } else {
        bytes_value(h, s, (n - 1) as nat) * 256 + h[s + n - 1] as nat
    }
}

proof fn lemma_run_facts(h: Seq<u8>, i: int, end: int)
    requires
        i <= end,
    ensures
        zero_nibble_run(h, i, end) <= end - i,
        forall|j: int| i <= j < i + zero_nibble_run(h, i, end) ==> nibble(h, j) == 0,
        zero_nibble_run(h, i, end) < end - i ==> nibble(h, i + zero_nibble_run(h, i, end)) != 0,
    decreases end - i,
{
    if i < end && nibble(h, i) == 0 {
        lemma_run_facts(h, i + 1, end);
    }
}

proof fn lemma_run_split(h: Seq<u8>, i: int, mid: int, end: int)
    requires
        i <= mid <= end,
    ensures
        zero_nibble_run(h, i, mid) < mid - i ==> zero_nibble_run(h, i, end) == zero_nibble_run(
            h,
            i,
            mid,
        ),
        zero_nibble_run(h, i, mid) >= mid - i ==> zero_nibble_run(h, i, end) == (mid - i)
            + zero_nibble_run(h, mid, end),
    decreases mid - i,
{
    if i < mid && nibble(h, i) == 0 {
        lemma_run_split(h, i + 1, mid, end);
    }
}

proof fn lemma_nibbles_value_bound(h: Seq<u8>, s: int, n: nat)
    ensures
        nibbles_value(h, s, n) < pow2(4 * n),
    decreases n,
{
    if n == 0 {
        lemma2_to64();
    } else {
        lemma_nibbles_value_bound(h, s, (n - 1) as nat);
        lemma_pow2_adds(4 * (n - 1) as nat, 4);
        lemma2_to64();
        let a = nibbles_value(h, s, (n - 1) as nat);
        let m = pow2(4 * (n - 1) as nat);
        assert(nibble(h, s + n - 1) < 16);
        assert(a * 16 + nibble(h, s + n - 1) < m * 16) by (nonlinear_arith)
            requires
                a < m,
                nibble(h, s + n - 1) < 16,
        ;
        assert(4 * (n - 1) as nat + 4 == 4 * n);
    }
}

/// The first `k` nibbles of a window are zero exactly when the window's value
/// is below `2^(4 (n - k))`.
proof fn lemma_zero_prefix_value(h: Seq<u8>, s: int, n: nat, k: nat)
    requires
        k <= n,
    ensures
        (forall|j: int| 0 <= j < k ==> #[trigger] nibble(h, s + j) == 0) <==> nibbles_value(h, s, n) < pow2(
            (4 * (n - k)) as nat,
        ),
    decreases n,
{
    lemma2_to64();
    if n == 0 {
    } else {
        let a = nibbles_value(h, s, (n - 1) as nat);
        let d = nibble(h, s + n - 1);
        assert(d < 16);
        if k < n {
            lemma_zero_prefix_value(h, s, (n - 1) as nat, k);
            let m = pow2((4 * (n - 1 - k)) as nat);
            lemma_pow2_adds((4 * (n - 1 - k)) as nat, 4);
            assert((4 * (n - 1 - k)) as nat + 4 == (4 * (n - k)) as nat);
            assert(a * 16 + d < m * 16 <==> a < m) by (nonlinear_arith)
                requires
                    d < 16,
            ;
        } else {
            lemma_zero_prefix_value(h, s, (n - 1) as nat, (n - 1) as nat);
            assert(a * 16 + d < 1 <==> (a == 0 && d == 0)) by (nonlinear_arith);
            if nibbles_value(h, s, n) < 1 {
                assert forall|j: int| 0 <= j < k implies #[trigger] nibble(h, s + j) == 0 by {
                    if j < n - 1 {
                    } else {
                        assert(j == n - 1);
                    }
                }
            }
        }
    }
}

/// Bit-length characterisation of `leading_zeros`.
proof fn lemma_leading_zeros_bounds(x: u64)
    ensures
        0 <= u64_leading_zeros(x) <= 64,
        (x as nat) < pow2((64 - u64_leading_zeros(x)) as nat),
        x != 0 ==> pow2((63 - u64_leading_zeros(x)) as nat) <= x,
    decreases x,
{
    axiom_u64_leading_zeros(x);
    lemma2_to64();
    if x != 0 {
        reveal(u64_leading_zeros);
        let y = (x / 2) as u64;
        lemma_leading_zeros_bounds(y);
        axiom_u64_leading_zeros(y);
        let ly = u64_leading_zeros(y);
        assert(u64_leading_zeros(x) == ly - 1);
        assert(ly >= 1);
        lemma_pow2_unfold((64 - ly + 1) as nat);
        assert((64 - u64_leading_zeros(x)) as nat == (64 - ly + 1) as nat);
        if y != 0 {
            lemma_pow2_unfold((63 - ly + 1) as nat);
            assert((63 - u64_leading_zeros(x)) as nat == (63 - ly + 1) as nat);
        } else {
            assert(x == 1);
            assert(ly == 64);
        }
    }
}

/// One 64-bit word: `leading_zeros / 4` is the run of zero nibbles in it.
proof fn lemma_word_nibbles(h: Seq<u8>, s: int, x: u64)
    requires
        x as nat == nibbles_value(h, s, 16),
    ensures
        u64_leading_zeros(x) / 4 == zero_nibble_run(h, s, s + 16),
{
    let c = zero_nibble_run(h, s, s + 16);
    let lz = u64_leading_zeros(x);
    lemma_run_facts(h, s, s + 16);
    lemma_leading_zeros_bounds(x);
    lemma2_to64();
    lemma_zero_prefix_value(h, s, 16, c);
    assert forall|j: int| 0 <= j < c implies #[trigger] nibble(h, s + j) == 0 by {
        assert(s <= s + j < s + c);
    }
    assert((x as nat) < pow2((64 - 4 * c) as nat));
    if c < 16 {
        lemma_zero_prefix_value(h, s, 16, c + 1);
        assert(!(forall|j: int| 0 <= j < c + 1 ==> #[trigger] nibble(h, s + j) == 0)) by {
            assert(nibble(h, s + c) != 0);
        }
        assert(pow2((60 - 4 * c) as nat) <= x) by {
            assert((4 * (16 - (c + 1))) as nat == (60 - 4 * c) as nat);
        }
        assert(x != 0) by {
            lemma_pow2_pos((60 - 4 * c) as nat);
        }
        if lz < 4 * c {
            lemma_pow2_strictly_increases((64 - 4 * c) as nat, (63 - lz) as nat);
        }
        if lz >= 4 * c + 4 {
            lemma_pow2_strictly_increases((64 - lz) as nat, (60 - 4 * c) as nat);
        }
    } else {
        assert(x == 0);
        axiom_u64_leading_zeros(x);
    }
}

proof fn lemma_bytes_are_nibbles(h: Seq<u8>, s: int, n: nat)
    ensures
        bytes_value(h, s, n) == nibbles_value(h, 2 * s, 2 * n),
    decreases n,
{
    if n > 0 {
        lemma_bytes_are_nibbles(h, s, (n - 1) as nat);
        let b = h[s + n - 1] as nat;
        let hi = 2 * s + 2 * n - 2;
        assert(hi % 2 == 0 && hi / 2 == s + n - 1);
        assert((hi + 1) % 2 == 1 && (hi + 1) / 2 == s + n - 1);
        assert(nibble(h, hi) == b / 16);
        assert(nibble(h, hi + 1) == b % 16);
        assert(nibbles_value(h, 2 * s, (2 * n - 1) as nat) == nibbles_value(
            h,
            2 * s,
            (2 * n - 2) as nat,
        ) * 16 + nibble(h, hi));
        assert(nibbles_value(h, 2 * s, 2 * n) == nibbles_value(h, 2 * s, (2 * n - 1) as nat) * 16
            + nibble(h, hi + 1));
        assert(((2 * (n - 1)) as nat) == (2 * n - 2) as nat);
        let a = nibbles_value(h, 2 * s, (2 * n - 2) as nat);
        assert((a * 16 + b / 16) * 16 + b % 16 == a * 256 + b) by (nonlinear_arith);
    }
}

/// Reads the 8 bytes of `hash` at `start` as a big-endian integer.
fn be_word(hash: &[u8; 32], start: usize) -> (w: u64)
    requires
        start + 8 <= 32,
    ensures
        w as nat == bytes_value(hash@, start as int, 8),
{
    let mut w: u64 = 0;
    let mut i: usize = 0;
    proof {
        lemma2_to64();
    }
    while i < 8
        invariant
            i <= 8,
            start + 8 <= 32,
            w as nat == bytes_value(hash@, start as int, i as nat),
            (w as nat) < pow2(8 * i as nat),
        decreases 8 - i,
    {
        proof {
            lemma_pow2_adds(8 * i as nat, 8);
            lemma2_to64();
            if i < 7 {
                lemma_pow2_strictly_increases(8 * i as nat + 8, 64);
            }
            assert(8 * i as nat + 8 == 8 * (i + 1) as nat);
            let m = pow2(8 * i as nat);
            assert(w * 256 + 255 < m * 256) by (nonlinear_arith)
                requires
                    (w as nat) < m,
            ;
        }
        w = w * 256 + hash[start + i] as u64;
        i = i + 1;
    }
    w
}

/// Counts the leading zero nibbles of a digest, word by word.
pub fn count_leading_hex_zeros(hash: &[u8; 32]) -> (r: usize)
    ensures
        r == leading_zero_nibbles(hash@),
        r <= 64,
{
    let ghost h = hash@;
    let mut count: usize = 0;
    let mut word: usize = 0;
    while word < 4
        invariant
            word <= 4,
            count == 16 * word,
            zero_nibble_run(h, 0, 16 * word) == 16 * word,
            h == hash@,
        decreases 4 - word,
    {
        let w = be_word(hash, 8 * word);
        let lz = w.leading_zeros();
        let c = (lz / 4) as usize;
        proof {
            lemma_bytes_are_nibbles(h, 8 * word as int, 8);
            lemma_word_nibbles(h, 16 * word as int, w);
            lemma_run_split(h, 0, 16 * word as int, 64);
            lemma_run_split(h, 16 * word as int, 16 * word + 16, 64);
        }
        count = count + c;
        if c < 16 {
            return count;
        }
        proof {
            lemma_run_split(h, 0, 16 * word as int, 16 * word + 16);
        }
        word = word + 1;
    }
    proof {
        lemma_run_facts(h, 0, 64);
    }
    count
}

/// Whether `hash` reaches `target` leading zero nibbles.
pub fn check_difficulty(hash: &[u8; 32], target: usize) -> (r: bool)
    ensures
        r == meets_target(hash@, target as int),
{
    count_leading_hex_zeros(hash) >= target
}

proof fn lemma_zero_byte_bits(b: u8)
    ensures
        b == 0 <==> forall|k: u8| k < 8 ==> #[trigger] ((b >> k) & 1u8) == 0,
{
    assert(b == 0 <==> ((b >> 0u8) & 1u8 == 0 && (b >> 1u8) & 1u8 == 0 && (b >> 2u8) & 1u8 == 0
        && (b >> 3u8) & 1u8 == 0 && (b >> 4u8) & 1u8 == 0 && (b >> 5u8) & 1u8 == 0 && (b >> 6u8)
        & 1u8 == 0 && (b >> 7u8) & 1u8 == 0)) by (bit_vector);
    if b != 0 {
        assert(!((b >> 0u8) & 1u8 == 0 && (b >> 1u8) & 1u8 == 0 && (b >> 2u8) & 1u8 == 0 && (b
            >> 3u8) & 1u8 == 0 && (b >> 4u8) & 1u8 == 0 && (b >> 5u8) & 1u8 == 0 && (b >> 6u8) & 1u8
            == 0 && (b >> 7u8) & 1u8 == 0));
    }
}

/// Whether the first `prefix_zeros` bits of `hash` are all zero.
pub fn has_matching_prefix(hash: &[u8], prefix_zeros: usize) -> (r: bool)
    requires
        prefix_zeros <= 8 * hash@.len(),
    ensures
        r == leading_bits_zero(hash@, prefix_zeros as int),
{
    let required_bytes = prefix_zeros / 8;
    let remaining_bits = prefix_zeros % 8;
    let ghost h = hash@;
    let mut j: usize = 0;
    while j < required_bytes
        invariant
            j <= required_bytes,
            required_bytes == prefix_zeros / 8,
            required_bytes <= h.len(),
            h == hash@,
            leading_bits_zero(h, 8 * j as int),
        decreases required_bytes - j,
    {
        let b = hash[j];
        proof {
            lemma_zero_byte_bits(b);
        }
        if b != 0 {
            proof {
                let k = choose|k: u8| k < 8 && #[trigger] ((b >> k) & 1u8) != 0;
                let i = 8 * j + 7 - k;
                assert(i / 8 == j && i % 8 == 7 - k);
                assert(bit(h, i) != 0);
            }
            return false;
        }
        proof {
            assert forall|i: int| 0 <= i < 8 * (j + 1) implies #[trigger] bit(h, i) == 0 by {
                if i >= 8 * j {
                    assert(i / 8 == j);
                    assert(((b >> ((7 - i % 8) as u8)) & 1u8) == 0);
                }
            }
        }
        j = j + 1;
    }
    let mut t: usize = 0;
    while t < remaining_bits
        invariant
            t <= remaining_bits,
            required_bytes == prefix_zeros / 8,
            remaining_bits == prefix_zeros % 8,
            prefix_zeros <= 8 * h.len(),
            h == hash@,
            leading_bits_zero(h, 8 * required_bytes + t),
        decreases remaining_bits - t,
    {
        let b = hash[required_bytes];
        let shift = (7 - t) as u8;
        let i = 8 * required_bytes + t;
        assert(i / 8 == required_bytes && i % 8 == t);
        if (b >> shift) & 1u8 != 0 {
            assert(bit(h, i as int) != 0);
            return false;
        }
        t = t + 1;
    }
    true
}

} // verus!

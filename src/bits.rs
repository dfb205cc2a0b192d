//! Fixed-width unsigned fields packed into 64-bit words.
//!
//! A field never straddles two words: each word holds `64 / num_bits`
//! fields, lowest field in the lowest bits, and the leftover high bits of
//! a word stay unused.
use vstd::arithmetic::power2::pow2;
use vstd::bits::lemma_u64_shl_is_mul;
use vstd::prelude::*;

verus! {

/// Field widths the codec handles.
pub open spec fn valid_width(num_bits: u32) -> bool {
    4 <= num_bits <= 16
}

/// How many fields one 64-bit word holds.
pub open spec fn fields_per_word(num_bits: u32) -> nat {
    (64int / (num_bits as int)) as nat
}

/// Words needed to hold `n` fields.
pub open spec fn words_needed(n: nat, num_bits: u32) -> nat {
    ((n + fields_per_word(num_bits) - 1) / (fields_per_word(num_bits) as int)) as nat
}

/// The mask that keeps the low `num_bits` bits of a word.
pub open spec fn low_mask(num_bits: u32) -> u64 {
    vstd::prelude::sub(1u64 << (num_bits as u64), 1)
}

/// Bit position of field `index` inside its word.
pub open spec fn field_shift(num_bits: u32, index: nat) -> nat {
    (index % fields_per_word(num_bits)) * (num_bits as nat)
}

/// The value of field `index` in `words`.
pub open spec fn field_at(num_bits: u32, words: Seq<i64>, index: nat) -> u16 {
    let word = words[(index / fields_per_word(num_bits)) as int] as u64;
    ((word >> (field_shift(num_bits, index) as u64)) & low_mask(num_bits)) as u16
}

/// Whether field `index` lies inside `words`.
pub open spec fn field_in_range(num_bits: u32, words: Seq<i64>, index: nat) -> bool {
    index / fields_per_word(num_bits) < words.len()
}

/// Whether every bit of `word` from bit `t` up is zero.
pub open spec fn clear_from(word: u64, t: nat) -> bool {
    t >= 64 || word >> (t as u64) == 0
}

/// How many low bits of word `w` the first `n` fields occupy.
pub open spec fn filled_bits(num_bits: u32, w: nat, n: nat) -> nat {
    let f = fields_per_word(num_bits);
    if n <= w * f {
        0
    } else if n - w * f >= f {
        f * (num_bits as nat)
    } else {
        ((n - w * f) * (num_bits as nat)) as nat
    }
}

/// Writing a field of `nb` bits at shift `s` into a word that is zero from
/// bit `s` up leaves it zero from bit `s + nb` up.
pub proof fn lemma_word_fill(w: u64, s: u64, nb: u64, v: u64)
    requires
        4 <= nb <= 16,
        s + nb <= 64,
        w >> s == 0,
        v < (1u64 << nb),
    ensures
        s + nb >= 64 || (((w & !(vstd::prelude::sub(1u64 << nb, 1) << s)) | (v << s)) >> (s + nb)) == 0,
{
    assert(s + nb >= 64 || (((w & !(vstd::prelude::sub(1u64 << nb, 1) << s)) | (v << s)) >> (s + nb)) == 0)
        by (bit_vector)
        requires
            4 <= nb <= 16,
            s + nb <= 64,
            w >> s == 0,
            v < (1u64 << nb),
    ;
}

/// The width used for a palette of `n` entries: 4 up to 16 entries, and one
/// more bit each time the entry count passes a power of two.
pub open spec fn num_bits_for(n: nat) -> nat
    decreases n,
{
    if n <= 16 {
        4
    } else {
        1 + num_bits_for(((n + 1) / 2) as nat)
    }
}

/// The field mask of a valid width is `2^num_bits - 1`.
pub proof fn lemma_mask_is_pow2(num_bits: u32)
    requires
        valid_width(num_bits),
    ensures
        (1u64 << (num_bits as u64)) as nat == pow2(num_bits as nat),
        low_mask(num_bits) as nat == pow2(num_bits as nat) - 1,
{
    vstd::arithmetic::power2::lemma2_to64();
    lemma_u64_shl_is_mul(1u64, num_bits as u64);
    assert(1u64 << (num_bits as u64) >= 1) by (bit_vector)
        requires
            4 <= num_bits <= 16,
    ;
}

/// A word holds 4 to 16 fields, and each field lies wholly inside its
/// word at a multiple of the width.
pub proof fn lemma_field_layout(num_bits: u32, index: nat)
    requires
        valid_width(num_bits),
    ensures
        4 <= fields_per_word(num_bits) <= 16,
        field_shift(num_bits, index) + num_bits <= 64,
        field_shift(num_bits, index) % (num_bits as nat) == 0,
{
    let n = num_bits as int;
    let f = fields_per_word(num_bits) as int;
    assert(4 <= f <= 16) by {
        assert(64int / n <= 16) by (nonlinear_arith)
            requires
                4 <= n,
        ;
        assert(64int / n >= 4) by (nonlinear_arith)
            requires
                4 <= n <= 16,
        ;
    }
    let k = (index % (f as nat)) as int;
    assert(k + 1 <= f);
    assert(k * n + n == (k + 1) * n) by (nonlinear_arith);
    assert((k + 1) * n <= f * n) by (nonlinear_arith)
        requires
            k + 1 <= f,
            n >= 0,
    ;
    assert(f * n <= 64) by (nonlinear_arith)
        requires
            f == 64int / n,
            n > 0,
    ;
    assert((k * n) % n == 0) by (nonlinear_arith)
        requires
            n > 0,
    ;
}

/// Two distinct fields of one word sit at shifts that are apart by at least
/// one field width.
proof fn lemma_fields_disjoint(num_bits: u32, i: nat, j: nat)
    requires
        valid_width(num_bits),
        i != j,
        i / fields_per_word(num_bits) == j / fields_per_word(num_bits),
    ensures
        field_shift(num_bits, i) + num_bits <= field_shift(num_bits, j)
            || field_shift(num_bits, j) + num_bits <= field_shift(num_bits, i),
{
    lemma_field_layout(num_bits, i);
    let f = fields_per_word(num_bits) as int;
    let n = num_bits as int;
    let a = (i % (f as nat)) as int;
    let b = (j % (f as nat)) as int;
    assert(a != b) by {
        vstd::arithmetic::div_mod::lemma_fundamental_div_mod(i as int, f);
        vstd::arithmetic::div_mod::lemma_fundamental_div_mod(j as int, f);
    }
    if a < b {
        assert(a * n + n <= b * n) by (nonlinear_arith)
            requires
                a + 1 <= b,
                n >= 0,
        ;
    } else {
        assert(b * n + n <= a * n) by (nonlinear_arith)
            requires
                b + 1 <= a,
                n >= 0,
        ;
    }
}

proof fn lemma_word_update(w: u64, s: u64, t: u64, nb: u64, v: u64)
    requires
        4 <= nb <= 16,
        s + nb <= 64,
        t + nb <= 64,
        v < (1u64 << nb),
    ensures
        ((((w & !(vstd::prelude::sub(1u64 << nb, 1) << s)) | (v << s)) >> s) & vstd::prelude::sub(1u64 << nb, 1)) == v,
        s + nb <= t || t + nb <= s ==> ((((w & !(vstd::prelude::sub(1u64 << nb, 1) << s)) | (v << s)) >> t)
            & vstd::prelude::sub(1u64 << nb, 1)) == ((w >> t) & vstd::prelude::sub(1u64 << nb, 1)),
{
    assert(((((w & !(vstd::prelude::sub(1u64 << nb, 1) << s)) | (v << s)) >> s) & vstd::prelude::sub(1u64 << nb, 1)) == v)
        by (bit_vector)
        requires
            4 <= nb <= 16,
            s + nb <= 64,
            v < (1u64 << nb),
    ;
    assert(s + nb <= t || t + nb <= s ==> ((((w & !(vstd::prelude::sub(1u64 << nb, 1) << s)) | (v << s)) >> t)
        & vstd::prelude::sub(1u64 << nb, 1)) == ((w >> t) & vstd::prelude::sub(1u64 << nb, 1))) by (bit_vector)
        requires
            4 <= nb <= 16,
            s + nb <= 64,
            t + nb <= 64,
            v < (1u64 << nb),
    ;
}

/// The width of the fields that index a palette of `num_entries` entries:
/// the smallest `b >= 4` with `num_entries <= 2^b`.
pub fn num_data_bits(num_entries: usize) -> (r: u32)
    ensures
        r as nat == num_bits_for(num_entries as nat),
        4 <= r <= 64,
{
    let n = num_entries as u128;
    let mut bits: u32 = 4;
    let mut cap: u128 = 16;
    proof {
        vstd::arithmetic::power2::lemma2_to64();
        lemma_bits_for_least(num_entries as nat);
    }
    while cap < n
        invariant
            4 <= bits,
            cap as nat == pow2(bits as nat),
            n as nat <= u64::MAX,
            n == num_entries as u128,
            num_bits_for(n as nat) >= bits,
            (n as nat) <= pow2(num_bits_for(n as nat)),
            num_bits_for(n as nat) == 4 || pow2((num_bits_for(n as nat) - 1) as nat) < n as nat,
        decreases num_bits_for(n as nat) - bits,
    {
        proof {
            vstd::arithmetic::power2::lemma2_to64();
            let b = num_bits_for(n as nat);
            if b == bits {
                assert(false);
            }
            if b > 65 {
                vstd::arithmetic::power2::lemma_pow2_strictly_increases(64, (b - 1) as nat);
            }
            if bits < 64 {
                vstd::arithmetic::power2::lemma_pow2_strictly_increases(bits as nat, 64);
            }
            vstd::arithmetic::power2::lemma_pow2_unfold((bits + 1) as nat);
        }
        cap = cap * 2;
        bits = bits + 1;
    }
    proof {
        let b = num_bits_for(n as nat);
        if b > bits {
            if bits < (b - 1) as nat {
                vstd::arithmetic::power2::lemma_pow2_strictly_increases(bits as nat, (b - 1) as nat);
            }
        }
        if b > 64 {
            vstd::arithmetic::power2::lemma_pow2_strictly_increases(64, (b - 1) as nat);
        }
    }
    bits
}

/// `num_bits_for(n)` is the least width of at least 4 whose range holds `n`
/// entries.
pub proof fn lemma_bits_for_least(n: nat)
    ensures
        num_bits_for(n) >= 4,
        n <= pow2(num_bits_for(n)),
        num_bits_for(n) == 4 || pow2((num_bits_for(n) - 1) as nat) < n,
    decreases n,
{
    vstd::arithmetic::power2::lemma2_to64();
    if n > 16 {
        let h = ((n + 1) / 2) as nat;
        lemma_bits_for_least(h);
        let b = num_bits_for(h);
        vstd::arithmetic::power2::lemma_pow2_unfold(b + 1);
        if b > 4 {
            vstd::arithmetic::power2::lemma_pow2_unfold(b);
        }
    }
}

/// The width never shrinks as the palette grows.
pub proof fn lemma_bits_for_monotonic(n: nat, m: nat)
    requires
        n <= m,
    ensures
        num_bits_for(n) <= num_bits_for(m),
    decreases m,
{
    if n > 16 {
        lemma_bits_for_monotonic(((n + 1) / 2) as nat, ((m + 1) / 2) as nat);
    } else if m > 16 {
        lemma_bits_for_least(((m + 1) / 2) as nat);
    }
}

/// Palettes of 1 to 16 entries use 4 bits, of 17 to 32 entries 5 bits.
pub proof fn lemma_bits_for_small(n: nat)
    ensures
        1 <= n <= 16 ==> num_bits_for(n) == 4,
        17 <= n <= 32 ==> num_bits_for(n) == 5,
{
    if 17 <= n <= 32 {
        assert(num_bits_for(((n + 1) / 2) as nat) == 4);
    }
}

/// Reads field `index` of `data`.
pub fn get_data(num_bits: u32, data: &Vec<i64>, index: usize) -> (r: u16)
    requires
        valid_width(num_bits),
        field_in_range(num_bits, data@, index as nat),
    ensures
        r == field_at(num_bits, data@, index as nat),
        (r as nat) < pow2(num_bits as nat),
{
    proof {
        lemma_field_layout(num_bits, index as nat);
        lemma_mask_is_pow2(num_bits);
    }
    let elements_per_long = (64 / num_bits) as usize;
    #[verifier::truncate]
    let long_val = data[index / elements_per_long] as u64;
    let element_index = index % elements_per_long;
    let shift = (element_index as u64) * (num_bits as u64);
    let mask: u64 = (1u64 << (num_bits as u64)) - 1;
    let val = (long_val >> shift) & mask;
    proof {
        assert(val <= mask) by (bit_vector)
            requires
                val == (long_val >> shift) & mask,
        ;
    }
    val as u16
}

/// Writes `val` into field `index` of `data`, leaving every other field as
/// it was.
pub fn set_data(num_bits: u32, data: &mut Vec<i64>, index: usize, val: u16)
    requires
        valid_width(num_bits),
        field_in_range(num_bits, old(data)@, index as nat),
        (val as nat) < pow2(num_bits as nat),
    ensures
        final(data)@.len() == old(data)@.len(),
        field_at(num_bits, final(data)@, index as nat) == val,
        forall|j: nat|
            j != index && field_in_range(num_bits, old(data)@, j) ==> #[trigger] field_at(
                num_bits,
                final(data)@,
                j,
            ) == field_at(num_bits, old(data)@, j),
        forall|w: int|
            0 <= w < old(data)@.len() && w != (index as nat) / fields_per_word(num_bits) ==> #[trigger] final(data)@[w]
                == old(data)@[w],
        final(data)@[((index as nat) / fields_per_word(num_bits)) as int] as u64 == ((old(data)@[((index as nat)
            / fields_per_word(num_bits)) as int] as u64) & !(low_mask(num_bits) << (field_shift(num_bits, index as nat) as u64)))
            | ((val as u64) << (field_shift(num_bits, index as nat) as u64)),
{
    proof {
        lemma_field_layout(num_bits, index as nat);
        lemma_mask_is_pow2(num_bits);
    }
    let elements_per_long = (64 / num_bits) as usize;
    let data_index = index / elements_per_long;
    #[verifier::truncate]
    let old_long = data[data_index] as u64;
    let shift = ((index % elements_per_long) as u64) * (num_bits as u64);
    let nb = num_bits as u64;
    let mask: u64 = ((1u64 << nb) - 1) << shift;
    let long_val = (old_long & !mask) | ((val as u64) << shift);
    #[verifier::truncate]
    let stored = long_val as i64;
    data.set(data_index, stored);
    proof {
        let v = val as u64;
        lemma_word_update(old_long, shift, shift, nb, v);
        assert(stored as u64 == long_val) by (bit_vector)
            requires
                stored == long_val as i64,
        ;
        assert forall|j: nat|
            j != index && field_in_range(num_bits, old(data)@, j) implies #[trigger] field_at(
                num_bits,
                data@,
                j,
            ) == field_at(num_bits, old(data)@, j) by {
            if j / fields_per_word(num_bits) == data_index as nat {
                lemma_field_layout(num_bits, j);
                lemma_fields_disjoint(num_bits, index as nat, j);
                lemma_word_update(old_long, shift, field_shift(num_bits, j) as u64, nb, v);
            }
        }
    }
}

} // verus!

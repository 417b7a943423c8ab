//! Address alignment and register bit helpers.

use vstd::prelude::*;
use vstd::arithmetic::power2::{pow2, lemma_pow2_strictly_increases, lemma2_to64};
use vstd::arithmetic::div_mod::{lemma_fundamental_div_mod, lemma_fundamental_div_mod_converse};
use vstd::bits::{low_bits_mask, lemma_usize_low_bits_mask_is_mod, lemma_usize_pow2_no_overflow};

verus! {

/// `x` is `2^k` for some natural number `k`.
pub open spec fn power_of_two(x: int) -> bool {
    exists|k: nat| pow2(k) == x
}

/// The largest multiple of `align` that is not above `addr` (for `align > 0`).
pub open spec fn round_down(addr: int, align: int) -> int {
    addr - addr % align
}

/// The smallest multiple of `align` that is not below `addr` (for
/// `align > 0`), as rounding `addr + align - 1` down.
pub open spec fn round_up(addr: int, align: int) -> int {
    round_down(addr + align - 1, align)
}

/// Law: rounding down and up bracket the address; either leaves it as it is
/// exactly when it is a multiple of `align`; rounding up twice is rounding
/// up once, and so is rounding down.
pub proof fn lemma_round_laws(addr: int, align: int)
    requires
        addr >= 0,
        align > 0,
    ensures
        round_down(addr, align) <= addr <= round_up(addr, align),
        round_up(addr, align) < addr + align,
        (round_down(addr, align) == addr) == (addr % align == 0),
        (round_up(addr, align) == addr) == (addr % align == 0),
        round_up(round_up(addr, align), align) == round_up(addr, align),
        round_down(round_down(addr, align), align) == round_down(addr, align),
        round_up(addr, align) % align == 0,
        round_down(addr, align) % align == 0,
{
    let x = addr + align - 1;
    let u = round_up(addr, align);
    let d = round_down(addr, align);
    lemma_fundamental_div_mod(x, align);
    lemma_fundamental_div_mod(addr, align);
    let qx = x / align;
    let qa = addr / align;
    assert(u == qx * align) by {
        vstd::arithmetic::mul::lemma_mul_is_commutative(align, qx);
    }
    assert(d == qa * align) by {
        vstd::arithmetic::mul::lemma_mul_is_commutative(align, qa);
    }
    lemma_fundamental_div_mod_converse(u, align, qx, 0);
    lemma_fundamental_div_mod_converse(d, align, qa, 0);
    // A multiple of align is left as it is by both roundings.
    lemma_fundamental_div_mod_converse(u + align - 1, align, qx, align - 1);
    lemma_fundamental_div_mod_converse(d + align - 1, align, qa, align - 1);
    if addr % align == 0 {
        lemma_fundamental_div_mod_converse(x, align, qa, align - 1);
    }
}

/// `usize::is_power_of_two` from core: true exactly when the value is `2^k`
/// for some `k` (so never for zero).
pub assume_specification[ usize::is_power_of_two ](x: usize) -> (r: bool)
    ensures
        r == power_of_two(x as int),
;

/// A power of two that fits in a `usize` is `2^k` with `k` below the width,
/// and one less than it is the mask of the `k` low bits.
proof fn lemma_power_of_two_mask(align: usize) -> (k: nat)
    requires
        power_of_two(align as int),
    ensures
        k < usize::BITS,
        pow2(k) == align,
        low_bits_mask(k) == align - 1,
{
    let k = choose|k: nat| pow2(k) == align as int;
    vstd::arithmetic::power2::lemma_pow2_pos(k);
    if k >= usize::BITS {
        lemma2_to64();
        if k > usize::BITS {
            lemma_pow2_strictly_increases(usize::BITS as nat, k);
        }
    }
    k
}

/// Rounds `addr` down to a multiple of `align`; an `align` of zero leaves
/// `addr` as it is.
pub fn align_down(addr: usize, align: usize) -> (r: usize)
    requires
        align == 0 || power_of_two(align as int),
    ensures
        align == 0 ==> r == addr,
        align != 0 ==> r == round_down(addr as int, align as int),
{
    if align.is_power_of_two() {
        proof {
            let k = lemma_power_of_two_mask(align);
            lemma_usize_pow2_no_overflow(k);
            lemma_usize_low_bits_mask_is_mod(addr, k);
            let m = (align - 1) as usize;
            assert(addr & m == addr % align);
            assert(addr & !m == addr - (addr & m)) by (bit_vector);
            assert(addr & m <= addr) by (bit_vector);
        }
        addr & !(align - 1)
    } else {
        addr
    }
}

/// Rounds `addr` up to a multiple of `align`, as `align_down` of
/// `addr + align - 1`; an `align` of zero gives `addr - 1`.
pub fn align_up(addr: usize, align: usize) -> (r: usize)
    requires
        align == 0 || power_of_two(align as int),
        1 <= addr + align <= usize::MAX,
    ensures
        align == 0 ==> r == addr - 1,
        align != 0 ==> r == round_up(addr as int, align as int),
        align != 0 ==> r % align == 0 && addr <= r < addr + align,
{
    let r = align_down(addr + align - 1, align);
    proof {
        if align != 0 {
            let x = addr + align - 1;
            assert(x % (align as int) < align);
            assert(round_down(x, align as int) % (align as int) == 0) by {
                vstd::arithmetic::div_mod::lemma_fundamental_div_mod(x, align as int);
                vstd::arithmetic::div_mod::lemma_mod_multiples_basic(x / (align as int), align as int);
            }
        }
    }
    r
}

/// Bit `i` of `x` is set.
pub open spec fn bit(x: u32, i: u32) -> bool {
    (x >> i) & 1 == 1
}

/// The register value that sets the bits of `val` in `reg`, as a
/// read-modify-write that ORs them in does.
pub fn set_bits(reg: u32, val: u32) -> (r: u32)
    ensures
        forall|i: u32| i < 32 ==> (bit(r, i) <==> bit(reg, i) || bit(val, i)),
{
    let r = reg | val;
    assert forall|i: u32| i < 32 implies (bit(r, i) <==> bit(reg, i) || bit(val, i)) by {
        assert(((r >> i) & 1 == 1) <==> ((reg >> i) & 1 == 1 || (val >> i) & 1 == 1)) by (bit_vector)
            requires
                r == reg | val,
                i < 32,
        ;
    }
    r
}

/// The register value that replaces the bits of `reg` selected by `mask`
/// with those of `val` and keeps the others.
pub fn modify_bits(reg: u32, val: u32, mask: u32) -> (r: u32)
    ensures
        forall|i: u32|
            i < 32 ==> (bit(r, i) <==> if bit(mask, i) {
                bit(val, i)
            } else {
                bit(reg, i)
            }),
{
    let kept = reg & !mask;
    let r = kept | (val & mask);
    assert forall|i: u32| i < 32 implies (bit(r, i) <==> if bit(mask, i) {
        bit(val, i)
    } else {
        bit(reg, i)
    }) by {
        assert(((r >> i) & 1 == 1) <==> if (mask >> i) & 1 == 1 {
            (val >> i) & 1 == 1
        } else {
            (reg >> i) & 1 == 1
        }) by (bit_vector)
            requires
                r == (reg & !mask) | (val & mask),
                i < 32,
        ;
    }
    r
}

/// The first `len` bytes of `s1` and `s2` agree below `i` and differ at `i`.
pub open spec fn first_difference(s1: Seq<u8>, s2: Seq<u8>, len: usize, i: int) -> bool {
    &&& 0 <= i < len
    &&& s1[i] != s2[i]
    &&& forall|j: int| 0 <= j < i ==> s1[j] == s2[j]
}

/// `a - b` as a signed value.
fn byte_difference(a: u8, b: u8) -> (r: i32)
    ensures
        r == a - b,
{
    a as i32 - b as i32
}

/// Where the bytes first differ, that position is the only first
/// difference.
proof fn lemma_first_difference_unique(s1: Seq<u8>, s2: Seq<u8>, len: usize, i: usize)
    requires
        i < len,
        s1[i as int] != s2[i as int],
        forall|j: int| 0 <= j < i ==> s1[j] == s2[j],
    ensures
        forall|k: int| first_difference(s1, s2, len, k) ==> k == i && s1[k] == s1[i as int] && s2[k]
            == s2[i as int],
{
}

/// Compares the first `len` bytes of `s1` and `s2`: zero when they agree,
/// else the difference of the first pair of bytes that differ.
pub fn memcmp(s1: &[u8], s2: &[u8], len: usize) -> (r: i32)
    requires
        len <= s1@.len(),
        len <= s2@.len(),
    ensures
        (forall|j: int| 0 <= j < len ==> s1@[j] == s2@[j]) ==> r == 0,
        forall|i: int| first_difference(s1@, s2@, len, i) ==> r == s1@[i] - s2@[i],
{
    let mut i: usize = 0;
    while i < len
        invariant
            i <= len,
            len <= s1@.len(),
            len <= s2@.len(),
            forall|j: int| 0 <= j < i ==> s1@[j] == s2@[j],
        decreases len - i,
    {
        let a = s1[i];
        let b = s2[i];
        let res = byte_difference(a, b);
        if res != 0 {
            proof {
                lemma_first_difference_unique(s1@, s2@, len, i);
            }
            return res;
        }
        i = i + 1;
    }
    0
}

} // verus!

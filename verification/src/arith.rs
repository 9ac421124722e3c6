//! Page-granularity address arithmetic: the base of the page containing an
//! address, offsets within a page, and the facts about integer division that
//! the mapping proofs lean on.

use vstd::prelude::*;
use vstd::arithmetic::div_mod::{
    lemma_fundamental_div_mod, lemma_mod_bound, lemma_div_is_ordered,
    lemma_hoist_over_denominator, lemma_div_multiples_vanish,
};

verus! {

/// Size of one page and of one frame.
pub const PAGE_SIZE: u64 = 4096;

/// Base address of the page (or frame) containing `a`.
pub open spec fn page_of(a: u64) -> u64 {
    ((a as int / 4096) * 4096) as u64
}

/// Offset of `a` within its page.
pub open spec fn page_off(a: u64) -> u64 {
    (a as int % 4096) as u64
}

/// `x / d` rounded down times `d` decomposes `x`; the remainder is small.
pub proof fn lemma_div_mod_split(x: int, d: int)
    requires
        0 <= x,
        0 < d,
    ensures
        x == d * (x / d) + x % d,
        0 <= x % d < d,
        0 <= x / d,
        (x / d) * d <= x < (x / d) * d + d,
{
    lemma_fundamental_div_mod(x, d);
    lemma_mod_bound(x, d);
    assert(d * (x / d) == (x / d) * d) by (nonlinear_arith);
    if x / d < 0 {
        assert(d * (x / d) <= d * -1) by (nonlinear_arith)
            requires 0 < d && x / d <= -1;
    }
}

/// Basic facts about the containing page of an address.
pub proof fn lemma_page(a: u64)
    ensures
        page_of(a) % 4096 == 0,
        page_of(a) <= a < page_of(a) + 4096,
        page_of(a) + page_off(a) == a,
        page_of(a) / 4096 == a as int / 4096,
{
    lemma_div_mod_split(a as int, 4096);
    lemma_div_multiples_vanish(a as int / 4096, 4096);
    assert((a as int / 4096) * 4096 % 4096 == 0) by {
        vstd::arithmetic::div_mod::lemma_mod_multiples_basic(a as int / 4096, 4096);
        assert((a as int / 4096) * 4096 == 4096 * (a as int / 4096)) by (nonlinear_arith);
    }
}

/// The containing page is monotone in the address.
pub proof fn lemma_page_monotone(a: u64, b: u64)
    requires
        a <= b,
    ensures
        page_of(a) <= page_of(b),
{
    lemma_div_is_ordered(a as int, b as int, 4096);
    assert((a as int / 4096) * 4096 <= (b as int / 4096) * 4096) by (nonlinear_arith)
        requires a as int / 4096 <= b as int / 4096;
}

/// Adding any displacement to a page-aligned address decomposes into the
/// aligned part plus the displacement's own page decomposition.
pub proof fn lemma_page_aligned_add(a: u64, x: u64)
    requires
        a % 4096 == 0,
        a + x <= u64::MAX,
    ensures
        page_of((a + x) as u64) == a + page_of(x),
        page_off((a + x) as u64) == page_off(x),
{
    lemma_div_mod_split(a as int, 4096);
    lemma_div_mod_split(x as int, 4096);
    let q = a as int / 4096;
    assert(a == 4096 * q);
    lemma_hoist_over_denominator(x as int, q, 4096nat);
    assert((x as int / 4096 + q) * 4096 == (x as int / 4096) * 4096 + q * 4096)
        by (nonlinear_arith);
    assert(q * 4096 == 4096 * q) by (nonlinear_arith);
    vstd::arithmetic::div_mod::lemma_mod_multiples_vanish(q, x as int, 4096);
}

/// Two page-aligned addresses less than one page apart are equal.
pub proof fn lemma_aligned_unique(a: u64, b: u64)
    requires
        a % 4096 == 0,
        b % 4096 == 0,
        a <= b < a + 4096,
    ensures
        a == b,
{
    lemma_div_mod_split(a as int, 4096);
    lemma_div_mod_split(b as int, 4096);
    vstd::arithmetic::div_mod::lemma_sub_mod_noop(b as int, a as int, 4096);
    vstd::arithmetic::div_mod::lemma_small_mod((b - a) as nat, 4096nat);
    assert((b - a) % 4096 == 0);
}

/// Page-align an address downward.
pub fn align_down(a: u64) -> (r: u64)
    ensures
        r == page_of(a),
        r % 4096 == 0,
        r <= a,
{
    proof {
        lemma_page(a);
    }
    a / 4096 * 4096
}

/// An address within one page width above a page base lies in that page.
pub proof fn lemma_page_of_interior(lo: u64, a: u64)
    requires
        page_of(lo) <= a < page_of(lo) + 4096,
    ensures
        page_of(a) == page_of(lo),
        page_off(a) == a - page_of(lo),
{
    lemma_page(lo);
    let q = lo as int / 4096;
    assert(q * 4096 == 4096 * q) by (nonlinear_arith);
    vstd::arithmetic::div_mod::lemma_fundamental_div_mod_converse(
        a as int, 4096, q, a - q * 4096);
    assert(page_of(a) == (a as int / 4096) * 4096);
    assert((a as int / 4096) * 4096 == q * 4096) by (nonlinear_arith)
        requires a as int / 4096 == q;
}

} // verus!

//! Which of the 512 top-level (level-4) page-table slots the kernel's
//! `PT_LOAD` segments cover.  Downstream boot code avoids these when placing
//! stacks, boot information and the physical-memory mapping.

use vstd::prelude::*;
use crate::elf::{Phdr, PT_LOAD};
use crate::arith::lemma_div_mod_split;
use vstd::arithmetic::div_mod::{lemma_div_is_ordered, lemma_div_multiples_vanish,
    lemma_fundamental_div_mod_converse};

verus! {

/// Bytes of virtual address space covered by one top-level slot.
pub const L4_SPAN: u64 = 0x80_0000_0000;

/// Index of the 512 GiB region containing `va`, before folding into the
/// 512 top-level slots.
pub open spec fn q_of(va: u64) -> int {
    va as int / 0x80_0000_0000
}

/// Top-level page-table slot covering `va`.
pub open spec fn l4_index(va: u64) -> int {
    q_of(va) % 512
}

/// Segment `ph` puts at least one byte under top-level slot `i`.
pub open spec fn seg_covers_l4(ph: Phdr, voff: u64, i: int) -> bool {
    &&& ph.ptype == PT_LOAD
    &&& ph.memsz > 0
    &&& exists|va: u64| ph.vaddr + voff <= va < ph.vaddr + voff + ph.memsz
        && #[trigger] l4_index(va) == i
}

/// Some `PT_LOAD` segment puts a byte under top-level slot `i`.
pub open spec fn covers(phs: Seq<Phdr>, voff: u64, i: int) -> bool {
    exists|k: int| 0 <= k < phs.len() && #[trigger] seg_covers_l4(phs[k], voff, i)
}

/// The top-level usage summary: one bit per level-4 slot.
pub struct UsedLevel4Entries {
    entries: Vec<bool>,
}

impl View for UsedLevel4Entries {
    type V = Seq<bool>;

    closed spec fn view(&self) -> Seq<bool> {
        self.entries@
    }
}

impl UsedLevel4Entries {
    pub open spec fn wf(&self) -> bool {
        self@.len() == 512
    }

    /// Whether slot `i` is occupied by the kernel.
    pub fn get(&self, i: usize) -> (r: bool)
        requires
            self.wf(),
            i < 512,
        ensures
            r == self@[i as int],
    {
        self.entries[i]
    }
}

/// Every region index between those of two ordered addresses is hit by some
/// address in between.
proof fn lemma_q_witness(s: u64, e: u64, q: int)
    requires
        s <= e,
        q_of(s) <= q <= q_of(e),
    ensures
        exists|va: u64| s <= va <= e && #[trigger] q_of(va) == q,
{
    lemma_div_mod_split(s as int, 0x80_0000_0000);
    lemma_div_mod_split(e as int, 0x80_0000_0000);
    if q == q_of(s) {
        assert(q_of(s) == q);
        assert(s <= s <= e && q_of(s) == q);
    } else {
        // q > q_of(s): the region base q * L4_SPAN lies inside [s, e].
        let va_i = q * 0x80_0000_0000;
        assert((q_of(s) + 1) * 0x80_0000_0000 <= va_i) by (nonlinear_arith)
            requires q_of(s) + 1 <= q && va_i == q * 0x80_0000_0000;
        assert((q_of(s) + 1) * 0x80_0000_0000 == q_of(s) * 0x80_0000_0000 + 0x80_0000_0000)
            by (nonlinear_arith);
        assert(s < va_i);
        assert(va_i <= q_of(e) * 0x80_0000_0000) by (nonlinear_arith)
            requires q <= q_of(e) && va_i == q * 0x80_0000_0000;
        assert(va_i <= e);
        let va = va_i as u64;
        lemma_div_multiples_vanish(q, 0x80_0000_0000);
        assert(q * 0x80_0000_0000 == 0x80_0000_0000 * q) by (nonlinear_arith);
        assert(q_of(va) == (q * 0x80_0000_0000) / 0x80_0000_0000);
        assert(q_of(va) == q);
        assert(s <= va <= e && q_of(va) == q);
    }
}

/// Among any 512 consecutive region indices every slot index occurs.
proof fn lemma_residue_witness(qs: int, i: int)
    requires
        0 <= qs,
        0 <= i < 512,
    ensures
        exists|q: int| qs <= q < qs + 512 && #[trigger] (q % 512) == i,
{
    lemma_div_mod_split(qs, 512);
    let r = qs % 512;
    let m = qs / 512;
    let d0: int = if i >= r { i - r } else { i - r + 512 };
    let q = qs + d0;
    assert(0 <= d0 < 512);
    if i >= r {
        assert(q == 512 * m + i);
        lemma_fundamental_div_mod_converse(q, 512, m, i);
    } else {
        assert(q == 512 * (m + 1) + i) by {
            assert(qs == 512 * m + r);
        }
        lemma_fundamental_div_mod_converse(q, 512, m + 1, i);
    }
    assert(q % 512 == i);
    assert(qs <= q < qs + 512 && (q % 512) == i);
}

/// Compute the usage summary for a program-header table.
pub fn used_level_4_entries(phs: &Vec<Phdr>, voff: u64) -> (u: UsedLevel4Entries)
    requires
        forall|k: int| 0 <= k < phs@.len() && phs@[k].ptype == PT_LOAD
            ==> (#[trigger] phs@[k]).vaddr + voff + phs@[k].memsz <= u64::MAX,
    ensures
        u.wf(),
        forall|i: int| 0 <= i < 512 ==> ((#[trigger] u@[i]) <==> covers(phs@, voff, i)),
{
    let mut e: Vec<bool> = Vec::new();
    let mut z: usize = 0;
    while z < 512
        invariant
            e@.len() == z,
            z <= 512,
            forall|i: int| 0 <= i < z ==> !(#[trigger] e@[i]),
        decreases 512 - z,
    {
        e.push(false);
        z += 1;
    }
    let n = phs.len();
    let mut k: usize = 0;
    while k < n
        invariant
            forall|t: int| 0 <= t < phs@.len() && phs@[t].ptype == PT_LOAD
                ==> (#[trigger] phs@[t]).vaddr + voff + phs@[t].memsz <= u64::MAX,
            n == phs@.len(),
            k <= n,
            e@.len() == 512,
            forall|i: int| 0 <= i < 512 ==> ((#[trigger] e@[i])
                <==> covers(phs@.take(k as int), voff, i)),
        decreases n - k,
    {
        let ph = phs[k];
        let ghost pre = e@;
        if ph.ptype == PT_LOAD && ph.memsz > 0 {
            let s: u64 = ph.vaddr + voff;
            let last: u64 = s + (ph.memsz - 1);
            let qs: u64 = s / L4_SPAN;
            let qe: u64 = last / L4_SPAN;
            proof {
                lemma_div_is_ordered(s as int, last as int, 0x80_0000_0000);
            }
            let diff: u64 = qe - qs;
            if diff >= 512 {
                let mut j: usize = 0;
                while j < 512
                    invariant
                        e@.len() == 512,
                        j <= 512,
                        forall|i: int| 0 <= i < j ==> (#[trigger] e@[i]),
                        forall|i: int| j <= i < 512 ==> (#[trigger] e@[i]) == pre[i],
                    decreases 512 - j,
                {
                    e[j] = true;
                    j += 1;
                }
                proof {
                    assert forall|i: int| 0 <= i < 512 implies
                        seg_covers_l4(phs@[k as int], voff, i) by {
                        lemma_residue_witness(qs as int, i);
                        let q = choose|q: int| qs <= q < qs + 512 && #[trigger] (q % 512) == i;
                        assert(q <= qe);
                        lemma_q_witness(s, last, q);
                        let va = choose|va: u64| s <= va <= last && #[trigger] q_of(va) == q;
                        assert(l4_index(va) == i);
                        assert(ph.vaddr + voff <= va < ph.vaddr + voff + ph.memsz);
                    }
                }
            } else {
                let mut c: u64 = 0;
                while c < diff + 1
                    invariant
                        diff <= 511,
                        qs + diff <= u64::MAX,
                        e@.len() == 512,
                        c <= diff + 1,
                        forall|i: int| 0 <= i < 512 ==> ((#[trigger] e@[i]) <==> (pre[i]
                            || exists|q: int| qs <= q < qs + c
                                && #[trigger] (q % 512) == i)),
                    decreases diff + 1 - c,
                {
                    let q: u64 = qs + c;
                    proof {
                        lemma_div_mod_split(q as int, 512);
                    }
                    let idx: usize = (q % 512) as usize;
                    let ghost before = e@;
                    e[idx] = true;
                    proof {
                        assert forall|i: int| 0 <= i < 512 implies ((#[trigger] e@[i])
                            <==> (pre[i] || exists|q2: int| qs <= q2 < qs + c + 1
                                && #[trigger] (q2 % 512) == i)) by {
                            if i == idx {
                                assert(q as int % 512 == i);
                                assert(qs <= q && (q as int) < qs + c + 1);
                            } else {
                                assert(e@[i] == before[i]);
                                if exists|q2: int| qs <= q2 < qs + c + 1
                                    && #[trigger] (q2 % 512) == i {
                                    let q2 = choose|q2: int| qs <= q2 < qs + c + 1
                                        && #[trigger] (q2 % 512) == i;
                                    assert(q2 != q as int);
                                    assert(qs <= q2 < qs + c);
                                }
                            }
                        }
                    }
                    c += 1;
                }
                proof {
                    assert forall|i: int| 0 <= i < 512 implies ((#[trigger] e@[i])
                        <==> (pre[i] || seg_covers_l4(phs@[k as int], voff, i))) by {
                        if e@[i] && !pre[i] {
                            let q = choose|q: int| qs <= q < qs + diff + 1
                                && #[trigger] (q % 512) == i;
                            assert(q <= qe);
                            lemma_q_witness(s, last, q);
                            let va = choose|va: u64| s <= va <= last
                                && #[trigger] q_of(va) == q;
                            assert(l4_index(va) == i);
                            assert(ph.vaddr + voff <= va < ph.vaddr + voff + ph.memsz);
                            assert(seg_covers_l4(phs@[k as int], voff, i));
                        }
                        if seg_covers_l4(phs@[k as int], voff, i) {
                            let va = choose|va: u64| ph.vaddr + voff <= va
                                < ph.vaddr + voff + ph.memsz && #[trigger] l4_index(va) == i;
                            lemma_div_is_ordered(s as int, va as int, 0x80_0000_0000);
                            lemma_div_is_ordered(va as int, last as int, 0x80_0000_0000);
                            assert(qs <= q_of(va) <= qe);
                            assert(qs <= q_of(va) < qs + diff + 1
                                && (q_of(va) % 512) == i);
                        }
                    }
                }
            }
        }
        proof {
            assert(phs@.take(k as int + 1).len() == k + 1);
            assert forall|i: int| 0 <= i < 512 implies ((#[trigger] e@[i])
                <==> covers(phs@.take(k as int + 1), voff, i)) by {
                assert(phs@.take(k as int + 1)[k as int] == phs@[k as int]);
                assert(forall|t: int| 0 <= t < k ==>
                    phs@.take(k as int + 1)[t] == phs@.take(k as int)[t]);
                if e@[i] {
                    if pre[i] {
                        assert(covers(phs@.take(k as int), voff, i));
                        let t = choose|t: int| 0 <= t < phs@.take(k as int).len()
                            && #[trigger] seg_covers_l4(phs@.take(k as int)[t], voff, i);
                        assert(seg_covers_l4(phs@.take(k as int + 1)[t], voff, i));
                    } else {
                        assert(seg_covers_l4(phs@.take(k as int + 1)[k as int], voff, i));
                    }
                }
                if covers(phs@.take(k as int + 1), voff, i) {
                    let t = choose|t: int| 0 <= t < phs@.take(k as int + 1).len()
                        && #[trigger] seg_covers_l4(phs@.take(k as int + 1)[t], voff, i);
                    if t < k {
                        assert(seg_covers_l4(phs@.take(k as int)[t], voff, i));
                        assert(covers(phs@.take(k as int), voff, i));
                    } else {
                        assert(seg_covers_l4(phs@[k as int], voff, i));
                    }
                }
            }
        }
        k += 1;
    }
    proof {
        assert(phs@.take(n as int) =~= phs@);
    }
    UsedLevel4Entries { entries: e }
}

} // verus!

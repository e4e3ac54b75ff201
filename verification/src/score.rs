//! Confidence propagation and the cluster selection order.
//!
//! Confidence is a bounded integer trust score: four fifths of the weakest
//! parent's confidence plus one fifth of `100 / (1 + delay-in-seconds)`,
//! rounded to the nearest integer and clamped to `[0, 100]`. Delays are
//! carried in milliseconds, so the whole computation is exact integer
//! arithmetic over `1000 + delay`.
//!
//! Cluster selection ranks blocks by the score `confidence / (1 + delay)`,
//! compared exactly by cross-multiplication, with ties broken by insertion
//! order so that the selection order is a strict total order.

use vstd::prelude::*;
use vstd::arithmetic::div_mod::lemma_fundamental_div_mod;
use vstd::set_lib::{lemma_int_range, lemma_len_subset, lemma_map_size, lemma_subset_equality, set_int_range};
use vstd::relations::injective_on;
use crate::types::{Block, BlockV};

verus! {

/// The delay-driven adjustment term of the confidence formula, for a delay
/// of `d` milliseconds: one fifth of `100000 / (1000 + d)`, rounded down.
pub open spec fn delay_term(d: int) -> int {
    20000int / (1000 + d)
}

/// The confidence a block earns on validation, from the minimum confidence
/// `pc` of its parents and its measured delay `d` in milliseconds:
/// `0.8 * pc + 0.2 * 100 * 1000 / (1000 + d)`, rounded to the nearest
/// integer (half up) and clamped to at most 100.
pub open spec fn confidence_formula(pc: int, d: int) -> int {
    let num = 8 * pc * (1000 + d) + 200000;
    let den = 10 * (1000 + d);
    let rounded = (2 * num + den) / (2 * den);
    if rounded <= 100 {
        rounded
    } else {
        100
    }
}

/// Computes the confidence formula in exact integer arithmetic.
pub fn compute_confidence(parent_confidence: u8, network_delay: u64) -> (r: u8)
    requires
        parent_confidence <= 100,
    ensures
        r == confidence_formula(parent_confidence as int, network_delay as int),
        r <= 100,
{
    let pc = parent_confidence as u128;
    let d = network_delay as u128;
    proof {
        assert(8 * pc * (1000 + d) <= 800 * (1000 + u64::MAX as int)) by (nonlinear_arith)
            requires
                pc <= 100,
                d <= u64::MAX as int,
        ;
    }
    let num: u128 = 8 * pc * (1000 + d) + 200000;
    let den: u128 = 10 * (1000 + d);
    let rounded: u128 = (2 * num + den) / (2 * den);
    proof {
        lemma_confidence_formula_bounds(pc as int, d as int);
    }
    if rounded <= 100 {
        rounded as u8
    } else {
        100
    }
}

/// The confidence formula stays within `[0, 100]`, never exceeds the
/// weakest parent's confidence by more than the delay-driven adjustment
/// term (up to the rounding unit), and never exceeds its zero-delay value:
/// the adjustment is largest, `round(0.8 * pc + 20)`, when no delay was
/// measured.
pub proof fn lemma_confidence_formula_bounds(pc: int, d: int)
    requires
        0 <= pc <= 100,
        0 <= d,
    ensures
        0 <= confidence_formula(pc, d) <= 100,
        confidence_formula(pc, d) <= pc + delay_term(d) + 1,
        confidence_formula(pc, d) <= confidence_formula(pc, 0),
{
    let den0 = 1000 + d;
    let num = 8 * pc * den0 + 200000;
    let den = 10 * den0;
    let x = 2 * num + den;
    let y = 2 * den;
    let r0 = x / y;
    let q = 20000int / den0;
    lemma_fundamental_div_mod(20000, den0);
    let rem = 20000int % den0;
    lemma_fundamental_div_mod(x, y);
    let m = x % y;
    // x is nonnegative, so its quotient by the positive y is nonnegative
    assert(x >= 0) by (nonlinear_arith)
        requires
            x == 2 * (8 * pc * den0 + 200000) + 10 * den0,
            pc >= 0,
            den0 > 0,
    ;
    assert(r0 >= 0) by (nonlinear_arith)
        requires
            x == y * r0 + m,
            0 <= m < y,
            y > 0,
            x >= 0,
    ;
    // x < (pc + q + 2) * y, so the quotient is at most pc + q + 1
    assert(x < (pc + q + 2) * y) by (nonlinear_arith)
        requires
            x == 2 * (8 * pc * den0 + 200000) + 10 * den0,
            y == 20 * den0,
            20000 == den0 * q + rem,
            0 <= rem < den0,
            den0 > 0,
            pc >= 0,
    ;
    assert(r0 <= pc + q + 1) by (nonlinear_arith)
        requires
            x == y * r0 + m,
            0 <= m < y,
            y > 0,
            x < (pc + q + 2) * y,
    ;
    // at zero delay the rounded value is exactly (16 * pc + 410) / 20, and
    // any measured delay only lowers the quotient
    let qz = (16 * pc + 410) / 20;
    vstd::arithmetic::div_mod::lemma_div_multiples_vanish_quotient(1000, 16 * pc + 410, 20);
    assert((1000 * (16 * pc + 410)) / (1000int * 20) == qz);
    assert(1000 * (16 * pc + 410) == 2 * (8 * pc * 1000 + 200000) + 10 * 1000) by (nonlinear_arith);
    assert((2 * (8 * pc * (1000int + 0) + 200000) + 10 * (1000int + 0)) / (2 * (10 * (1000int + 0))) == qz);
    lemma_fundamental_div_mod(16 * pc + 410, 20);
    assert(16 * pc + 410 < 20 * (qz + 1));
    assert(x <= (16 * pc + 410) * den0) by (nonlinear_arith)
        requires
            x == 2 * (8 * pc * den0 + 200000) + 10 * den0,
            den0 >= 1000,
    ;
    assert(x < (qz + 1) * y) by (nonlinear_arith)
        requires
            x <= (16 * pc + 410) * den0,
            16 * pc + 410 < 20 * (qz + 1),
            y == 20 * den0,
            den0 > 0,
    ;
    assert(r0 <= qz) by (nonlinear_arith)
        requires
            x == y * r0 + m,
            0 <= m < y,
            y > 0,
            x < (qz + 1) * y,
    ;
}

/// Score comparison of two blocks, exact over the rational scores
/// `confidence / (1000 + delay)`: compared by cross-multiplication.
pub open spec fn score_gt(a: BlockV, b: BlockV) -> bool {
    a.confidence * (1000 + b.network_delay) > b.confidence * (1000 + a.network_delay)
}

/// The two blocks have exactly equal scores.
pub open spec fn score_eq(a: BlockV, b: BlockV) -> bool {
    a.confidence * (1000 + b.network_delay) == b.confidence * (1000 + a.network_delay)
}

/// The strict total selection order: a higher score comes first, and among
/// equal scores the block inserted earlier comes first.
pub open spec fn beats(a: BlockV, ai: int, b: BlockV, bi: int) -> bool {
    score_gt(a, b) || (score_eq(a, b) && ai < bi)
}

/// Compares two blocks, at their insertion positions, in the selection
/// order.
pub fn beats_exec(a: &Block, ai: usize, b: &Block, bi: usize) -> (r: bool)
    ensures
        r == beats(a@, ai as int, b@, bi as int),
{
    proof {
        assert((a.confidence as int) * (1000 + b.network_delay as int) <= 255 * (1000
            + u64::MAX as int)) by (nonlinear_arith)
            requires
                a.confidence <= 255,
                b.network_delay <= u64::MAX as int,
        ;
        assert((b.confidence as int) * (1000 + a.network_delay as int) <= 255 * (1000
            + u64::MAX as int)) by (nonlinear_arith)
            requires
                b.confidence <= 255,
                a.network_delay <= u64::MAX as int,
        ;
    }
    let left = (a.confidence as u128) * (1000 + b.network_delay as u128);
    let right = (b.confidence as u128) * (1000 + a.network_delay as u128);
    if left > right {
        true
    } else if left == right {
        ai < bi
    } else {
        false
    }
}

/// The selection order is transitive.
pub proof fn lemma_beats_trans(a: BlockV, ai: int, b: BlockV, bi: int, c: BlockV, ci: int)
    requires
        beats(a, ai, b, bi),
        beats(b, bi, c, ci),
    ensures
        beats(a, ai, c, ci),
{
    let av = a.confidence as int;
    let bv = b.confidence as int;
    let cv = c.confidence as int;
    let ax = 1000 + a.network_delay as int;
    let bx = 1000 + b.network_delay as int;
    let cx = 1000 + c.network_delay as int;
    if score_gt(a, b) && score_gt(b, c) {
        assert(av * cx > cv * ax) by (nonlinear_arith)
            requires
                av * bx > bv * ax,
                bv * cx > cv * bx,
                ax > 0,
                bx > 0,
                cx > 0,
        ;
    } else if score_gt(a, b) && score_eq(b, c) {
        assert(av * cx > cv * ax) by (nonlinear_arith)
            requires
                av * bx > bv * ax,
                bv * cx == cv * bx,
                ax > 0,
                bx > 0,
                cx > 0,
        ;
    } else if score_eq(a, b) && score_gt(b, c) {
        assert(av * cx > cv * ax) by (nonlinear_arith)
            requires
                av * bx == bv * ax,
                bv * cx > cv * bx,
                ax > 0,
                bx > 0,
                cx > 0,
        ;
    } else {
        assert(av * cx == cv * ax) by (nonlinear_arith)
            requires
                av * bx == bv * ax,
                bv * cx == cv * bx,
                ax > 0,
                bx > 0,
                cx > 0,
        ;
    }
}

/// Any two distinct positions are ordered one way or the other.
pub proof fn lemma_beats_total(a: BlockV, ai: int, b: BlockV, bi: int)
    requires
        ai != bi,
    ensures
        beats(a, ai, b, bi) || beats(b, bi, a, ai),
        !(beats(a, ai, b, bi) && beats(b, bi, a, ai)),
{
}

/// The indices of the blocks that outrank block `i` in the selection order.
pub open spec fn rank_set(s: Seq<BlockV>, i: int) -> Set<int> {
    Set::new(|j: int| 0 <= j < s.len() && beats(s[j], j, s[i], i))
}

/// How many blocks outrank block `i`: its position in the selection order.
pub open spec fn rank(s: Seq<BlockV>, i: int) -> int {
    rank_set(s, i).len() as int
}

/// The rank set is finite and, for a block in range, properly below the
/// block count.
pub proof fn lemma_rank_in_range(s: Seq<BlockV>, i: int)
    requires
        0 <= i < s.len(),
    ensures
        rank_set(s, i).finite(),
        0 <= rank(s, i) < s.len(),
{
    let rs = rank_set(s, i);
    let full = set_int_range(0, s.len() as int);
    lemma_int_range(0, s.len() as int);
    assert(rs.subset_of(full.remove(i)));
    lemma_len_subset(rs, full.remove(i));
    assert(full.remove(i).len() == s.len() - 1);
}

/// The rank embeds the selection order: a block that beats another has the
/// strictly smaller rank.
pub proof fn lemma_rank_embeds(s: Seq<BlockV>, i: int, j: int)
    requires
        0 <= i < s.len(),
        0 <= j < s.len(),
        beats(s[i], i, s[j], j),
    ensures
        rank(s, i) < rank(s, j),
{
    lemma_rank_in_range(s, i);
    lemma_rank_in_range(s, j);
    assert forall|w: int| rank_set(s, i).contains(w) implies rank_set(s, j).contains(w) by {
        lemma_beats_trans(s[w], w, s[i], i, s[j], j);
    }
    assert(!rank_set(s, i).contains(i));
    assert(rank_set(s, j).contains(i));
    assert(rank_set(s, i).insert(i).subset_of(rank_set(s, j)));
    lemma_len_subset(rank_set(s, i).insert(i), rank_set(s, j));
    assert(rank_set(s, i).insert(i).len() == rank(s, i) + 1);
}

/// Distinct blocks have distinct ranks.
pub proof fn lemma_rank_injective(s: Seq<BlockV>, i: int, j: int)
    requires
        0 <= i < s.len(),
        0 <= j < s.len(),
        i != j,
    ensures
        rank(s, i) != rank(s, j),
{
    lemma_beats_total(s[i], i, s[j], j);
    if beats(s[i], i, s[j], j) {
        lemma_rank_embeds(s, i, j);
    } else {
        lemma_rank_embeds(s, j, i);
    }
}

/// The ranks of the blocks are exactly the positions `0, ..., n-1`: the
/// selection order lines the blocks up with no gap and no tie. Hence, for
/// any cut `k`, exactly `min(k, n)` blocks have a rank below `k`.
pub proof fn lemma_rank_cut_size(s: Seq<BlockV>, k: int)
    requires
        k >= 0,
    ensures
        Set::new(|i: int| 0 <= i < s.len() && rank(s, i) < k).len() == if k <= s.len() {
            k
        } else {
            s.len() as int
        },
{
    let n = s.len() as int;
    let f = |i: int| rank(s, i);
    let full = set_int_range(0, n);
    lemma_int_range(0, n);
    assert(injective_on(f, full)) by {
        assert forall|x1: int, x2: int|
            full.contains(x1) && full.contains(x2) && #[trigger] f(x1) == #[trigger] f(
                x2,
            ) implies x1 == x2 by {
            if x1 != x2 {
                lemma_rank_injective(s, x1, x2);
            }
        }
    }
    let image = full.map(f);
    lemma_map_size(full, image, f);
    assert(image.subset_of(full)) by {
        assert forall|r: int| image.contains(r) implies full.contains(r) by {
            let i = choose|i: int| full.contains(i) && r == f(i);
            lemma_rank_in_range(s, i);
        }
    }
    lemma_subset_equality(image, full);
    // the indices below the cut map bijectively onto the ranks below the cut
    let cut = Set::new(|i: int| 0 <= i < n && rank(s, i) < k);
    let low = set_int_range(0, if k <= n { k } else { n });
    lemma_int_range(0, if k <= n { k } else { n });
    assert(cut.subset_of(full));
    vstd::set_lib::lemma_set_subset_finite(full, cut);
    assert(injective_on(f, cut)) by {
        assert forall|x1: int, x2: int|
            cut.contains(x1) && cut.contains(x2) && #[trigger] f(x1) == #[trigger] f(
                x2,
            ) implies x1 == x2 by {
            if x1 != x2 {
                lemma_rank_injective(s, x1, x2);
            }
        }
    }
    assert(cut.map(f) =~= low) by {
        assert forall|r: int| cut.map(f).contains(r) implies low.contains(r) by {
            let i = choose|i: int| cut.contains(i) && r == f(i);
            lemma_rank_in_range(s, i);
        }
        assert forall|r: int| low.contains(r) implies cut.map(f).contains(r) by {
            assert(image.contains(r));
            let i = choose|i: int| full.contains(i) && r == f(i);
            assert(cut.contains(i));
            assert(r == f(i));
        }
    }
    lemma_map_size(cut, low, f);
}

} // verus!

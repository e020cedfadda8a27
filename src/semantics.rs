use vstd::prelude::*;

use crate::optimize::{
    flattened, is_flat, lemma_flattened, lemma_flattened_holds, no_empty_compound, lemma_intersect_holds, lemma_negated_complements, lemma_union_holds,
    negated, no_vacuous, same_kind,
};
use crate::probability::{
    SummandModel, all_literals, choose_from, chosen, expansion, first_occurrences,
    lemma_first_occurrences, lemma_sub_event, lemma_subsets_below_bounds, minimum_unit, names_atom,
    plan, powerset_of, rank, signed, signs_conflict, sub_event, sub_sign, subsets_below, width,
};
use crate::term::{Formula, MultiOp, holds};

verus! {

broadcast use vstd::seq::group_seq_axioms;

/// One for an even count, minus one for an odd one.
pub open spec fn parity(k: nat) -> int {
    if k % 2 == 0 {
        1
    } else {
        -1
    }
}

/// The product of `y` at the indices `s`.
pub open spec fn subset_product(y: Seq<int>, s: Seq<int>) -> int
    decreases s.len(),
{
    if s.len() == 0 {
        1
    } else {
        y[s[0]] * subset_product(y, s.subrange(1, s.len() as int))
    }
}

/// The sum of the products of `y` over the index sets `subs`.
pub open spec fn plain_sum(y: Seq<int>, subs: Seq<Seq<int>>) -> int
    decreases subs.len(),
{
    if subs.len() == 0 {
        0
    } else {
        plain_sum(y, subs.drop_last()) + subset_product(y, subs.last())
    }
}

/// The sum over the non-empty index sets of `subs` of their products of `y`,
/// each with the parity of its size.
pub open spec fn signed_sum(y: Seq<int>, subs: Seq<Seq<int>>) -> int
    decreases subs.len(),
{
    if subs.len() == 0 {
        0
    } else {
        signed_sum(y, subs.drop_last()) + if subs.last().len() > 0 {
            parity(subs.last().len()) * subset_product(y, subs.last())
        } else {
            0
        }
    }
}

/// The product of `1 - y[i]` over the indices `lo .. n`.
pub open spec fn complement_product(y: Seq<int>, lo: int, n: int) -> int
    decreases n - lo,
{
    if lo >= n {
        1
    } else {
        (1 - y[lo]) * complement_product(y, lo + 1, n)
    }
}

/// The sum of the products of `y` over the `k`-element subsets of
/// `lo .. n`.
pub open spec fn elementary(y: Seq<int>, lo: int, n: int, k: nat) -> int {
    plain_sum(y, choose_from(lo, n, k))
}

/// The sum over the sizes below `kk` of the elementary sums, each with the
/// parity of its size.
pub open spec fn alternating(y: Seq<int>, lo: int, n: int, kk: nat) -> int
    decreases kk,
{
    if kk == 0 {
        0
    } else {
        alternating(y, lo, n, (kk - 1) as nat) + parity((kk - 1) as nat) * elementary(y, lo, n, (kk - 1) as nat)
    }
}

proof fn lemma_plain_sum_concat(y: Seq<int>, a: Seq<Seq<int>>, b: Seq<Seq<int>>)
    ensures
        plain_sum(y, a + b) == plain_sum(y, a) + plain_sum(y, b),
    decreases b.len(),
{
    if b.len() == 0 {
        assert(a + b =~= a);
    } else {
        assert((a + b).drop_last() =~= a + b.drop_last());
        lemma_plain_sum_concat(y, a, b.drop_last());
    }
}

proof fn lemma_signed_sum_concat(y: Seq<int>, a: Seq<Seq<int>>, b: Seq<Seq<int>>)
    ensures
        signed_sum(y, a + b) == signed_sum(y, a) + signed_sum(y, b),
    decreases b.len(),
{
    if b.len() == 0 {
        assert(a + b =~= a);
    } else {
        assert((a + b).drop_last() =~= a + b.drop_last());
        lemma_signed_sum_concat(y, a, b.drop_last());
    }
}

proof fn lemma_plain_sum_prepend(y: Seq<int>, a: Seq<Seq<int>>, lo: int)
    ensures
        plain_sum(y, a.map_values(|c: Seq<int>| seq![lo] + c)) == y[lo] * plain_sum(y, a),
    decreases a.len(),
{
    if a.len() > 0 {
        let m = a.map_values(|c: Seq<int>| seq![lo] + c);
        assert(m.drop_last() =~= a.drop_last().map_values(|c: Seq<int>| seq![lo] + c));
        lemma_plain_sum_prepend(y, a.drop_last(), lo);
        let c = a.last();
        assert((seq![lo] + c).subrange(1, (seq![lo] + c).len() as int) =~= c);
        assert(subset_product(y, m.last()) == y[lo] * subset_product(y, c));
        let p = plain_sum(y, a.drop_last());
        let q = subset_product(y, c);
        assert(y[lo] * p + y[lo] * q == y[lo] * (p + q)) by (nonlinear_arith);
    }
}

pub proof fn lemma_choose_from_len(lo: int, n: int, k: nat)
    ensures
        forall|c: int| 0 <= c < choose_from(lo, n, k).len() ==> (#[trigger] choose_from(lo, n, k)[c]).len() == k,
    decreases n - lo,
{
    if k > 0 && lo < n {
        lemma_choose_from_len(lo + 1, n, (k - 1) as nat);
        lemma_choose_from_len(lo + 1, n, k);
        let a = choose_from(lo + 1, n, (k - 1) as nat).map_values(|c: Seq<int>| seq![lo] + c);
        assert forall|c: int| 0 <= c < choose_from(lo, n, k).len() implies (#[trigger] choose_from(lo, n, k)[c]).len() == k by {
            if c < a.len() {
                assert(choose_from(lo, n, k)[c] == a[c]);
            } else {
                assert(choose_from(lo, n, k)[c] == choose_from(lo + 1, n, k)[c - a.len()]);
            }
        };
    }
}

/// Over sets that all have `k > 0` elements, the signed sum is the plain sum
/// with the parity of `k`.
proof fn lemma_signed_uniform(y: Seq<int>, subs: Seq<Seq<int>>, k: nat)
    requires
        forall|c: int| 0 <= c < subs.len() ==> (#[trigger] subs[c]).len() == k,
    ensures
        signed_sum(y, subs) == if k > 0 {
            parity(k) * plain_sum(y, subs)
        } else {
            0
        },
    decreases subs.len(),
{
    if subs.len() > 0 {
        let d = subs.drop_last();
        assert forall|c: int| 0 <= c < d.len() implies (#[trigger] d[c]).len() == k by {
            assert(d[c] == subs[c]);
        };
        lemma_signed_uniform(y, d, k);
        assert(subs.last() == subs[subs.len() - 1]);
        let p = plain_sum(y, d);
        let q = subset_product(y, subs.last());
        assert(parity(k) * p + parity(k) * q == parity(k) * (p + q)) by (nonlinear_arith);
    }
}

proof fn lemma_elementary_step(y: Seq<int>, lo: int, n: int, k: nat)
    requires
        lo < n,
        k > 0,
    ensures
        elementary(y, lo, n, k) == y[lo] * elementary(y, lo + 1, n, (k - 1) as nat) + elementary(y, lo + 1, n, k),
{
    let a = choose_from(lo + 1, n, (k - 1) as nat);
    lemma_plain_sum_concat(y, a.map_values(|c: Seq<int>| seq![lo] + c), choose_from(lo + 1, n, k));
    lemma_plain_sum_prepend(y, a, lo);
}

proof fn lemma_elementary_zero(y: Seq<int>, lo: int, n: int, k: nat)
    requires
        lo <= n,
        k > n - lo,
    ensures
        elementary(y, lo, n, k) == 0,
    decreases n - lo,
{
    if lo < n {
        lemma_elementary_step(y, lo, n, k);
        lemma_elementary_zero(y, lo + 1, n, (k - 1) as nat);
        lemma_elementary_zero(y, lo + 1, n, k);
        assert(y[lo] * 0 == 0);
    } else {
        assert(choose_from(lo, n, k) == Seq::<Seq<int>>::empty());
    }
}

proof fn lemma_elementary_empty_set(y: Seq<int>, lo: int, n: int)
    ensures
        elementary(y, lo, n, 0) == 1,
{
    let s = choose_from(lo, n, 0);
    assert(s == seq![Seq::<int>::empty()]);
    assert(s.drop_last() =~= Seq::<Seq<int>>::empty());
    assert(plain_sum(y, s.drop_last()) == 0);
    assert(s.last() == Seq::<int>::empty());
    assert(subset_product(y, Seq::<int>::empty()) == 1);
    assert(plain_sum(y, s) == plain_sum(y, s.drop_last()) + subset_product(y, s.last()));
}

proof fn lemma_alternating_one(y: Seq<int>, lo: int, n: int)
    ensures
        alternating(y, lo, n, 1) == 1,
{
    lemma_elementary_empty_set(y, lo, n);
    assert(alternating(y, lo, n, 0) == 0);
    assert(parity(0) == 1);
    assert(alternating(y, lo, n, 1) == alternating(y, lo, n, 0) + parity(0) * elementary(y, lo, n, 0));
}

proof fn lemma_alternating_step(y: Seq<int>, lo: int, n: int, kk: nat)
    requires
        lo < n,
        kk >= 1,
    ensures
        alternating(y, lo, n, kk) == alternating(y, lo + 1, n, kk) - y[lo] * alternating(
            y,
            lo + 1,
            n,
            (kk - 1) as nat,
        ),
    decreases kk,
{
    if kk == 1 {
        lemma_elementary_empty_set(y, lo, n);
        lemma_elementary_empty_set(y, lo + 1, n);
        lemma_alternating_one(y, lo, n);
        lemma_alternating_one(y, lo + 1, n);
        assert(alternating(y, lo + 1, n, 0) == 0);
    } else {
        let k = (kk - 1) as nat;
        lemma_alternating_step(y, lo, n, k);
        lemma_elementary_step(y, lo, n, k);
        let a1 = alternating(y, lo + 1, n, k);
        let a2 = alternating(y, lo + 1, n, (k - 1) as nat);
        let e1 = elementary(y, lo + 1, n, k);
        let e2 = elementary(y, lo + 1, n, (k - 1) as nat);
        let yl = y[lo];
        let pk = parity(k);
        let pk1 = parity((k - 1) as nat);
        assert(pk == -pk1);
        assert(alternating(y, lo, n, kk) == (a1 - yl * a2) + pk * (yl * e2 + e1));
        assert(alternating(y, lo + 1, n, kk) == a1 + pk * e1);
        assert(a1 == a2 + pk1 * e2);
        assert((a1 - yl * a2) + pk * (yl * e2 + e1) == (a1 + pk * e1) - yl * a1) by (nonlinear_arith)
            requires
                pk == -pk1,
                a1 == a2 + pk1 * e2,
        ;
    }
}

proof fn lemma_alternating_top(y: Seq<int>, n: int, kk: nat)
    requires
        kk >= 1,
    ensures
        alternating(y, n, n, kk) == 1,
    decreases kk,
{
    if kk == 1 {
        lemma_alternating_one(y, n, n);
    } else {
        lemma_alternating_top(y, n, (kk - 1) as nat);
        lemma_elementary_zero(y, n, n, (kk - 1) as nat);
        assert(alternating(y, n, n, kk) == alternating(y, n, n, (kk - 1) as nat) + parity((kk - 1) as nat)
            * elementary(y, n, n, (kk - 1) as nat));
    }
}

/// The alternating sum of the elementary sums is the product of the
/// complements.
proof fn lemma_alternating_product(y: Seq<int>, lo: int, n: int, kk: nat)
    requires
        lo <= n,
        kk >= n - lo + 1,
    ensures
        alternating(y, lo, n, kk) == complement_product(y, lo, n),
    decreases n - lo,
{
    if lo == n {
        lemma_alternating_top(y, n, kk);
    } else {
        lemma_alternating_step(y, lo, n, kk);
        lemma_alternating_product(y, lo + 1, n, kk);
        lemma_alternating_product(y, lo + 1, n, (kk - 1) as nat);
        let p = complement_product(y, lo + 1, n);
        assert(p - y[lo] * p == (1 - y[lo]) * p) by (nonlinear_arith);
    }
}

proof fn lemma_signed_sum_subsets(y: Seq<int>, n: nat, kk: nat)
    requires
        kk >= 1,
    ensures
        signed_sum(y, subsets_below(n, kk)) == alternating(y, 0, n as int, kk) - 1,
    decreases kk,
{
    let k = (kk - 1) as nat;
    let c = choose_from(0, n as int, k);
    lemma_choose_from_len(0, n as int, k);
    lemma_signed_uniform(y, c, k);
    lemma_signed_sum_concat(y, subsets_below(n, k), c);
    assert(subsets_below(n, kk) == subsets_below(n, k) + c);
    if kk == 1 {
        assert(subsets_below(n, 0) == Seq::<Seq<int>>::empty());
        assert(signed_sum(y, Seq::<Seq<int>>::empty()) == 0);
        lemma_alternating_one(y, 0, n as int);
    } else {
        lemma_signed_sum_subsets(y, n, k);
        assert(alternating(y, 0, n as int, kk) == alternating(y, 0, n as int, k) + parity(k) * elementary(
            y,
            0,
            n as int,
            k,
        ));
    }
}

/// Inclusion-exclusion over every non-empty subset of the indices below
/// `n`: the sum of the products with the parity of their sizes is the
/// product of the complements, less one.
pub proof fn lemma_powerset_signed_sum(y: Seq<int>, n: nat)
    ensures
        signed_sum(y, powerset_of(n)) == complement_product(y, 0, n as int) - 1,
{
    lemma_signed_sum_subsets(y, n, n + 1);
    lemma_alternating_product(y, 0, n as int, n + 1);
}

/// One where `b` holds, zero where it does not.
pub open spec fn indicator(b: bool) -> int {
    if b {
        1
    } else {
        0
    }
}

/// The value of a product of literals when exactly the atoms that `fails`
/// names fail: one where every factor holds, zero otherwise.
pub open spec fn product_value(factors: Seq<Formula>, fails: spec_fn(Seq<char>) -> bool) -> int
    decreases factors.len(),
{
    if factors.len() == 0 {
        1
    } else {
        product_value(factors.drop_last(), fails) * indicator(holds(factors.last(), fails))
    }
}

/// The value of a plan when exactly the atoms that `fails` names fail: the
/// sum of its signed products.
pub open spec fn plan_value(p: Seq<SummandModel>, fails: spec_fn(Seq<char>) -> bool) -> int
    decreases p.len(),
{
    if p.len() == 0 {
        0
    } else {
        plan_value(p.drop_last(), fails) + if p.last().positive {
            product_value(p.last().factors, fails)
        } else {
            -product_value(p.last().factors, fails)
        }
    }
}

/// The indicators of the operands of `f` that its expansion combines: the
/// operands of a union, the negated operands of an intersection.
pub open spec fn operand_values(f: Formula, fails: spec_fn(Seq<char>) -> bool) -> Seq<int> {
    Seq::new(
        width(f),
        |i: int|
            indicator(
                holds(
                    if same_kind(MultiOp::Union, f) {
                        f->operands[i]
                    } else {
                        negated(f->operands[i])
                    },
                    fails,
                ),
            ),
    )
}

proof fn lemma_product_value(fs: Seq<Formula>, fails: spec_fn(Seq<char>) -> bool)
    ensures
        product_value(fs, fails) == indicator(forall|j: int| 0 <= j < fs.len() ==> holds(#[trigger] fs[j], fails)),
    decreases fs.len(),
{
    if fs.len() > 0 {
        let d = fs.drop_last();
        lemma_product_value(d, fails);
        assert(fs.last() == fs[fs.len() - 1]);
        if forall|j: int| 0 <= j < fs.len() ==> holds(#[trigger] fs[j], fails) {
            assert forall|j: int| 0 <= j < d.len() implies holds(#[trigger] d[j], fails) by {
                assert(d[j] == fs[j]);
            };
        } else {
            let j = choose|j: int| 0 <= j < fs.len() && !holds(#[trigger] fs[j], fails);
            if j < d.len() {
                assert(d[j] == fs[j]);
            }
            assert(product_value(d, fails) * indicator(holds(fs.last(), fails)) == 0) by (nonlinear_arith)
                requires
                    product_value(d, fails) == 0 || indicator(holds(fs.last(), fails)) == 0,
            ;
        }
    }
}

proof fn lemma_plan_value_concat(a: Seq<SummandModel>, b: Seq<SummandModel>, fails: spec_fn(Seq<char>) -> bool)
    ensures
        plan_value(a + b, fails) == plan_value(a, fails) + plan_value(b, fails),
    decreases b.len(),
{
    if b.len() == 0 {
        assert(a + b =~= a);
    } else {
        assert((a + b).drop_last() =~= a + b.drop_last());
        lemma_plan_value_concat(a, b.drop_last(), fails);
    }
}

proof fn lemma_plan_value_signed(positive: bool, p: Seq<SummandModel>, fails: spec_fn(Seq<char>) -> bool)
    ensures
        plan_value(signed(positive, p), fails) == if positive {
            plan_value(p, fails)
        } else {
            -plan_value(p, fails)
        },
    decreases p.len(),
{
    if p.len() > 0 {
        assert(signed(positive, p).drop_last() =~= signed(positive, p.drop_last()));
        lemma_plan_value_signed(positive, p.drop_last(), fails);
    }
}

/// The product of the operand values at the indices `s` is the indicator of
/// the intersection of the chosen operands.
proof fn lemma_subset_product_chosen(f: Formula, s: Seq<int>, fails: spec_fn(Seq<char>) -> bool)
    requires
        f is Compound,
        forall|j: int| 0 <= j < s.len() ==> 0 <= #[trigger] s[j] < f->operands.len(),
    ensures
        subset_product(operand_values(f, fails), s) == indicator(
            forall|j: int| 0 <= j < s.len() ==> holds(#[trigger] chosen(f, s)[j], fails),
        ),
    decreases s.len(),
{
    if s.len() > 0 {
        let rest = s.subrange(1, s.len() as int);
        assert forall|j: int| 0 <= j < rest.len() implies 0 <= #[trigger] rest[j] < f->operands.len() by {
            assert(rest[j] == s[j + 1]);
        };
        lemma_subset_product_chosen(f, rest, fails);
        let c = chosen(f, s);
        let cr = chosen(f, rest);
        assert forall|j: int| 0 <= j < rest.len() implies #[trigger] cr[j] == c[j + 1] by {
            assert(rest[j] == s[j + 1]);
        };
        let y = operand_values(f, fails);
        assert(y[s[0]] == indicator(holds(c[0], fails)));
        if forall|j: int| 0 <= j < s.len() ==> holds(#[trigger] c[j], fails) {
            assert forall|j: int| 0 <= j < rest.len() implies holds(#[trigger] cr[j], fails) by {
                assert(cr[j] == c[j + 1]);
            };
            assert(holds(c[0], fails));
        } else {
            let j = choose|j: int| 0 <= j < s.len() && !holds(#[trigger] c[j], fails);
            if j > 0 {
                assert(cr[j - 1] == c[j]);
            }
            assert(y[s[0]] * subset_product(y, rest) == 0) by (nonlinear_arith)
                requires
                    y[s[0]] == 0 || subset_product(y, rest) == 0,
            ;
        }
    }
}

/// Over values that are each zero or one, the product of the complements is
/// one exactly where every value is zero.
proof fn lemma_complement_product_indicator(y: Seq<int>, lo: int, n: int)
    requires
        0 <= lo,
        n <= y.len(),
        forall|i: int| 0 <= i < y.len() ==> #[trigger] y[i] == 0 || y[i] == 1,
    ensures
        complement_product(y, lo, n) == indicator(forall|i: int| lo <= i < n ==> #[trigger] y[i] == 0),
    decreases n - lo,
{
    if lo < n {
        lemma_complement_product_indicator(y, lo + 1, n);
        let p = complement_product(y, lo + 1, n);
        if y[lo] == 1 {
            assert((1 - y[lo]) * p == 0) by (nonlinear_arith)
                requires
                    y[lo] == 1,
            ;
        } else {
            assert forall|i: int| lo <= i < n && (forall|i: int| lo + 1 <= i < n ==> #[trigger] y[i] == 0) implies #[trigger] y[i] == 0 by {
                if i > lo {
                }
            };
        }
    }
}

/// Each subset of the expansion of `f` adds its indicator with the sign of
/// the expansion.
proof fn lemma_expansion_value(f: Formula, subs: Seq<Seq<int>>, fails: spec_fn(Seq<char>) -> bool)
    requires
        f is Compound,
        is_flat(f),
        no_vacuous(f),
        same_kind(MultiOp::Intersect, f) ==> !all_literals(f->operands),
        forall|c: int, j: int|
            0 <= c < subs.len() && 0 <= j < subs[c].len() ==> 0 <= #[trigger] subs[c][j] < f->operands.len(),
    ensures
        plan_value(expansion(f, subs), fails) == if same_kind(MultiOp::Union, f) {
            -signed_sum(operand_values(f, fails), subs)
        } else {
            signed_sum(operand_values(f, fails), subs)
        },
    decreases rank(f), subs.len(),
{
    if subs.len() > 0 {
        let d = subs.drop_last();
        assert forall|c: int, j: int| 0 <= c < d.len() && 0 <= j < d[c].len() implies 0 <= #[trigger] d[c][j]
            < f->operands.len() by {
            assert(d[c] == subs[c]);
        };
        lemma_expansion_value(f, d, fails);
        let s = subs.last();
        assert(s == subs[subs.len() - 1]);
        let y = operand_values(f, fails);
        let rest = expansion(f, d);
        if s.len() > 0 {
            assert forall|j: int| 0 <= j < s.len() implies 0 <= #[trigger] s[j] < f->operands.len() by {
                assert(s[j] == subs[subs.len() - 1][j]);
            };
            lemma_sub_event(f, s);
            let g = sub_event(f, s);
            lemma_plan_value(g, fails);
            lemma_flattened_holds(Formula::Compound { op: MultiOp::Intersect, operands: chosen(f, s) }, fails);
            lemma_intersect_holds(chosen(f, s), fails);
            lemma_subset_product_chosen(f, s, fails);
            let piece = signed(sub_sign(f, s), plan(g));
            assert(expansion(f, subs) == rest + piece);
            lemma_plan_value_concat(rest, piece, fails);
            lemma_plan_value_signed(sub_sign(f, s), plan(g), fails);
        } else {
            assert(expansion(f, subs) == rest + Seq::<SummandModel>::empty());
            assert(rest + Seq::<SummandModel>::empty() =~= rest);
        }
    }
}

/// The plan of a flat formula with no part that never occurs is exact: for
/// every set of failed atoms, its signed products add up to one where the
/// formula's event occurs and to zero where it does not.
pub proof fn lemma_plan_value(f: Formula, fails: spec_fn(Seq<char>) -> bool)
    requires
        is_flat(f),
        no_vacuous(f),
    ensures
        plan_value(plan(f), fails) == indicator(holds(f, fails)),
    decreases rank(f), powerset_of(width(f)).len() + 1,
{
    match f {
        Formula::Literal { .. } => {
            let p = plan(f);
            assert(p == seq![SummandModel { positive: true, factors: seq![f] }]);
            assert(p.drop_last() =~= Seq::<SummandModel>::empty());
            assert(plan_value(p.drop_last(), fails) == 0);
            assert(p.last() == SummandModel { positive: true, factors: seq![f] });
            let one = seq![f];
            lemma_product_value(one, fails);
            if !holds(f, fails) {
                assert(!holds(one[0], fails));
            } else {
                assert forall|j: int| 0 <= j < one.len() implies holds(#[trigger] one[j], fails) by {
                    assert(one[j] == f);
                };
            }
            assert(plan_value(p, fails) == plan_value(p.drop_last(), fails) + product_value(one, fails));
            assert(product_value(one, fails) == indicator(holds(f, fails)));
        },
        Formula::Compound { op, operands: xs } => {
            let n = xs.len();
            let y = operand_values(f, fails);
            lemma_subsets_below_bounds(n, n + 1);
            lemma_powerset_signed_sum(y, n);
            if op == MultiOp::Union {
                lemma_expansion_value(f, powerset_of(n), fails);
                lemma_complement_product_indicator(y, 0, n as int);
                lemma_union_holds(xs, fails);
                if holds(f, fails) {
                    let i = choose|i: int| 0 <= i < n && holds(#[trigger] xs[i], fails);
                    assert(y[i] == 1);
                } else {
                    assert forall|i: int| 0 <= i < n implies #[trigger] y[i] == 0 by {
                        assert(!holds(xs[i], fails));
                    };
                }
            } else {
                lemma_intersect_holds(xs, fails);
                match minimum_unit(xs) {
                    Some(p) => {
                        lemma_minimum_unit_value(xs, fails);
                    },
                    None => {
                        assert(!all_literals(xs));
                        lemma_expansion_value(f, powerset_of(n), fails);
                        assert forall|i: int| 0 <= i < n implies #[trigger] y[i] == 1 - indicator(holds(xs[i], fails)) by {
                            lemma_negated_complements(xs[i], fails);
                        };
                        lemma_complement_product_indicator(y, 0, n as int);
                        let head = seq![SummandModel { positive: true, factors: Seq::empty() }];
                        lemma_plan_value_concat(head, expansion(f, powerset_of(n)), fails);
                        assert(head.drop_last() =~= Seq::<SummandModel>::empty());
                        assert(head.last() == SummandModel { positive: true, factors: Seq::empty() });
                        assert(product_value(Seq::empty(), fails) == 1);
                        assert(plan_value(head.drop_last(), fails) == 0);
                        assert(plan_value(head, fails) == plan_value(head.drop_last(), fails) + product_value(
                            head.last().factors,
                            fails,
                        ));
                        assert(plan_value(head, fails) == 1);
                        assert(plan(f) == head + expansion(f, powerset_of(n)));
                        assert(plan_value(plan(f), fails) == complement_product(y, 0, n as int));
                        if holds(f, fails) {
                            assert forall|i: int| 0 <= i < n implies #[trigger] y[i] == 0 by {
                                assert(holds(xs[i], fails));
                            };
                        } else {
                            let i = choose|i: int| 0 <= i < n && !holds(#[trigger] xs[i], fails);
                            assert(y[i] == 1);
                        }
                    },
                }
            }
        },
        Formula::Vacuous => {},
    }
}

/// The shortcut plan of an intersection of literals is exact.
proof fn lemma_minimum_unit_value(xs: Seq<Formula>, fails: spec_fn(Seq<char>) -> bool)
    requires
        minimum_unit(xs) is Some,
    ensures
        plan_value(minimum_unit(xs)->0, fails) == indicator(
            forall|i: int| 0 <= i < xs.len() ==> holds(#[trigger] xs[i], fails),
        ),
{
    if signs_conflict(xs) {
        let (i, j) = choose|i: int, j: int|
            0 <= i < xs.len() && 0 <= j < xs.len() && (#[trigger] xs[i])->atom.name == (#[trigger] xs[j])->atom.name
                && xs[i]->negated != xs[j]->negated;
        assert(!(holds(xs[i], fails) && holds(xs[j], fails)));
        assert(minimum_unit(xs)->0 == Seq::<SummandModel>::empty());
        assert(plan_value(Seq::<SummandModel>::empty(), fails) == 0);
    } else {
        lemma_first_occurrences(xs);
        let d = first_occurrences(xs);
        let p = minimum_unit(xs)->0;
        assert(p == seq![SummandModel { positive: true, factors: d }]);
        assert(p.drop_last() =~= Seq::<SummandModel>::empty());
        assert(p.last() == SummandModel { positive: true, factors: d });
        assert(plan_value(p, fails) == plan_value(p.drop_last(), fails) + product_value(d, fails));
        lemma_product_value(d, fails);
        if forall|i: int| 0 <= i < xs.len() ==> holds(#[trigger] xs[i], fails) {
            assert forall|j: int| 0 <= j < d.len() implies holds(#[trigger] d[j], fails) by {
                let k = choose|k: int| 0 <= k < xs.len() && xs[k] == #[trigger] d[j];
            };
        } else {
            let i = choose|i: int| 0 <= i < xs.len() && !holds(#[trigger] xs[i], fails);
            assert(names_atom(d, xs[i]->atom.name));
            let l = choose|l: int| 0 <= l < d.len() && (#[trigger] d[l])->atom.name == xs[i]->atom.name;
            let k = choose|k: int| 0 <= k < xs.len() && xs[k] == #[trigger] d[l];
            assert(xs[k]->negated == xs[i]->negated);
            assert(!holds(d[l], fails));
        }
    }
}

/// The plan that `calc` returns for a term is exact: for every set of
/// failed atoms, its signed products add up to one where the term's event
/// occurs and to zero where it does not.
pub proof fn lemma_calc_exact(f: Formula, fails: spec_fn(Seq<char>) -> bool)
    requires
        no_empty_compound(f),
        no_vacuous(f),
    ensures
        plan_value(plan(flattened(f)), fails) == indicator(holds(f, fails)),
{
    lemma_flattened(f);
    lemma_plan_value(flattened(f), fails);
    lemma_flattened_holds(f, fails);
}

/// Intersecting a term with itself changes nothing: for every set of failed
/// atoms, the plans of both add up to the same value.
pub proof fn lemma_self_intersection(f: Formula, fails: spec_fn(Seq<char>) -> bool)
    requires
        no_empty_compound(f),
        no_vacuous(f),
    ensures
        plan_value(plan(flattened(Formula::Compound { op: MultiOp::Intersect, operands: seq![f, f] })), fails)
            == plan_value(plan(flattened(f)), fails),
{
    let both = Formula::Compound { op: MultiOp::Intersect, operands: seq![f, f] };
    let xs = seq![f, f];
    assert(no_empty_compound(both)) by {
        assert forall|i: int| 0 <= i < xs.len() implies no_empty_compound(#[trigger] xs[i]) by {
            assert(xs[i] == f);
        };
    };
    assert(no_vacuous(both)) by {
        assert forall|i: int| 0 <= i < xs.len() implies no_vacuous(#[trigger] xs[i]) by {
            assert(xs[i] == f);
        };
    };
    lemma_calc_exact(both, fails);
    lemma_calc_exact(f, fails);
    lemma_intersect_holds(xs, fails);
    if holds(f, fails) {
        assert forall|i: int| 0 <= i < xs.len() implies holds(#[trigger] xs[i], fails) by {
            assert(xs[i] == f);
        };
    } else {
        assert(!holds(xs[0], fails));
    }
}

/// Every product of `p` is of literals over pairwise distinct atoms.
pub open spec fn independent_products(p: Seq<SummandModel>) -> bool {
    forall|k: int| 0 <= k < p.len() ==> distinct_literals(#[trigger] p[k].factors)
}

/// `fs` are literals over pairwise distinct atoms.
pub open spec fn distinct_literals(fs: Seq<Formula>) -> bool {
    &&& all_literals(fs)
    &&& forall|i: int, j: int|
        0 <= i < fs.len() && 0 <= j < fs.len() && i != j ==> (#[trigger] fs[i])->atom.name != (
        #[trigger] fs[j])->atom.name
}

proof fn lemma_independent_concat(a: Seq<SummandModel>, b: Seq<SummandModel>)
    requires
        independent_products(a),
        independent_products(b),
    ensures
        independent_products(a + b),
{
    assert forall|k: int| 0 <= k < (a + b).len() implies distinct_literals(#[trigger] (a + b)[k].factors) by {
        if k < a.len() {
            assert((a + b)[k] == a[k]);
        } else {
            assert((a + b)[k] == b[k - a.len()]);
        }
    };
}

proof fn lemma_expansion_independent(f: Formula, subs: Seq<Seq<int>>)
    requires
        f is Compound,
        is_flat(f),
        no_vacuous(f),
        same_kind(MultiOp::Intersect, f) ==> !all_literals(f->operands),
        forall|c: int, j: int|
            0 <= c < subs.len() && 0 <= j < subs[c].len() ==> 0 <= #[trigger] subs[c][j] < f->operands.len(),
    ensures
        independent_products(expansion(f, subs)),
    decreases rank(f), subs.len(),
{
    if subs.len() > 0 {
        let d = subs.drop_last();
        assert forall|c: int, j: int| 0 <= c < d.len() && 0 <= j < d[c].len() implies 0 <= #[trigger] d[c][j]
            < f->operands.len() by {
            assert(d[c] == subs[c]);
        };
        lemma_expansion_independent(f, d);
        let s = subs.last();
        assert(s == subs[subs.len() - 1]);
        let rest = expansion(f, d);
        if s.len() > 0 {
            assert forall|j: int| 0 <= j < s.len() implies 0 <= #[trigger] s[j] < f->operands.len() by {
                assert(s[j] == subs[subs.len() - 1][j]);
            };
            lemma_sub_event(f, s);
            let g = sub_event(f, s);
            lemma_plan_independent(g);
            let piece = signed(sub_sign(f, s), plan(g));
            assert forall|k: int| 0 <= k < piece.len() implies distinct_literals(#[trigger] piece[k].factors) by {
                assert(piece[k].factors == plan(g)[k].factors);
            };
            assert(expansion(f, subs) == rest + piece);
            lemma_independent_concat(rest, piece);
        } else {
            assert(expansion(f, subs) =~= rest);
        }
    }
}

/// Every product of the plan of a flat formula with no part that never
/// occurs is of literals over pairwise distinct atoms: under independent
/// atoms, its probability is the product of its factors' probabilities.
pub proof fn lemma_plan_independent(f: Formula)
    requires
        is_flat(f),
        no_vacuous(f),
    ensures
        independent_products(plan(f)),
    decreases rank(f), powerset_of(width(f)).len() + 1,
{
    match f {
        Formula::Literal { .. } => {
            let p = plan(f);
            assert(p[0].factors == seq![f]);
            assert(distinct_literals(seq![f]));
        },
        Formula::Compound { op, operands: xs } => {
            let n = xs.len();
            lemma_subsets_below_bounds(n, n + 1);
            if op == MultiOp::Union {
                lemma_expansion_independent(f, powerset_of(n));
            } else {
                match minimum_unit(xs) {
                    Some(p) => {
                        if !signs_conflict(xs) {
                            lemma_first_occurrences(xs);
                            assert(p[0].factors == first_occurrences(xs));
                        }
                    },
                    None => {
                        lemma_expansion_independent(f, powerset_of(n));
                        let head = seq![SummandModel { positive: true, factors: Seq::empty() }];
                        assert(distinct_literals(head[0].factors));
                        lemma_independent_concat(head, expansion(f, powerset_of(n)));
                    },
                }
            }
        },
        Formula::Vacuous => {},
    }
}

/// The plan that `calc` returns for a term has products over pairwise
/// distinct atoms only.
pub proof fn lemma_calc_independent(f: Formula)
    requires
        no_empty_compound(f),
        no_vacuous(f),
    ensures
        independent_products(plan(flattened(f))),
{
    lemma_flattened(f);
    lemma_plan_independent(flattened(f));
}

} // verus!

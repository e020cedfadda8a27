use vstd::prelude::*;

use crate::term::{Formula, MultiOp, Term, UnaryOp, holds, views};

verus! {

broadcast use vstd::std_specs::vec::axiom_vec_index_decreases, vstd::seq::group_seq_axioms;

/// `f` with every event that never occurs taken out, or `None` where nothing
/// is left: a union drops such operands, while an intersection with one of
/// them never occurs itself. An operation left with one operand is replaced
/// by that operand.
pub open spec fn without_vacuous(f: Formula) -> Option<Formula>
    decreases f,
{
    match f {
        Formula::Vacuous => None,
        Formula::Literal { .. } => Some(f),
        Formula::Compound { op, operands } => {
            let kept = kept_operands(operands);
            if kept.len() == 0 || (op == MultiOp::Intersect && kept.len() < operands.len()) {
                None
            } else if kept.len() == 1 {
                Some(kept[0])
            } else {
                Some(Formula::Compound { op, operands: kept })
            }
        },
    }
}

/// The operands that remain of `xs` once each is cleaned, in order.
pub open spec fn kept_operands(xs: Seq<Formula>) -> Seq<Formula>
    decreases xs,
{
    if xs.len() == 0 {
        Seq::empty()
    } else {
        match without_vacuous(xs.last()) {
            Some(g) => kept_operands(xs.drop_last()).push(g),
            None => kept_operands(xs.drop_last()),
        }
    }
}

proof fn lemma_kept_operands_len(xs: Seq<Formula>)
    ensures
        kept_operands(xs).len() <= xs.len(),
    decreases xs.len(),
{
    if xs.len() > 0 {
        lemma_kept_operands_len(xs.drop_last());
    }
}

/// Every compound part of `f` has at least one operand.
pub open spec fn no_empty_compound(f: Formula) -> bool
    decreases f,
{
    match f {
        Formula::Compound { operands, .. } => operands.len() > 0 && forall|i: int|
            0 <= i < operands.len() ==> no_empty_compound(#[trigger] operands[i]),
        _ => true,
    }
}

/// `f` with nested operations of one kind merged into one, and operations of
/// a single operand replaced by that operand.
pub open spec fn flattened(f: Formula) -> Formula
    decreases f,
{
    match f {
        Formula::Compound { op, operands } => {
            if operands.len() == 1 {
                flattened(operands[0])
            } else {
                Formula::Compound { op, operands: spliced(op, operands) }
            }
        },
        _ => f,
    }
}

/// The flattened operands of an `op` operation: a flattened operand that is
/// itself an `op` operation gives its own operands in its place.
pub open spec fn spliced(op: MultiOp, xs: Seq<Formula>) -> Seq<Formula>
    decreases xs,
{
    if xs.len() == 0 {
        Seq::empty()
    } else {
        spliced(op, xs.drop_last()) + piece(op, flattened(xs.last()))
    }
}

/// What a flattened operand `g` contributes to an `op` operation.
pub open spec fn piece(op: MultiOp, g: Formula) -> Seq<Formula> {
    match g {
        Formula::Compound { op: inner, operands } => if inner == op {
            operands
        } else {
            seq![g]
        },
        _ => seq![g],
    }
}

/// No operation in `f` has fewer than two operands, nor an operand of its
/// own kind.
pub open spec fn is_flat(f: Formula) -> bool
    decreases f,
{
    match f {
        Formula::Compound { op, operands } => operands.len() >= 2 && forall|i: int|
            0 <= i < operands.len() ==> !same_kind(op, #[trigger] operands[i]) && is_flat(operands[i]),
        _ => true,
    }
}

/// Whether `g` is an `op` operation.
pub open spec fn same_kind(op: MultiOp, g: Formula) -> bool {
    g matches Formula::Compound { op: inner, .. } && inner == op
}

/// `f` has no part that never occurs.
pub open spec fn no_vacuous(f: Formula) -> bool
    decreases f,
{
    match f {
        Formula::Vacuous => false,
        Formula::Compound { operands, .. } => forall|i: int|
            0 <= i < operands.len() ==> no_vacuous(#[trigger] operands[i]),
        _ => true,
    }
}

/// The number of operation levels of `f`.
pub open spec fn height(f: Formula) -> nat
    decreases f,
{
    match f {
        Formula::Compound { operands, .. } => 1 + max_height(operands),
        _ => 0,
    }
}

/// The largest height among `xs`.
pub open spec fn max_height(xs: Seq<Formula>) -> nat
    decreases xs,
{
    if xs.len() == 0 {
        0
    } else {
        let a = max_height(xs.drop_last());
        let b = height(xs.last());
        if a >= b {
            a
        } else {
            b
        }
    }
}

pub proof fn lemma_max_height_ge(xs: Seq<Formula>, i: int)
    requires
        0 <= i < xs.len(),
    ensures
        height(xs[i]) <= max_height(xs),
    decreases xs.len(),
{
    if i < xs.len() - 1 {
        lemma_max_height_ge(xs.drop_last(), i);
    }
}

pub proof fn lemma_max_height_le(xs: Seq<Formula>, m: nat)
    requires
        forall|i: int| 0 <= i < xs.len() ==> height(#[trigger] xs[i]) <= m,
    ensures
        max_height(xs) <= m,
    decreases xs.len(),
{
    if xs.len() > 0 {
        lemma_max_height_le(xs.drop_last(), m);
    }
}

/// What holds of every element of each piece holds of every element of
/// the spliced operands; and with no empty piece, no operand is lost.
pub proof fn lemma_spliced_elements(op: MultiOp, xs: Seq<Formula>, p: spec_fn(Formula) -> bool)
    requires
        forall|k: int, e: int|
            0 <= k < xs.len() && 0 <= e < piece(op, flattened(xs[k])).len() ==> p(
                #[trigger] piece(op, flattened(#[trigger] xs[k]))[e],
            ),
    ensures
        forall|j: int| 0 <= j < spliced(op, xs).len() ==> p(#[trigger] spliced(op, xs)[j]),
        (forall|k: int| 0 <= k < xs.len() ==> piece(op, flattened(#[trigger] xs[k])).len() >= 1)
            ==> spliced(op, xs).len() >= xs.len(),
    decreases xs.len(),
{
    if xs.len() > 0 {
        let ys = xs.drop_last();
        assert forall|k: int, e: int|
            0 <= k < ys.len() && 0 <= e < piece(op, flattened(ys[k])).len() implies p(
                #[trigger] piece(op, flattened(#[trigger] ys[k]))[e],
            ) by {
            assert(ys[k] == xs[k]);
        };
        lemma_spliced_elements(op, ys, p);
        let a = spliced(op, ys);
        let last = piece(op, flattened(xs.last()));
        assert(spliced(op, xs) == a + last);
        assert forall|j: int| 0 <= j < spliced(op, xs).len() implies p(#[trigger] spliced(op, xs)[j]) by {
            if j < a.len() {
                assert(spliced(op, xs)[j] == a[j]);
            } else {
                assert(spliced(op, xs)[j] == last[j - a.len()]);
                assert(xs.last() == xs[xs.len() - 1]);
            }
        };
        if forall|k: int| 0 <= k < xs.len() ==> piece(op, flattened(#[trigger] xs[k])).len() >= 1 {
            assert forall|k: int| 0 <= k < ys.len() implies piece(op, flattened(#[trigger] ys[k])).len() >= 1 by {
                assert(ys[k] == xs[k]);
            };
            assert(xs.last() == xs[xs.len() - 1]);
        }
    }
}

/// Flattening yields a flat formula of no greater height, and keeps a formula
/// free of parts that never occur; where it removes the top operation it
/// lowers the height.
pub proof fn lemma_flattened(f: Formula)
    requires
        no_empty_compound(f),
    ensures
        is_flat(flattened(f)),
        height(flattened(f)) <= height(f),
        no_vacuous(f) ==> no_vacuous(flattened(f)),
        f matches Formula::Compound { op, .. } && !same_kind(op, flattened(f)) ==> height(flattened(f)) < height(f),
    decreases f,
{
    match f {
        Formula::Compound { op, operands: xs } => {
            assert forall|k: int| 0 <= k < xs.len() implies {
                &&& is_flat(flattened(#[trigger] xs[k]))
                &&& height(flattened(xs[k])) <= height(xs[k])
                &&& no_vacuous(xs[k]) ==> no_vacuous(flattened(xs[k]))
                &&& height(xs[k]) <= max_height(xs)
            } by {
                lemma_flattened(xs[k]);
                lemma_max_height_ge(xs, k);
            };
            if xs.len() == 1 {
                lemma_flattened(xs[0]);
            } else {
                let m = max_height(xs);
                let nv = no_vacuous(f);
                let p = |e: Formula| is_flat(e) && !same_kind(op, e) && height(e) <= m && (nv ==> no_vacuous(e));
                assert forall|k: int, e: int|
                    0 <= k < xs.len() && 0 <= e < piece(op, flattened(xs[k])).len() implies p(
                        #[trigger] piece(op, flattened(#[trigger] xs[k]))[e],
                    ) by {
                    let g = flattened(xs[k]);
                    if same_kind(op, g) {
                        let ys = g->operands;
                        assert(piece(op, g)[e] == ys[e]);
                        lemma_max_height_ge(ys, e);
                    } else {
                        assert(piece(op, g)[e] == g);
                    }
                };
                assert forall|k: int| 0 <= k < xs.len() implies piece(op, flattened(#[trigger] xs[k])).len() >= 1 by {
                    let g = flattened(xs[k]);
                    if same_kind(op, g) {
                        assert(is_flat(g));
                    }
                };
                lemma_spliced_elements(op, xs, p);
                let zs = spliced(op, xs);
                assert forall|j: int| 0 <= j < zs.len() implies height(#[trigger] zs[j]) <= m by {
                    assert(p(zs[j]));
                };
                lemma_max_height_le(zs, m);
                assert forall|j: int| 0 <= j < zs.len() implies !same_kind(op, #[trigger] zs[j]) && is_flat(zs[j]) by {
                    assert(p(zs[j]));
                };
                if nv {
                    assert forall|j: int| 0 <= j < zs.len() implies no_vacuous(#[trigger] zs[j]) by {
                        assert(p(zs[j]));
                    };
                }
            }
        },
        _ => {},
    }
}

/// The other one of union and intersection.
pub open spec fn dual(op: MultiOp) -> MultiOp {
    match op {
        MultiOp::Union => MultiOp::Intersect,
        MultiOp::Intersect => MultiOp::Union,
    }
}

/// The negation of `f` pushed down to its atoms by De Morgan's laws. The
/// event that never occurs stays as it is.
pub open spec fn negated(f: Formula) -> Formula
    decreases f,
{
    match f {
        Formula::Vacuous => Formula::Vacuous,
        Formula::Literal { atom, negated } => Formula::Literal { atom, negated: !negated },
        Formula::Compound { op, operands } => Formula::Compound {
            op: dual(op),
            operands: Seq::new(
                operands.len(),
                |i: int|
                    if 0 <= i < operands.len() {
                        negated(operands[i])
                    } else {
                        Formula::Vacuous
                    },
            ),
        },
    }
}

/// Negation keeps the height, and keeps a formula free of empty operations
/// and of parts that never occur.
pub proof fn lemma_negated(f: Formula)
    ensures
        height(negated(f)) == height(f),
        no_vacuous(f) ==> no_vacuous(negated(f)),
        no_empty_compound(f) ==> no_empty_compound(negated(f)),
    decreases f,
{
    match f {
        Formula::Compound { op, operands: xs } => {
            let ns = negated(f)->operands;
            assert forall|i: int| 0 <= i < xs.len() implies {
                &&& ns[i] == negated(xs[i])
                &&& height(#[trigger] ns[i]) == height(xs[i])
                &&& no_vacuous(xs[i]) ==> no_vacuous(ns[i])
                &&& no_empty_compound(xs[i]) ==> no_empty_compound(ns[i])
            } by {
                lemma_negated(xs[i]);
            };
            assert forall|i: int| 0 <= i < xs.len() implies height(#[trigger] ns[i]) <= max_height(xs) by {
                lemma_max_height_ge(xs, i);
            };
            assert forall|i: int| 0 <= i < xs.len() implies height(#[trigger] xs[i]) <= max_height(ns) by {
                lemma_max_height_ge(ns, i);
            };
            lemma_max_height_le(ns, max_height(xs));
            lemma_max_height_le(xs, max_height(ns));
        },
        _ => {},
    }
}

proof fn lemma_kept_operands(xs: Seq<Formula>, fails: spec_fn(Seq<char>) -> bool)
    requires
        forall|i: int|
            0 <= i < xs.len() ==> holds(#[trigger] xs[i], fails) == (without_vacuous(xs[i]) matches Some(g)
                && holds(g, fails)),
    ensures
        kept_operands(xs).len() <= xs.len(),
        (exists|i: int| 0 <= i < xs.len() && holds(#[trigger] xs[i], fails)) == (exists|j: int|
            0 <= j < kept_operands(xs).len() && holds(#[trigger] kept_operands(xs)[j], fails)),
        kept_operands(xs).len() == xs.len() ==> forall|i: int|
            0 <= i < xs.len() ==> without_vacuous(#[trigger] xs[i]) == Some(kept_operands(xs)[i]),
        kept_operands(xs).len() < xs.len() ==> exists|i: int|
            0 <= i < xs.len() && without_vacuous(#[trigger] xs[i]) is None,
    decreases xs.len(),
{
    if xs.len() > 0 {
        let ys = xs.drop_last();
        assert forall|i: int|
            0 <= i < ys.len() implies holds(#[trigger] ys[i], fails) == (without_vacuous(ys[i]) matches Some(g)
                && holds(g, fails)) by {
            assert(ys[i] == xs[i]);
        };
        lemma_kept_operands(ys, fails);
        let k = kept_operands(ys);
        let n = xs.len() - 1;
        let last = xs[n];
        assert(xs.last() == last);
        let kx = kept_operands(xs);
        if exists|i: int| 0 <= i < xs.len() && holds(#[trigger] xs[i], fails) {
            let i = choose|i: int| 0 <= i < xs.len() && holds(#[trigger] xs[i], fails);
            if i < n {
                assert(holds(ys[i], fails));
                let j = choose|j: int| 0 <= j < k.len() && holds(#[trigger] k[j], fails);
                assert(kx[j] == k[j]);
            } else {
                let g = without_vacuous(last)->0;
                assert(kx[k.len() as int] == g);
            }
        }
        if exists|j: int| 0 <= j < kx.len() && holds(#[trigger] kx[j], fails) {
            let j = choose|j: int| 0 <= j < kx.len() && holds(#[trigger] kx[j], fails);
            if j < k.len() {
                assert(kx[j] == k[j]);
                let i = choose|i: int| 0 <= i < ys.len() && holds(#[trigger] ys[i], fails);
                assert(xs[i] == ys[i]);
            } else {
                assert(holds(xs[n], fails));
            }
        }
        if kx.len() == xs.len() {
            assert(without_vacuous(last) is Some);
            assert forall|i: int| 0 <= i < xs.len() implies without_vacuous(#[trigger] xs[i]) == Some(kx[i]) by {
                if i < n {
                    assert(xs[i] == ys[i]);
                    assert(kx[i] == k[i]);
                }
            };
        }
        if kx.len() < xs.len() {
            if without_vacuous(last) is Some {
                let i = choose|i: int| 0 <= i < ys.len() && without_vacuous(#[trigger] ys[i]) is None;
                assert(xs[i] == ys[i]);
            }
        }
    }
}

proof fn lemma_compound_holds(op: MultiOp, k: Seq<Formula>, fails: spec_fn(Seq<char>) -> bool)
    ensures
        op == MultiOp::Union ==> holds(Formula::Compound { op, operands: k }, fails) == (exists|j: int|
            0 <= j < k.len() && holds(#[trigger] k[j], fails)),
        op == MultiOp::Intersect ==> holds(Formula::Compound { op, operands: k }, fails) == (forall|j: int|
            0 <= j < k.len() ==> holds(#[trigger] k[j], fails)),
{
    if op == MultiOp::Union {
        lemma_union_holds(k, fails);
    } else {
        lemma_intersect_holds(k, fails);
    }
}

pub proof fn lemma_union_holds(k: Seq<Formula>, fails: spec_fn(Seq<char>) -> bool)
    ensures
        holds(Formula::Compound { op: MultiOp::Union, operands: k }, fails) == (exists|j: int|
            0 <= j < k.len() && holds(#[trigger] k[j], fails)),
{
    let f = Formula::Compound { op: MultiOp::Union, operands: k };
    if holds(f, fails) {
        let j = choose|j: int| 0 <= j < k.len() && holds(#[trigger] k[j], fails);
        assert(holds(k[j], fails));
    } else {
        assert forall|j: int| 0 <= j < k.len() implies !holds(#[trigger] k[j], fails) by {
            assert(!holds(f->operands[j], fails));
        };
    }
}

pub proof fn lemma_intersect_holds(k: Seq<Formula>, fails: spec_fn(Seq<char>) -> bool)
    ensures
        holds(Formula::Compound { op: MultiOp::Intersect, operands: k }, fails) == (forall|j: int|
            0 <= j < k.len() ==> holds(#[trigger] k[j], fails)),
{
    let f = Formula::Compound { op: MultiOp::Intersect, operands: k };
    if holds(f, fails) {
        assert forall|j: int| 0 <= j < k.len() implies holds(#[trigger] k[j], fails) by {
            assert(holds(f->operands[j], fails));
        };
    } else {
        let j = choose|j: int| 0 <= j < k.len() && !holds(#[trigger] k[j], fails);
        assert(!holds(k[j], fails));
    }
}

/// An operation of one operand occurs exactly when that operand does.
proof fn lemma_single_operand(op: MultiOp, k: Seq<Formula>, fails: spec_fn(Seq<char>) -> bool)
    requires
        k.len() == 1,
    ensures
        holds(Formula::Compound { op, operands: k }, fails) == holds(k[0], fails),
{
    lemma_compound_holds(op, k, fails);
    if op == MultiOp::Intersect && holds(k[0], fails) {
        assert forall|j: int| 0 <= j < k.len() implies holds(#[trigger] k[j], fails) by {
            assert(j == 0);
        };
    }
}

/// Taking out the parts that never occur keeps the meaning: the cleaned
/// formula occurs exactly when `f` does, and where nothing is left `f` never
/// occurs.
pub proof fn lemma_without_vacuous_holds(f: Formula, fails: spec_fn(Seq<char>) -> bool)
    requires
        no_empty_compound(f),
    ensures
        holds(f, fails) == (without_vacuous(f) matches Some(g) && holds(g, fails)),
    decreases f,
{
    match f {
        Formula::Compound { op, operands: xs } => {
            assert forall|i: int|
                0 <= i < xs.len() implies holds(#[trigger] xs[i], fails) == (without_vacuous(xs[i]) matches Some(
                g,
            ) && holds(g, fails)) by {
                lemma_without_vacuous_holds(xs[i], fails);
            };
            lemma_kept_operands(xs, fails);
            let k = kept_operands(xs);
            if op == MultiOp::Union {
                if k.len() == 0 {
                    assert(without_vacuous(f) is None);
                    if holds(f, fails) {
                        let i = choose|i: int| 0 <= i < xs.len() && holds(#[trigger] xs[i], fails);
                        assert(exists|j: int| 0 <= j < k.len() && holds(#[trigger] k[j], fails));
                    }
                    assert(holds(f, fails) == (without_vacuous(f) matches Some(g) && holds(g, fails)));
                } else {
                    lemma_compound_holds(op, k, fails);
                    assert(holds(f, fails) == (exists|i: int| 0 <= i < xs.len() && holds(#[trigger] xs[i], fails)));
                    assert(holds(Formula::Compound { op, operands: k }, fails) == holds(f, fails));
                    if k.len() == 1 {
                        lemma_single_operand(op, k, fails);
                    }
                }
            } else {
                if k.len() < xs.len() {
                    let i = choose|i: int| 0 <= i < xs.len() && without_vacuous(#[trigger] xs[i]) is None;
                    assert(!holds(xs[i], fails));
                } else {
                    if holds(f, fails) {
                        assert forall|j: int| 0 <= j < k.len() implies holds(#[trigger] k[j], fails) by {
                            assert(without_vacuous(xs[j]) == Some(k[j]));
                        };
                    } else {
                        let i = choose|i: int| 0 <= i < xs.len() && !holds(#[trigger] xs[i], fails);
                        assert(without_vacuous(xs[i]) == Some(k[i]));
                    }
                    lemma_compound_holds(op, k, fails);
                    assert(holds(Formula::Compound { op, operands: k }, fails) == holds(f, fails));
                    if k.len() == 1 {
                        lemma_single_operand(op, k, fails);
                    }
                }
            }
        },
        _ => {},
    }
}

proof fn lemma_spliced_holds(op: MultiOp, xs: Seq<Formula>, fails: spec_fn(Seq<char>) -> bool)
    requires
        forall|k: int| 0 <= k < xs.len() ==> holds(flattened(#[trigger] xs[k]), fails) == holds(xs[k], fails),
    ensures
        op == MultiOp::Union ==> (exists|j: int| 0 <= j < spliced(op, xs).len() && holds(#[trigger] spliced(op, xs)[j], fails))
            == (exists|k: int| 0 <= k < xs.len() && holds(#[trigger] xs[k], fails)),
        op == MultiOp::Intersect ==> (forall|j: int| 0 <= j < spliced(op, xs).len() ==> holds(#[trigger] spliced(op, xs)[j], fails))
            == (forall|k: int| 0 <= k < xs.len() ==> holds(#[trigger] xs[k], fails)),
    decreases xs.len(),
{
    if xs.len() > 0 {
        let ys = xs.drop_last();
        assert forall|k: int| 0 <= k < ys.len() implies holds(flattened(#[trigger] ys[k]), fails) == holds(ys[k], fails) by {
            assert(ys[k] == xs[k]);
        };
        lemma_spliced_holds(op, ys, fails);
        let a = spliced(op, ys);
        let n = xs.len() - 1;
        let g = flattened(xs[n]);
        assert(xs.last() == xs[n]);
        let pc = piece(op, g);
        let z = spliced(op, xs);
        assert(z == a + pc);
        assert(holds(g, fails) == holds(xs[n], fails));
        if same_kind(op, g) {
            lemma_compound_holds(op, g->operands, fails);
            assert(pc == g->operands);
        } else {
            assert(pc == seq![g]);
        }
        if op == MultiOp::Union {
            if exists|j: int| 0 <= j < z.len() && holds(#[trigger] z[j], fails) {
                let j = choose|j: int| 0 <= j < z.len() && holds(#[trigger] z[j], fails);
                if j < a.len() {
                    assert(z[j] == a[j]);
                    let k = choose|k: int| 0 <= k < ys.len() && holds(#[trigger] ys[k], fails);
                    assert(xs[k] == ys[k]);
                } else {
                    assert(z[j] == pc[j - a.len()]);
                    assert(holds(xs[n], fails));
                }
            }
            if exists|k: int| 0 <= k < xs.len() && holds(#[trigger] xs[k], fails) {
                let k = choose|k: int| 0 <= k < xs.len() && holds(#[trigger] xs[k], fails);
                if k < n {
                    assert(holds(ys[k], fails));
                    let j = choose|j: int| 0 <= j < a.len() && holds(#[trigger] a[j], fails);
                    assert(z[j] == a[j]);
                } else if same_kind(op, g) {
                    let e = choose|e: int| 0 <= e < pc.len() && holds(#[trigger] pc[e], fails);
                    assert(z[a.len() + e] == pc[e]);
                } else {
                    assert(z[a.len() as int] == g);
                }
            }
        } else if op == MultiOp::Intersect {
            if forall|j: int| 0 <= j < z.len() ==> holds(#[trigger] z[j], fails) {
                assert forall|j: int| 0 <= j < a.len() implies holds(#[trigger] a[j], fails) by {
                    assert(z[j] == a[j]);
                };
                assert forall|e: int| 0 <= e < pc.len() implies holds(#[trigger] pc[e], fails) by {
                    assert(z[a.len() + e] == pc[e]);
                };
                if !same_kind(op, g) {
                    assert(holds(pc[0], fails));
                }
                assert forall|k: int| 0 <= k < xs.len() implies holds(#[trigger] xs[k], fails) by {
                    if k < n {
                        assert(xs[k] == ys[k]);
                    }
                };
            }
            if forall|k: int| 0 <= k < xs.len() ==> holds(#[trigger] xs[k], fails) {
                assert forall|k: int| 0 <= k < ys.len() implies holds(#[trigger] ys[k], fails) by {
                    assert(xs[k] == ys[k]);
                };
                assert(holds(xs[n], fails));
                assert forall|j: int| 0 <= j < z.len() implies holds(#[trigger] z[j], fails) by {
                    if j < a.len() {
                        assert(z[j] == a[j]);
                    } else {
                        assert(z[j] == pc[j - a.len()]);
                    }
                };
            }
        }
    }
}

/// Flattening keeps the meaning: the flattened formula occurs exactly when
/// `f` does.
pub proof fn lemma_flattened_holds(f: Formula, fails: spec_fn(Seq<char>) -> bool)
    ensures
        holds(flattened(f), fails) == holds(f, fails),
    decreases f,
{
    match f {
        Formula::Compound { op, operands: xs } => {
            assert forall|k: int| 0 <= k < xs.len() implies holds(flattened(#[trigger] xs[k]), fails) == holds(
                xs[k],
                fails,
            ) by {
                lemma_flattened_holds(xs[k], fails);
            };
            lemma_compound_holds(op, xs, fails);
            if xs.len() == 1 {
                assert(holds(flattened(xs[0]), fails) == holds(xs[0], fails));
                if op == MultiOp::Union {
                    if holds(xs[0], fails) {
                        assert(holds(f, fails));
                    }
                } else {
                    if holds(xs[0], fails) {
                        assert forall|k: int| 0 <= k < xs.len() implies holds(#[trigger] xs[k], fails) by {
                            assert(k == 0);
                        };
                    }
                }
            } else {
                lemma_spliced_holds(op, xs, fails);
                lemma_compound_holds(op, spliced(op, xs), fails);
            }
        },
        _ => {},
    }
}

/// Negating twice gives the formula back.
pub proof fn lemma_negated_twice(f: Formula)
    ensures
        negated(negated(f)) == f,
    decreases f,
{
    match f {
        Formula::Compound { op, operands: xs } => {
            let back = negated(negated(f))->operands;
            assert forall|i: int| 0 <= i < xs.len() implies #[trigger] back[i] == xs[i] by {
                lemma_negated_twice(xs[i]);
            };
            assert(back =~= xs);
        },
        _ => {},
    }
}

/// De Morgan: where no part of `f` is the event that never occurs, its
/// negation occurs exactly when `f` does not.
pub proof fn lemma_negated_complements(f: Formula, fails: spec_fn(Seq<char>) -> bool)
    requires
        no_vacuous(f),
    ensures
        holds(negated(f), fails) == !holds(f, fails),
    decreases f,
{
    match f {
        Formula::Compound { op, operands: xs } => {
            let ns = negated(f)->operands;
            assert forall|i: int| 0 <= i < xs.len() implies holds(#[trigger] ns[i], fails) == !holds(
                xs[i],
                fails,
            ) by {
                lemma_negated_complements(xs[i], fails);
            };
            if op == MultiOp::Union {
                if holds(f, fails) {
                    let i = choose|i: int| 0 <= i < xs.len() && holds(#[trigger] xs[i], fails);
                    assert(!holds(ns[i], fails));
                }
            } else {
                if !holds(f, fails) {
                    let i = choose|i: int| 0 <= i < xs.len() && !holds(#[trigger] xs[i], fails);
                    assert(holds(ns[i], fails));
                }
            }
        },
        _ => {},
    }
}

/// A flat formula has no empty operation.
pub proof fn lemma_flat_no_empty(f: Formula)
    requires
        is_flat(f),
    ensures
        no_empty_compound(f),
    decreases f,
{
    match f {
        Formula::Compound { operands: xs, .. } => {
            assert forall|i: int| 0 <= i < xs.len() implies no_empty_compound(#[trigger] xs[i]) by {
                lemma_flat_no_empty(xs[i]);
            };
        },
        _ => {},
    }
}

impl Term {
    /// Takes out every part that never occurs; `None` where nothing is left.
    /// An operation left with one operand becomes that operand.
    pub fn remove_none(self) -> (r: Option<Term>)
        ensures
            r matches Some(t) ==> without_vacuous(self@) == Some(t@),
            r is None ==> without_vacuous(self@) is None,
        decreases self,
    {
        let ghost whole = self;
        match self {
            Term::Empty => None,
            Term::Unary { atom, op } => Some(Term::Unary { atom, op }),
            Term::Multiple { terms, op } => {
                let ghost xs = views(terms@);
                let ghost orig = terms@;
                let ghost whole_terms = terms;
                let n = terms.len();
                let mut rest = terms;
                let mut kept: Vec<Term> = Vec::new();
                let mut i: usize = 0;
                while i < n
                    invariant
                        n == orig.len(),
                        xs == views(orig),
                        0 <= i <= n,
                        rest@ == orig.subrange(i as int, n as int),
                        views(kept@) == kept_operands(xs.subrange(0, i as int)),
                        whole == (Term::Multiple { terms: whole_terms, op }),
                        whole == self,
                        whole_terms@ == orig,
                    decreases n - i,
                {
                    let t = rest.remove(0);
                    assert(t == orig[i as int]);
                    assert(decreases_to!(self => t)) by {
                        assert(decreases_to!(whole => whole->terms));
                        assert(decreases_to!(whole_terms => whole_terms@));
                        assert(decreases_to!(whole_terms@ => whole_terms@[i as int]));
                    };
                    assert(xs.subrange(0, i + 1).drop_last() =~= xs.subrange(0, i as int));
                    let ghost before = kept@;
                    match t.remove_none() {
                        Some(u) => {
                            kept.push(u);
                            assert(views(kept@) =~= views(before).push(u@));
                        },
                        None => {},
                    }
                    i = i + 1;
                }
                assert(xs.subrange(0, n as int) =~= xs);
                proof {
                    lemma_kept_operands_len(xs);
                }
                if kept.len() == 0 || (op == MultiOp::Intersect && kept.len() < n) {
                    None
                } else if kept.len() == 1 {
                    let ghost k = views(kept@);
                    let mut kept = kept;
                    let only = kept.remove(0);
                    assert(only@ == k[0]);
                    Some(only)
                } else {
                    Some(Term::Multiple { terms: kept, op })
                }
            },
        }
    }
}

impl Term {
    /// Merges nested operations of one kind and replaces operations of a
    /// single operand by that operand.
    pub fn flat(self) -> (r: Term)
        requires
            no_empty_compound(self@),
        ensures
            r@ == flattened(self@),
        decreases self,
    {
        let ghost whole = self;
        match self {
            Term::Empty => Term::Empty,
            Term::Unary { atom, op } => Term::Unary { atom, op },
            Term::Multiple { terms, op } => {
                let ghost xs = views(terms@);
                let ghost orig = terms@;
                let ghost whole_terms = terms;
                let n = terms.len();
                let mut rest = terms;
                assert(whole@ == Formula::Compound { op, operands: xs });
                assert(no_empty_compound(xs[0]));
                if n == 1 {
                    let t = rest.remove(0);
                    assert(decreases_to!(self => t)) by {
                        assert(decreases_to!(whole => whole->terms));
                        assert(decreases_to!(whole_terms => whole_terms@));
                        assert(decreases_to!(whole_terms@ => whole_terms@[0]));
                    };
                    return t.flat();
                }
                let mut flated: Vec<Term> = Vec::new();
                let mut i: usize = 0;
                while i < n
                    invariant
                        n == orig.len(),
                        xs == views(orig),
                        0 <= i <= n,
                        rest@ == orig.subrange(i as int, n as int),
                        views(flated@) == spliced(op, xs.subrange(0, i as int)),
                        whole == (Term::Multiple { terms: whole_terms, op }),
                        whole == self,
                        whole_terms@ == orig,
                        no_empty_compound(whole@),
                    decreases n - i,
                {
                    let t = rest.remove(0);
                    assert(t == orig[i as int]);
                    assert(whole@ == Formula::Compound { op, operands: xs });
                    assert(no_empty_compound(xs[i as int]));
                    assert(decreases_to!(self => t)) by {
                        assert(decreases_to!(whole => whole->terms));
                        assert(decreases_to!(whole_terms => whole_terms@));
                        assert(decreases_to!(whole_terms@ => whole_terms@[i as int]));
                    };
                    assert(xs.subrange(0, i + 1).drop_last() =~= xs.subrange(0, i as int));
                    let ghost before = flated@;
                    let child = t.flat();
                    match child {
                        Term::Multiple { terms: child_terms, op: child_op } => {
                            if child_op == op {
                                let ghost moved = child_terms@;
                                let mut child_terms = child_terms;
                                flated.append(&mut child_terms);
                                assert(views(flated@) =~= views(before) + views(moved));
                            } else {
                                flated.push(Term::Multiple { terms: child_terms, op: child_op });
                                assert(views(flated@) =~= views(before).push(
                                    flattened(xs[i as int]),
                                ));
                            }
                        },
                        other => {
                            flated.push(other);
                            assert(views(flated@) =~= views(before).push(flattened(xs[i as int])));
                        },
                    }
                    i = i + 1;
                }
                assert(xs.subrange(0, n as int) =~= xs);
                Term::Multiple { terms: flated, op }
            },
        }
    }
}

impl Term {
    /// Negates the term in place: each atom's sign flips, and unions and
    /// intersections trade places.
    pub fn not(&mut self)
        ensures
            final(self)@ == negated(old(self)@),
    {
        let mut t = Term::Empty;
        std::mem::swap(self, &mut t);
        let mut r = t.negate();
        std::mem::swap(self, &mut r);
    }

    fn negate(self) -> (r: Term)
        ensures
            r@ == negated(self@),
        decreases self,
    {
        match self {
            Term::Empty => Term::Empty,
            Term::Unary { atom, op } => {
                let flipped = match op {
                    UnaryOp::Not => UnaryOp::Identity,
                    UnaryOp::Identity => UnaryOp::Not,
                };
                Term::Unary { atom, op: flipped }
            },
            Term::Multiple { terms, op } => {
                let ghost xs = views(terms@);
                let ghost orig = terms@;
                let ghost whole_terms = terms;
                let n = terms.len();
                let mut rest = terms;
                let mut done: Vec<Term> = Vec::new();
                let mut i: usize = 0;
                while i < n
                    invariant
                        n == orig.len(),
                        xs == views(orig),
                        0 <= i <= n,
                        rest@ == orig.subrange(i as int, n as int),
                        done@.len() == i,
                        forall|j: int| 0 <= j < i ==> (#[trigger] done@[j])@ == negated(xs[j]),
                        self == (Term::Multiple { terms: whole_terms, op }),
                        whole_terms@ == orig,
                    decreases n - i,
                {
                    let t = rest.remove(0);
                    assert(t == orig[i as int]);
                    assert(decreases_to!(self => t)) by {
                        assert(decreases_to!(self => self->terms));
                        assert(decreases_to!(whole_terms => whole_terms@));
                        assert(decreases_to!(whole_terms@ => whole_terms@[i as int]));
                    };
                    done.push(t.negate());
                    i = i + 1;
                }
                let other = match op {
                    MultiOp::Union => MultiOp::Intersect,
                    MultiOp::Intersect => MultiOp::Union,
                };
                let r = Term::Multiple { terms: done, op: other };
                assert(r@ == negated(self@)) by {
                    assert(views(done@) =~= negated(self@)->operands);
                };
                r
            },
        }
    }
}

} // verus!

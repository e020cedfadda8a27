use vstd::prelude::*;

use itertools::Itertools;

use crate::optimize::{
    flattened, height, is_flat, lemma_flat_no_empty, lemma_flattened, lemma_max_height_ge,
    lemma_max_height_le, lemma_negated, max_height, negated, no_empty_compound, no_vacuous, piece,
    same_kind, spliced,
};
use crate::term::{Formula, MultiOp, Term, UnaryOp, views};

verus! {

broadcast use vstd::std_specs::vec::axiom_vec_index_decreases, vstd::seq::group_seq_axioms;

/// One signed product of an evaluation plan: its factors are literals over
/// pairwise distinct atoms, so that under independence the product's
/// probability is the product of the factors' probabilities.
pub struct Summand {
    pub positive: bool,
    pub factors: Vec<Term>,
}

/// The model of a summand.
pub struct SummandModel {
    pub positive: bool,
    pub factors: Seq<Formula>,
}

impl View for Summand {
    type V = SummandModel;

    open spec fn view(&self) -> SummandModel {
        SummandModel { positive: self.positive, factors: views(self.factors@) }
    }
}

/// The models of a plan.
pub open spec fn plan_view(plan: Seq<Summand>) -> Seq<SummandModel> {
    plan.map_values(|s: Summand| s@)
}

/// Every one of `xs` is an atom or a negated atom.
pub open spec fn all_literals(xs: Seq<Formula>) -> bool {
    forall|i: int| 0 <= i < xs.len() ==> (#[trigger] xs[i]) is Literal
}

/// Two of the literals `xs` name one atom with opposite signs.
pub open spec fn signs_conflict(xs: Seq<Formula>) -> bool {
    exists|i: int, j: int|
        0 <= i < xs.len() && 0 <= j < xs.len() && (#[trigger] xs[i])->atom.name == (#[trigger] xs[j])->atom.name
            && xs[i]->negated != xs[j]->negated
}

/// Whether some literal of `xs` names the atom `name`.
pub open spec fn names_atom(xs: Seq<Formula>, name: Seq<char>) -> bool {
    exists|k: int| 0 <= k < xs.len() && (#[trigger] xs[k])->atom.name == name
}

/// The literals `xs` with later repetitions of an atom left out.
pub open spec fn first_occurrences(xs: Seq<Formula>) -> Seq<Formula>
    decreases xs.len(),
{
    if xs.len() == 0 {
        Seq::empty()
    } else {
        let d = first_occurrences(xs.drop_last());
        if names_atom(d, xs.last()->atom.name) {
            d
        } else {
            d.push(xs.last())
        }
    }
}

/// Each literal of `d` has the sign of every literal of `xs` over its atom.
pub open spec fn signs_agree(d: Seq<Formula>, xs: Seq<Formula>) -> bool {
    forall|l: int, k: int|
        0 <= l < d.len() && 0 <= k < xs.len() && (#[trigger] d[l])->atom.name == (#[trigger] xs[k])->atom.name
            ==> d[l]->negated == xs[k]->negated
}

/// The plan of an intersection of literals: the product over its distinct
/// atoms, or nothing where two literals contradict each other; `None` where
/// some operand is not a literal.
pub open spec fn minimum_unit(xs: Seq<Formula>) -> Option<Seq<SummandModel>> {
    if !all_literals(xs) {
        None
    } else if signs_conflict(xs) {
        Some(Seq::empty())
    } else {
        Some(seq![SummandModel { positive: true, factors: first_occurrences(xs) }])
    }
}

pub(crate) proof fn lemma_first_occurrences(xs: Seq<Formula>)
    requires
        all_literals(xs),
    ensures
        all_literals(first_occurrences(xs)),
        forall|j: int| #![trigger first_occurrences(xs)[j]]
            0 <= j < first_occurrences(xs).len() ==> exists|k: int|
                0 <= k < xs.len() && xs[k] == #[trigger] first_occurrences(xs)[j],
        forall|k: int| 0 <= k < xs.len() ==> names_atom(first_occurrences(xs), (#[trigger] xs[k])->atom.name),
        forall|j: int, l: int|
            0 <= j < first_occurrences(xs).len() && 0 <= l < first_occurrences(xs).len() && j != l
                ==> (#[trigger] first_occurrences(xs)[j])->atom.name != (#[trigger] first_occurrences(xs)[l])->atom.name,
    decreases xs.len(),
{
    if xs.len() > 0 {
        let ys = xs.drop_last();
        assert(all_literals(ys));
        lemma_first_occurrences(ys);
        let d = first_occurrences(ys);
        assert forall|j: int| #![trigger first_occurrences(xs)[j]]
            0 <= j < first_occurrences(xs).len() implies exists|k: int|
                0 <= k < xs.len() && xs[k] == first_occurrences(xs)[j] by {
            if j < d.len() {
                let k = choose|k: int| 0 <= k < ys.len() && ys[k] == d[j];
                assert(xs[k] == first_occurrences(xs)[j]);
            } else {
                assert(xs[xs.len() - 1] == first_occurrences(xs)[j]);
            }
        };
        assert forall|k: int| 0 <= k < xs.len() implies names_atom(
            first_occurrences(xs),
            (#[trigger] xs[k])->atom.name,
        ) by {
            if k < ys.len() {
                assert(names_atom(d, ys[k]->atom.name));
                let m = choose|m: int| 0 <= m < d.len() && (#[trigger] d[m])->atom.name == ys[k]->atom.name;
                assert(first_occurrences(xs)[m] == d[m]);
            } else if !names_atom(d, xs.last()->atom.name) {
                assert(first_occurrences(xs)[d.len() as int] == xs.last());
            }
        };
    }
}

/// Whether `a` and `b` are literals over atoms of one name.
fn same_atom(a: &Term, b: &Term) -> (r: bool)
    requires
        a@ is Literal,
        b@ is Literal,
    ensures
        r == (a@->atom.name == b@->atom.name),
{
    match (a, b) {
        (Term::Unary { atom: x, .. }, Term::Unary { atom: y, .. }) => x.same_name(y),
        _ => false,
    }
}

/// Whether `t` is a negated atom.
fn is_negated(t: &Term) -> (r: bool)
    requires
        t@ is Literal,
    ensures
        r == t@->negated,
{
    match t {
        Term::Unary { op, .. } => *op == UnaryOp::Not,
        _ => false,
    }
}

/// The plan of the intersection of `children` where each is an atom or a
/// negated atom, taken as independent events; `None` otherwise.
pub fn calc_minimum_unit(children: &Vec<Term>) -> (r: Option<Vec<Summand>>)
    ensures
        r matches Some(p) ==> minimum_unit(views(children@)) == Some(plan_view(p@)),
        r is None ==> minimum_unit(views(children@)) is None,
{
    let ghost xs = views(children@);
    let n = children.len();
    let mut i: usize = 0;
    while i < n
        invariant
            n == children@.len(),
            xs == views(children@),
            0 <= i <= n,
            forall|j: int| 0 <= j < i ==> (#[trigger] xs[j]) is Literal,
        decreases n - i,
    {
        match &children[i] {
            Term::Unary { .. } => {},
            _ => {
                assert(!all_literals(xs)) by {
                    assert(!(xs[i as int] is Literal));
                };
                return None;
            },
        }
        i = i + 1;
    }
    assert(all_literals(xs));
    let mut seen: Vec<Term> = Vec::new();
    let mut i: usize = 0;
    while i < n
        invariant
            n == children@.len(),
            xs == views(children@),
            all_literals(xs),
            0 <= i <= n,
            views(seen@) == first_occurrences(xs.subrange(0, i as int)),
            signs_agree(views(seen@), xs.subrange(0, i as int)),
        decreases n - i,
    {
        let ghost pre = xs.subrange(0, i as int);
        let ghost next = xs.subrange(0, i + 1);
        let ghost d = views(seen@);
        assert(next.drop_last() =~= pre);
        assert(all_literals(pre));
        proof {
            lemma_first_occurrences(pre);
        }
        assert(xs[i as int] == children@[i as int]@);
        assert(xs[i as int] is Literal);
        let m = seen.len();
        let mut j: usize = 0;
        let mut found = false;
        while j < m && !found
            invariant
                m == seen@.len(),
                0 <= j <= m,
                d == views(seen@),
                d == first_occurrences(pre),
                pre == xs.subrange(0, i as int),
                all_literals(d),
                all_literals(xs),
                i < n == children@.len(),
                xs == views(children@),
                xs[i as int] is Literal,
                found ==> j > 0 && d[j - 1]->atom.name == xs[i as int]->atom.name
                    && d[j - 1]->negated == xs[i as int]->negated,
                !found ==> forall|l: int| 0 <= l < j ==> (#[trigger] d[l])->atom.name != xs[i as int]->atom.name,
            decreases m - j,
        {
            assert(d[j as int] == seen@[j as int]@);
            assert(d[j as int] is Literal);
            if same_atom(&seen[j], &children[i]) {
                if is_negated(&seen[j]) != is_negated(&children[i]) {
                    proof {
                        assert(all_literals(pre)) by {
                            assert forall|k: int| 0 <= k < pre.len() implies (#[trigger] pre[k]) is Literal by {
                                assert(pre[k] == xs[k]);
                            };
                        };
                        lemma_first_occurrences(pre);
                        let fo = first_occurrences(pre);
                        assert(fo[j as int] == d[j as int]);
                        let k = choose|k: int| 0 <= k < pre.len() && pre[k] == fo[j as int];
                        assert(xs[k] == pre[k]);
                        assert(signs_conflict(xs));
                    }
                    let none: Vec<Summand> = Vec::new();
                    assert(plan_view(none@) =~= Seq::<SummandModel>::empty());
                    return Some(none);
                }
                found = true;
            }
            j = j + 1;
        }
        if !found {
            assert(!names_atom(d, xs[i as int]->atom.name));
            seen.push(children[i].copy());
            assert(views(seen@) =~= d.push(xs[i as int]));
            assert(next.last() == xs[i as int]);
        } else {
            assert(names_atom(d, next.last()->atom.name));
        }
        assert(signs_agree(views(seen@), next)) by {
            let e = views(seen@);
            assert forall|l: int, k: int|
                0 <= l < e.len() && 0 <= k < next.len() && (#[trigger] e[l])->atom.name
                    == (#[trigger] next[k])->atom.name implies e[l]->negated == next[k]->negated by {
                if k < i {
                    assert(next[k] == pre[k]);
                    if l == d.len() {
                        assert(names_atom(d, pre[k]->atom.name));
                    } else {
                        assert(e[l] == d[l]);
                    }
                } else if found {
                    assert(e[l] == d[l]);
                    assert(l == j - 1);
                } else if l < d.len() {
                    assert(e[l] == d[l]);
                }
            };
        };
        i = i + 1;
    }
    assert(xs.subrange(0, n as int) =~= xs);
    assert(!signs_conflict(xs)) by {
        lemma_first_occurrences(xs);
        let d = first_occurrences(xs);
        assert forall|a: int, b: int|
            0 <= a < xs.len() && 0 <= b < xs.len() && (#[trigger] xs[a])->atom.name == (#[trigger] xs[b])->atom.name
                implies xs[a]->negated == xs[b]->negated by {
            assert(names_atom(d, xs[a]->atom.name));
            let l = choose|l: int| 0 <= l < d.len() && (#[trigger] d[l])->atom.name == xs[a]->atom.name;
            assert(d[l]->atom.name == xs[b]->atom.name);
        };
    };
    let mut r: Vec<Summand> = Vec::new();
    r.push(Summand { positive: true, factors: seen });
    assert(plan_view(r@) =~= seq![SummandModel { positive: true, factors: first_occurrences(xs) }]);
    Some(r)
}

/// The `k`-element subsets of the indices `lo .. n`, each in increasing order,
/// listed in lexicographic order.
pub open spec fn choose_from(lo: int, n: int, k: nat) -> Seq<Seq<int>>
    decreases n - lo,
{
    if k == 0 {
        seq![Seq::empty()]
    } else if lo >= n {
        Seq::empty()
    } else {
        choose_from(lo + 1, n, (k - 1) as nat).map_values(|c: Seq<int>| seq![lo] + c) + choose_from(
            lo + 1,
            n,
            k,
        )
    }
}

/// The subsets of the indices below `n` with fewer than `k` elements: the
/// smaller first, those of one size in lexicographic order.
pub open spec fn subsets_below(n: nat, k: nat) -> Seq<Seq<int>>
    decreases k,
{
    if k == 0 {
        Seq::empty()
    } else {
        subsets_below(n, (k - 1) as nat) + choose_from(0, n as int, (k - 1) as nat)
    }
}

/// All subsets of the indices below `n`, the smaller first, those of one
/// size in lexicographic order.
pub open spec fn powerset_of(n: nat) -> Seq<Seq<int>> {
    subsets_below(n, n + 1)
}

/// Index lists as sequences of integers.
pub open spec fn index_lists(v: Seq<Vec<usize>>) -> Seq<Seq<int>> {
    v.map_values(|l: Vec<usize>| l@.map_values(|i: usize| i as int))
}

/// Relies on `Itertools::powerset` over `0..n`, which yields every subset of
/// the indices below `n`, as increasing lists: the smaller subsets first,
/// those of one size in lexicographic order.
#[verifier::external_body]
pub(crate) fn index_powerset(n: usize) -> (r: Vec<Vec<usize>>)
    ensures
        index_lists(r@) == powerset_of(n as nat),
{
    (0..n).powerset().collect()
}

pub(crate) proof fn lemma_choose_from_bounds(lo: int, n: int, k: nat)
    ensures
        forall|c: int, j: int|
            0 <= c < choose_from(lo, n, k).len() && 0 <= j < choose_from(lo, n, k)[c].len() ==> lo <= (
            #[trigger] choose_from(lo, n, k)[c][j]) < n,
    decreases n - lo,
{
    if k > 0 && lo < n {
        lemma_choose_from_bounds(lo + 1, n, (k - 1) as nat);
        lemma_choose_from_bounds(lo + 1, n, k);
        let a = choose_from(lo + 1, n, (k - 1) as nat).map_values(|c: Seq<int>| seq![lo] + c);
        let b = choose_from(lo + 1, n, k);
        assert forall|c: int, j: int|
            0 <= c < choose_from(lo, n, k).len() && 0 <= j < choose_from(lo, n, k)[c].len() implies lo <= (
            #[trigger] choose_from(lo, n, k)[c][j]) < n by {
            if c < a.len() {
                let t = choose_from(lo + 1, n, (k - 1) as nat)[c];
                assert(choose_from(lo, n, k)[c] == seq![lo] + t);
                if j > 0 {
                    assert((seq![lo] + t)[j] == t[j - 1]);
                }
            } else {
                assert(choose_from(lo, n, k)[c] == b[c - a.len()]);
            }
        };
    }
}

pub(crate) proof fn lemma_subsets_below_bounds(n: nat, k: nat)
    ensures
        forall|c: int, j: int|
            0 <= c < subsets_below(n, k).len() && 0 <= j < subsets_below(n, k)[c].len() ==> 0 <= (
            #[trigger] subsets_below(n, k)[c][j]) < n,
    decreases k,
{
    if k > 0 {
        lemma_subsets_below_bounds(n, (k - 1) as nat);
        lemma_choose_from_bounds(0, n as int, (k - 1) as nat);
        let a = subsets_below(n, (k - 1) as nat);
        let b = choose_from(0, n as int, (k - 1) as nat);
        assert forall|c: int, j: int|
            0 <= c < subsets_below(n, k).len() && 0 <= j < subsets_below(n, k)[c].len() implies 0 <= (
            #[trigger] subsets_below(n, k)[c][j]) < n by {
            if c < a.len() {
                assert(subsets_below(n, k)[c] == a[c]);
            } else {
                assert(subsets_below(n, k)[c] == b[c - a.len()]);
            }
        };
    }
}

/// Twice the height, and one more for a union: every event that the
/// evaluation of `f` turns to has a smaller rank.
pub open spec fn rank(f: Formula) -> nat {
    2 * height(f) + if same_kind(MultiOp::Union, f) {
        1nat
    } else {
        0nat
    }
}

/// The operands of `f` at the indices `s`; for an intersection, negated.
pub open spec fn chosen(f: Formula, s: Seq<int>) -> Seq<Formula> {
    Seq::new(
        s.len(),
        |j: int|
            if same_kind(MultiOp::Union, f) {
                f->operands[s[j]]
            } else {
                negated(f->operands[s[j]])
            },
    )
}

/// The event that the evaluation of `f` turns to for the subset `s` of its
/// operands: for a union, that they all occur; for an intersection, that
/// none of them does.
pub open spec fn sub_event(f: Formula, s: Seq<int>) -> Formula {
    flattened(Formula::Compound { op: MultiOp::Intersect, operands: chosen(f, s) })
}

/// The sign that the subset `s` gets in the expansion of `f`.
pub open spec fn sub_sign(f: Formula, s: Seq<int>) -> bool {
    (s.len() % 2 == 1) == same_kind(MultiOp::Union, f)
}

/// `p` with each sign turned where `positive` is false.
pub open spec fn signed(positive: bool, p: Seq<SummandModel>) -> Seq<SummandModel> {
    p.map_values(|t: SummandModel| SummandModel { positive: t.positive == positive, factors: t.factors })
}

/// The inclusion-exclusion terms of `f` for the non-empty subsets `subs`, in
/// order.
pub open spec fn expansion(f: Formula, subs: Seq<Seq<int>>) -> Seq<SummandModel>
    decreases rank(f), subs.len(),
{
    if subs.len() == 0 {
        Seq::empty()
    } else {
        let s = subs.last();
        let g = sub_event(f, s);
        expansion(f, subs.drop_last()) + if s.len() > 0 && rank(g) < rank(f) {
            signed(sub_sign(f, s), plan(g))
        } else {
            Seq::empty()
        }
    }
}

/// The number of operands of `f`.
pub open spec fn width(f: Formula) -> nat {
    match f {
        Formula::Compound { operands, .. } => operands.len(),
        _ => 0,
    }
}

/// The evaluation plan of `f`: signed products of literals whose sum, with
/// each product taken over independent atoms, is the probability of `f`.
/// A union expands by inclusion-exclusion over the intersections of its
/// operands; an intersection of literals is one product, and any other
/// intersection is one minus the union of its negated operands.
pub open spec fn plan(f: Formula) -> Seq<SummandModel>
    decreases rank(f), powerset_of(width(f)).len() + 1,
{
    match f {
        Formula::Vacuous => Seq::empty(),
        Formula::Literal { .. } => seq![SummandModel { positive: true, factors: seq![f] }],
        Formula::Compound { op, operands } => if op == MultiOp::Union {
            expansion(f, powerset_of(operands.len()))
        } else {
            match minimum_unit(operands) {
                Some(p) => p,
                None => seq![SummandModel { positive: true, factors: Seq::empty() }] + expansion(
                    f,
                    powerset_of(operands.len()),
                ),
            }
        },
    }
}

/// Each subset of the operands of a flat formula leads to a flat event of
/// smaller rank.
pub(crate) proof fn lemma_sub_event(f: Formula, s: Seq<int>)
    requires
        f is Compound,
        is_flat(f),
        no_vacuous(f),
        s.len() > 0,
        forall|j: int| 0 <= j < s.len() ==> 0 <= #[trigger] s[j] < f->operands.len(),
        same_kind(MultiOp::Intersect, f) ==> !all_literals(f->operands),
    ensures
        rank(sub_event(f, s)) < rank(f),
        no_empty_compound(Formula::Compound { op: MultiOp::Intersect, operands: chosen(f, s) }),
        is_flat(sub_event(f, s)),
        no_vacuous(sub_event(f, s)),
{
    let xs = f->operands;
    let ys = chosen(f, s);
    let m = max_height(xs);
    assert forall|k: int| 0 <= k < ys.len() implies {
        &&& (#[trigger] ys[k]) is Literal || same_kind(MultiOp::Intersect, ys[k])
        &&& height(ys[k]) <= m
        &&& no_vacuous(ys[k])
        &&& no_empty_compound(ys[k])
    } by {
        let x = xs[s[k]];
        lemma_max_height_ge(xs, s[k]);
        lemma_flat_no_empty(x);
        lemma_negated(x);
    };
    let g0 = Formula::Compound { op: MultiOp::Intersect, operands: ys };
    lemma_flattened(g0);
    if same_kind(MultiOp::Intersect, f) {
        let i = choose|i: int| 0 <= i < xs.len() && !((#[trigger] xs[i]) is Literal);
        lemma_max_height_ge(xs, i);
        assert(no_vacuous(xs[i]));
        assert(xs[i] is Compound);
        assert(m >= 1);
        assert(rank(f) == 2 * (1 + m));
    } else {
        assert(rank(f) == 2 * (1 + m) + 1);
    }
    assert(height(f) == 1 + m);
    if ys.len() == 1 {
        lemma_flattened(ys[0]);
        assert(sub_event(f, s) == flattened(ys[0]));
        assert(height(sub_event(f, s)) <= m);
    } else {
        let op = MultiOp::Intersect;
        let bound: nat = if m >= 1 {
            (m - 1) as nat
        } else {
            0
        };
        let p = |e: Formula| height(e) <= bound;
        assert forall|k: int, e: int|
            0 <= k < ys.len() && 0 <= e < piece(op, flattened(ys[k])).len() implies p(
                #[trigger] piece(op, flattened(#[trigger] ys[k]))[e],
            ) by {
            let g = flattened(ys[k]);
            lemma_flattened(ys[k]);
            if same_kind(op, g) {
                assert(piece(op, g)[e] == g->operands[e]);
                lemma_max_height_ge(g->operands, e);
            } else {
                assert(piece(op, g)[e] == g);
            }
        };
        lemma_spliced_elements_bound(op, ys, bound);
        lemma_max_height_le(spliced(op, ys), bound);
        assert(sub_event(f, s) == Formula::Compound { op, operands: spliced(op, ys) });
        assert(height(sub_event(f, s)) <= 1 + bound);
        assert(!same_kind(MultiOp::Union, sub_event(f, s)));
    }
}

proof fn lemma_spliced_elements_bound(op: MultiOp, xs: Seq<Formula>, bound: nat)
    requires
        forall|k: int, e: int|
            0 <= k < xs.len() && 0 <= e < piece(op, flattened(xs[k])).len() ==> height(
                #[trigger] piece(op, flattened(#[trigger] xs[k]))[e],
            ) <= bound,
    ensures
        forall|j: int| 0 <= j < spliced(op, xs).len() ==> height(#[trigger] spliced(op, xs)[j]) <= bound,
{
    crate::optimize::lemma_spliced_elements(op, xs, |e: Formula| height(e) <= bound);
}

impl Term {
    /// The evaluation plan of a flat term with no part that never occurs.
    fn inner_calc(self) -> (r: Vec<Summand>)
        requires
            is_flat(self@),
            no_vacuous(self@),
        ensures
            plan_view(r@) == plan(self@),
        decreases rank(self@),
    {
        let ghost f = self@;
        match self {
            Term::Empty => Vec::new(),
            Term::Unary { atom, op } => {
                let mut factors: Vec<Term> = Vec::new();
                factors.push(Term::Unary { atom, op });
                let mut r: Vec<Summand> = Vec::new();
                r.push(Summand { positive: true, factors });
                assert(views(factors@) =~= seq![f]);
                assert(plan_view(r@) =~= plan(f));
                r
            },
            Term::Multiple { terms, op } => {
                let ghost xs = views(terms@);
                let n = terms.len();
                let mut out: Vec<Summand> = Vec::new();
                if op == MultiOp::Intersect {
                    match calc_minimum_unit(&terms) {
                        Some(p) => {
                            return p;
                        },
                        None => {},
                    }
                    let no_factors: Vec<Term> = Vec::new();
                    assert(views(no_factors@) =~= Seq::<Formula>::empty());
                    out.push(Summand { positive: true, factors: no_factors });
                }
                let ghost head = plan_view(out@);
                let ghost ps = powerset_of(n as nat);
                let subsets = index_powerset(n);
                proof {
                    lemma_subsets_below_bounds(n as nat, (n + 1) as nat);
                    assert(expansion(f, ps.subrange(0, 0)) =~= Seq::<SummandModel>::empty());
                    assert(head + Seq::<SummandModel>::empty() =~= head);
                }
                let mut k: usize = 0;
                while k < subsets.len()
                    invariant
                        index_lists(subsets@) == ps,
                        ps == powerset_of(n as nat),
                        0 <= k <= subsets@.len(),
                        plan_view(out@) == head + expansion(f, ps.subrange(0, k as int)),
                        f == self@,
                        f == (Formula::Compound { op, operands: xs }),
                        xs == views(terms@),
                        n == terms@.len(),
                        is_flat(f),
                        no_vacuous(f),
                        op == MultiOp::Intersect ==> !all_literals(xs),
                        forall|c: int, j: int|
                            0 <= c < ps.len() && 0 <= j < ps[c].len() ==> 0 <= #[trigger] ps[c][j] < n,
                    decreases subsets@.len() - k,
                {
                    let s = &subsets[k];
                    let ghost sv = ps[k as int];
                    assert(sv == s@.map_values(|i: usize| i as int));
                    assert(ps.subrange(0, k + 1).drop_last() =~= ps.subrange(0, k as int));
                    assert(ps.subrange(0, k + 1).last() == sv);
                    let ghost before = plan_view(out@);
                    if s.len() > 0 {
                        let mut picked: Vec<Term> = Vec::new();
                        let mut j: usize = 0;
                        while j < s.len()
                            invariant
                                0 <= j <= s@.len(),
                                sv == s@.map_values(|i: usize| i as int),
                                picked@.len() == j,
                                forall|l: int| 0 <= l < j ==> (#[trigger] picked@[l])@ == chosen(f, sv)[l],
                                forall|l: int| 0 <= l < sv.len() ==> 0 <= #[trigger] sv[l] < n,
                                f == (Formula::Compound { op, operands: xs }),
                                xs == views(terms@),
                                n == terms@.len(),
                            decreases s@.len() - j,
                        {
                            assert(sv[j as int] == s@[j as int] as int);
                            let mut c = terms[s[j]].copy();
                            if op == MultiOp::Intersect {
                                c.not();
                            }
                            picked.push(c);
                            j = j + 1;
                        }
                        proof {
                            assert forall|l: int| 0 <= l < sv.len() implies 0 <= #[trigger] sv[l] < f->operands.len() by {
                                assert(0 <= ps[k as int][l] < n);
                            };
                            lemma_sub_event(f, sv);
                        }
                        let g = Term::intersect(picked);
                        assert(views(picked@) =~= chosen(f, sv));
                        let g = g.flat();
                        let sub = g.inner_calc();
                        let positive = (s.len() % 2 == 1) == (op == MultiOp::Union);
                        let ghost sp = plan_view(sub@);
                        let ghost orig_sub = sub@;
                        let mut rest = sub;
                        let m = rest.len();
                        let mut q: usize = 0;
                        while q < m
                            invariant
                                m == orig_sub.len(),
                                sp == plan_view(orig_sub),
                                0 <= q <= m,
                                rest@ == orig_sub.subrange(q as int, m as int),
                                plan_view(out@) == before + signed(positive, sp.subrange(0, q as int)),
                            decreases m - q,
                        {
                            let t = rest.remove(0);
                            assert(t == orig_sub[q as int]);
                            let ghost mid = plan_view(out@);
                            out.push(Summand { positive: t.positive == positive, factors: t.factors });
                            assert(plan_view(out@) =~= mid.push(signed(positive, sp)[q as int]));
                            assert(signed(positive, sp.subrange(0, q + 1)) =~= signed(
                                positive,
                                sp.subrange(0, q as int),
                            ).push(signed(positive, sp)[q as int]));
                            q = q + 1;
                        }
                        assert(sp.subrange(0, m as int) =~= sp);
                        assert(sub_sign(f, sv) == positive);
                        assert(plan_view(out@) =~= head + expansion(f, ps.subrange(0, k + 1)));
                    } else {
                        assert(plan_view(out@) =~= head + expansion(f, ps.subrange(0, k + 1)));
                    }
                    k = k + 1;
                }
                assert(ps.subrange(0, subsets@.len() as int) =~= ps);
                assert(plan(f) == head + expansion(f, ps));
                out
            },
        }
    }

    /// Whether the term can be evaluated: no operation of it is empty and no
    /// part of it is the event that never occurs.
    pub fn is_evaluable(&self) -> (r: bool)
        ensures
            r == (no_empty_compound(self@) && no_vacuous(self@)),
        decreases self,
    {
        match self {
            Term::Empty => false,
            Term::Unary { .. } => true,
            Term::Multiple { terms, op } => {
                let ghost whole_terms = *terms;
                let ghost xs = views(terms@);
                let n = terms.len();
                let mut i: usize = 0;
                while i < n
                    invariant
                        n == terms@.len(),
                        xs == views(terms@),
                        0 <= i <= n,
                        forall|j: int| 0 <= j < i ==> no_empty_compound(#[trigger] xs[j]) && no_vacuous(xs[j]),
                        *self == (Term::Multiple { terms: whole_terms, op: *op }),
                        whole_terms == *terms,
                    decreases n - i,
                {
                    assert(decreases_to!(*self => terms@[i as int])) by {
                        assert(decreases_to!(*self => (*self)->terms));
                        assert(decreases_to!(whole_terms => whole_terms@));
                    };
                    assert(xs[i as int] == terms@[i as int]@);
                    if !terms[i].is_evaluable() {
                        return false;
                    }
                    i = i + 1;
                }
                n > 0
            },
        }
    }

    /// The evaluation plan of the term: signed products of literals over
    /// distinct atoms whose sum, with the atoms taken as independent, is the
    /// probability that the event occurs.
    pub fn calc(&self) -> (r: Vec<Summand>)
        requires
            no_empty_compound(self@),
            no_vacuous(self@),
        ensures
            plan_view(r@) == plan(flattened(self@)),
    {
        proof {
            lemma_flattened(self@);
        }
        self.copy().flat().inner_calc()
    }
}

} // verus!

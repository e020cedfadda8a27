use std::sync::Arc;

use vstd::prelude::*;

use crate::definition::{
    Dependency, Group, Service, dependency_formula, failure_sets, group_formula, lemma_group_specs,
    quorum_formula, service_formula, sets_from,
};
use crate::optimize::{lemma_intersect_holds, lemma_union_holds};
use crate::probability::choose_from;
use crate::term::{Formula, MultiOp, Probability, holds};

verus! {

broadcast use vstd::seq::group_seq_axioms;

/// The number of the first `k` of `members` whose failure event occurs.
pub open spec fn failed_count(
    members: Seq<Arc<Service>>,
    reg: Map<Seq<char>, Probability>,
    fails: spec_fn(Seq<char>) -> bool,
    k: int,
) -> nat
    decreases k,
{
    if k <= 0 {
        0
    } else {
        failed_count(members, reg, fails, k - 1) + if holds(service_formula(*members[k - 1], reg), fails) {
            1nat
        } else {
            0nat
        }
    }
}

/// The indices below `k` of the members whose failure event occurs, in
/// increasing order.
pub open spec fn failed_indices(
    members: Seq<Arc<Service>>,
    reg: Map<Seq<char>, Probability>,
    fails: spec_fn(Seq<char>) -> bool,
    k: int,
) -> Seq<int>
    decreases k,
{
    if k <= 0 {
        Seq::empty()
    } else {
        let d = failed_indices(members, reg, fails, k - 1);
        if holds(service_formula(*members[k - 1], reg), fails) {
            d.push(k - 1)
        } else {
            d
        }
    }
}

/// `s` is strictly increasing, with every element in `lo .. n`.
pub open spec fn increasing_within(s: Seq<int>, lo: int, n: int) -> bool {
    &&& forall|j: int| 0 <= j < s.len() ==> lo <= #[trigger] s[j] < n
    &&& forall|i: int, j: int| 0 <= i < j < s.len() ==> #[trigger] s[i] < #[trigger] s[j]
}

proof fn lemma_failed_indices(
    members: Seq<Arc<Service>>,
    reg: Map<Seq<char>, Probability>,
    fails: spec_fn(Seq<char>) -> bool,
    k: int,
)
    requires
        0 <= k <= members.len(),
    ensures
        failed_indices(members, reg, fails, k).len() == failed_count(members, reg, fails, k),
        failed_count(members, reg, fails, k) <= k,
        increasing_within(failed_indices(members, reg, fails, k), 0, k),
        forall|j: int|
            0 <= j < failed_indices(members, reg, fails, k).len() ==> holds(
                service_formula(*members[#[trigger] failed_indices(members, reg, fails, k)[j]], reg),
                fails,
            ),
    decreases k,
{
    if k > 0 {
        lemma_failed_indices(members, reg, fails, k - 1);
    }
}

/// Every increasing list of `k` indices in `lo .. n` is one of the
/// `k`-element subsets that `choose_from` lists.
proof fn lemma_choose_from_complete(lo: int, n: int, s: Seq<int>)
    requires
        increasing_within(s, lo, n),
    ensures
        exists|c: int| 0 <= c < choose_from(lo, n, s.len()).len() && #[trigger] choose_from(lo, n, s.len())[c] == s,
    decreases n - lo,
{
    let k = s.len();
    if k == 0 {
        assert(choose_from(lo, n, 0)[0] =~= s);
    } else {
        assert(lo <= s[0] < n);
        let a = choose_from(lo + 1, n, (k - 1) as nat).map_values(|c: Seq<int>| seq![lo] + c);
        let b = choose_from(lo + 1, n, k);
        assert(choose_from(lo, n, k) == a + b);
        if s[0] == lo {
            let rest = s.subrange(1, k as int);
            assert forall|j: int| 0 <= j < rest.len() implies lo + 1 <= #[trigger] rest[j] < n by {
                assert(rest[j] == s[j + 1]);
                assert(s[0] < s[j + 1]);
            };
            assert forall|i: int, j: int| 0 <= i < j < rest.len() implies #[trigger] rest[i] < #[trigger] rest[j] by {
                assert(rest[i] == s[i + 1] && rest[j] == s[j + 1]);
            };
            lemma_choose_from_complete(lo + 1, n, rest);
            let c = choose|c: int|
                0 <= c < choose_from(lo + 1, n, rest.len()).len() && #[trigger] choose_from(lo + 1, n, rest.len())[c]
                    == rest;
            assert(a[c] =~= s);
            assert((a + b)[c] == a[c]);
        } else {
            assert forall|j: int| 0 <= j < s.len() implies lo + 1 <= #[trigger] s[j] < n by {
                if j > 0 {
                    assert(s[0] < s[j]);
                }
            };
            lemma_choose_from_complete(lo + 1, n, s);
            let c = choose|c: int| 0 <= c < b.len() && #[trigger] b[c] == s;
            assert((a + b)[a.len() + c] == b[c]);
        }
    }
}

/// Every list that `choose_from` gives is increasing within its range.
proof fn lemma_choose_from_increasing(lo: int, n: int, k: nat)
    ensures
        forall|c: int| 0 <= c < choose_from(lo, n, k).len() ==> increasing_within(#[trigger] choose_from(lo, n, k)[c], lo, n),
    decreases n - lo,
{
    if k > 0 && lo < n {
        lemma_choose_from_increasing(lo + 1, n, (k - 1) as nat);
        lemma_choose_from_increasing(lo + 1, n, k);
        let a = choose_from(lo + 1, n, (k - 1) as nat).map_values(|c: Seq<int>| seq![lo] + c);
        let b = choose_from(lo + 1, n, k);
        assert forall|c: int| 0 <= c < choose_from(lo, n, k).len() implies increasing_within(
            #[trigger] choose_from(lo, n, k)[c],
            lo,
            n,
        ) by {
            if c < a.len() {
                let t = choose_from(lo + 1, n, (k - 1) as nat)[c];
                let s = seq![lo] + t;
                assert(choose_from(lo, n, k)[c] == s);
                assert(increasing_within(t, lo + 1, n));
                assert forall|j: int| 0 <= j < s.len() implies lo <= #[trigger] s[j] < n by {
                    if j > 0 {
                        assert(s[j] == t[j - 1]);
                    }
                };
                assert forall|i: int, j: int| 0 <= i < j < s.len() implies #[trigger] s[i] < #[trigger] s[j] by {
                    assert(s[j] == t[j - 1]);
                    if i > 0 {
                        assert(s[i] == t[i - 1]);
                    }
                };
            } else {
                assert(choose_from(lo, n, k)[c] == b[c - a.len()]);
            }
        };
    }
}

/// The lists of `sets_from(n, k0)` are increasing within `0 .. n` and have
/// at least `k0` elements; every increasing list within `0 .. n` of `k0` to
/// `n` elements is among them.
proof fn lemma_sets_from(n: nat, k0: nat)
    ensures
        forall|c: int|
            0 <= c < sets_from(n, k0).len() ==> increasing_within(#[trigger] sets_from(n, k0)[c], 0, n as int)
                && sets_from(n, k0)[c].len() >= k0,
        forall|s: Seq<int>|
            increasing_within(s, 0, n as int) && k0 <= s.len() <= n ==> exists|c: int|
                0 <= c < sets_from(n, k0).len() && #[trigger] sets_from(n, k0)[c] == s,
    decreases n + 1 - k0,
{
    if k0 <= n {
        lemma_sets_from(n, k0 + 1);
        let a = choose_from(0, n as int, k0);
        let b = sets_from(n, k0 + 1);
        assert(sets_from(n, k0) == a + b);
        lemma_choose_from_increasing(0, n as int, k0);
        crate::semantics::lemma_choose_from_len(0, n as int, k0);
        assert forall|c: int| 0 <= c < sets_from(n, k0).len() implies increasing_within(
            #[trigger] sets_from(n, k0)[c],
            0,
            n as int,
        ) && sets_from(n, k0)[c].len() >= k0 by {
            if c < a.len() {
                assert(sets_from(n, k0)[c] == a[c]);
            } else {
                assert(sets_from(n, k0)[c] == b[c - a.len()]);
            }
        };
        assert forall|s: Seq<int>| increasing_within(s, 0, n as int) && k0 <= s.len() <= n implies exists|c: int|
            0 <= c < sets_from(n, k0).len() && #[trigger] sets_from(n, k0)[c] == s by {
            if s.len() == k0 {
                lemma_choose_from_complete(0, n as int, s);
                let c = choose|c: int| 0 <= c < a.len() && #[trigger] a[c] == s;
                assert(sets_from(n, k0)[c] == a[c]);
            } else {
                let c = choose|c: int| 0 <= c < b.len() && #[trigger] b[c] == s;
                assert(sets_from(n, k0)[a.len() + c] == b[c]);
            }
        };
    }
}

/// An increasing list of failed members below `m` is no longer than the
/// count of failed members below `m`.
proof fn lemma_count_bounds_list(
    members: Seq<Arc<Service>>,
    reg: Map<Seq<char>, Probability>,
    fails: spec_fn(Seq<char>) -> bool,
    s: Seq<int>,
    m: int,
)
    requires
        0 <= m <= members.len(),
        increasing_within(s, 0, m),
        forall|j: int| 0 <= j < s.len() ==> holds(service_formula(*members[#[trigger] s[j]], reg), fails),
    ensures
        failed_count(members, reg, fails, m) >= s.len(),
    decreases m,
{
    if m > 0 {
        if s.len() > 0 && s.last() == m - 1 {
            let d = s.drop_last();
            assert forall|j: int| 0 <= j < d.len() implies 0 <= #[trigger] d[j] < m - 1 by {
                assert(d[j] == s[j]);
                assert(s[j] < s[s.len() - 1]);
            };
            assert forall|j: int| 0 <= j < d.len() implies holds(service_formula(*members[#[trigger] d[j]], reg), fails) by {
                assert(d[j] == s[j]);
            };
            lemma_count_bounds_list(members, reg, fails, d, m - 1);
            assert(holds(service_formula(*members[s[s.len() - 1]], reg), fails));
        } else {
            assert forall|j: int| 0 <= j < s.len() implies 0 <= #[trigger] s[j] < m - 1 by {
                if s[j] == m - 1 {
                    assert(j == s.len() - 1 || s[j] < s[s.len() - 1]);
                }
            };
            lemma_count_bounds_list(members, reg, fails, s, m - 1);
        }
    }
}

/// A group of `members` with quorum `quorum` fails exactly when fewer than
/// `quorum` of its members are available, that is when fewer than `quorum`
/// of them have a failure event that does not occur.
pub proof fn lemma_quorum(
    members: Seq<Arc<Service>>,
    quorum: nat,
    reg: Map<Seq<char>, Probability>,
    fails: spec_fn(Seq<char>) -> bool,
)
    requires
        quorum <= members.len(),
    ensures
        holds(quorum_formula(members, quorum, reg), fails) == (members.len() - failed_count(
            members,
            reg,
            fails,
            members.len() as int,
        ) < quorum),
{
    let n = members.len();
    let k0 = (n + 1 - quorum) as nat;
    let sets = failure_sets(n, quorum);
    let count = failed_count(members, reg, fails, n as int);
    lemma_sets_from(n, k0);
    lemma_failed_indices(members, reg, fails, n as int);
    let f = quorum_formula(members, quorum, reg);
    if sets.len() == 0 {
        if count + quorum > n {
            let s = failed_indices(members, reg, fails, n as int);
            assert(exists|c: int| 0 <= c < sets.len() && #[trigger] sets[c] == s);
        }
    } else {
        let ops = f->operands;
        lemma_union_holds(ops, fails);
        if holds(f, fails) {
            let c = choose|c: int| 0 <= c < ops.len() && holds(#[trigger] ops[c], fails);
            let inner = ops[c]->operands;
            lemma_intersect_holds(inner, fails);
            let s = sets[c];
            assert forall|j: int| 0 <= j < s.len() implies holds(service_formula(*members[#[trigger] s[j]], reg), fails) by {
                assert(holds(inner[j], fails));
            };
            lemma_count_bounds_list(members, reg, fails, s, n as int);
        } else if count + quorum > n {
            let s = failed_indices(members, reg, fails, n as int);
            let c = choose|c: int| 0 <= c < sets.len() && #[trigger] sets[c] == s;
            let inner = ops[c]->operands;
            lemma_intersect_holds(inner, fails);
            assert forall|j: int| 0 <= j < inner.len() implies holds(#[trigger] inner[j], fails) by {
                assert(holds(service_formula(*members[s[j]], reg), fails));
            };
            assert(holds(ops[c], fails));
        }
    }
}

/// A group fails exactly when fewer than its quorum of members are
/// available.
pub proof fn lemma_group_quorum(g: Group, reg: Map<Seq<char>, Probability>, fails: spec_fn(Seq<char>) -> bool)
    requires
        g.quorum_spec() <= g.members().len(),
    ensures
        holds(group_formula(g, reg), fails) == (g.members().len() - failed_count(
            g.members(),
            reg,
            fails,
            g.members().len() as int,
        ) < g.quorum_spec()),
{
    lemma_group_specs(g, reg, Seq::empty(), Probability { bits: 0, complement: false });
    lemma_quorum(g.members(), g.quorum_spec(), reg, fails);
}

/// A service with dependencies fails exactly when one of them does, and
/// never where it has none.
pub proof fn lemma_dependencies_fail(
    deps: Vec<Dependency>,
    reg: Map<Seq<char>, Probability>,
    fails: spec_fn(Seq<char>) -> bool,
)
    ensures
        holds(service_formula(Service::Dependencies(deps), reg), fails) == exists|i: int|
            0 <= i < deps@.len() && holds(dependency_formula(#[trigger] deps@[i], reg), fails),
{
    let f = service_formula(Service::Dependencies(deps), reg);
    if deps.len() > 0 {
        let ops = f->operands;
        lemma_union_holds(ops, fails);
        if holds(f, fails) {
            let i = choose|i: int| 0 <= i < ops.len() && holds(#[trigger] ops[i], fails);
            assert(holds(dependency_formula(deps@[i], reg), fails));
        }
        if exists|i: int| 0 <= i < deps@.len() && holds(dependency_formula(#[trigger] deps@[i], reg), fails) {
            let i = choose|i: int| 0 <= i < deps@.len() && holds(dependency_formula(#[trigger] deps@[i], reg), fails);
            assert(holds(ops[i], fails));
        }
    }
}

} // verus!

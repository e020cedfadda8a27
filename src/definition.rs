use std::sync::Arc;

use vstd::prelude::*;

use itertools::Itertools;

use crate::probability::{choose_from, index_lists};
use crate::term::{AtomModel, AtomRegistry, DumpTerm, Formula, MultiOp, Probability, Term, views};

verus! {

broadcast use vstd::std_specs::vec::axiom_vec_index_decreases, vstd::seq::group_seq_axioms;

/// A service: one of known availability, or one that needs all of its
/// dependencies.
pub enum Service {
    KnownSLA { name: String, sla: Probability },
    Dependencies(Vec<Dependency>),
}

/// Services of which at least `quorum` must be available for the group to be.
pub struct Group {
    dependencies: Vec<Arc<Service>>,
    quorum: usize,
}

pub enum Dependency {
    Service(Arc<Service>),
    Group(Arc<Group>),
}

/// A stateless marker for the allocation of atoms; atoms themselves are
/// interned by `AtomRegistry`.
pub struct AtomAllocator {}

impl Group {
    /// A group has at least one member, and no quorum above its size.
    #[verifier::type_invariant]
    closed spec fn wf(&self) -> bool {
        0 < self.dependencies.len() && self.quorum <= self.dependencies.len()
    }

    /// The members of the group.
    pub closed spec fn members(&self) -> Seq<Arc<Service>> {
        self.dependencies@
    }

    /// How many members must be available.
    pub closed spec fn quorum_spec(&self) -> nat {
        self.quorum as nat
    }
}

/// The sets of indices below `n` with at least `k` elements: the smaller
/// first, those of one size in lexicographic order.
pub open spec fn sets_from(n: nat, k: nat) -> Seq<Seq<int>>
    decreases n + 1 - k,
{
    if k > n {
        Seq::empty()
    } else {
        choose_from(0, n as int, k) + sets_from(n, k + 1)
    }
}

/// The sets of members whose failure together brings a group of `n` with
/// quorum `quorum` down: those that leave fewer than `quorum` available.
pub open spec fn failure_sets(n: nat, quorum: nat) -> Seq<Seq<int>> {
    sets_from(n, (n + 1 - quorum) as nat)
}

/// The failure event of a service, with the atoms' probabilities as `reg`
/// gives them: a service of known availability fails with its atom; one with
/// dependencies fails when any of them does, and never where it has none.
pub open spec fn service_formula(s: Service, reg: Map<Seq<char>, Probability>) -> Formula
    decreases s,
{
    match s {
        Service::KnownSLA { name, .. } => Formula::Literal {
            atom: AtomModel { name: name@, probability: reg[name@] },
            negated: false,
        },
        Service::Dependencies(deps) => if deps.len() == 0 {
            Formula::Vacuous
        } else {
            Formula::Compound {
                op: MultiOp::Union,
                operands: Seq::new(
                    deps.len() as nat,
                    |i: int|
                        if 0 <= i < deps.len() {
                            dependency_formula(deps[i], reg)
                        } else {
                            Formula::Vacuous
                        },
                ),
            }
        },
    }
}

/// The failure event of a dependency.
pub open spec fn dependency_formula(d: Dependency, reg: Map<Seq<char>, Probability>) -> Formula
    decreases d,
{
    match d {
        Dependency::Service(s) => service_formula(*s, reg),
        Dependency::Group(g) => group_formula(*g, reg),
    }
}

/// The failure event of a group: some set of members that leaves fewer than
/// the quorum available all fail. It never occurs where there is no such set.
pub closed spec fn group_formula(g: Group, reg: Map<Seq<char>, Probability>) -> Formula
    decreases g,
{
    let n = g.dependencies.len();
    let sets = failure_sets(n as nat, g.quorum as nat);
    if sets.len() == 0 {
        Formula::Vacuous
    } else {
        Formula::Compound {
            op: MultiOp::Union,
            operands: Seq::new(
                sets.len(),
                |c: int|
                    Formula::Compound {
                        op: MultiOp::Intersect,
                        operands: Seq::new(
                            sets[c].len(),
                            |j: int|
                                if 0 <= sets[c][j] < n {
                                    service_formula(*g.dependencies[sets[c][j]], reg)
                                } else {
                                    Formula::Vacuous
                                },
                        ),
                    },
            ),
        }
    }
}

/// The intersection of the failure events of the members of `g` at the
/// indices `set`.
pub closed spec fn members_formula(g: Group, set: Seq<int>, reg: Map<Seq<char>, Probability>) -> Formula {
    Formula::Compound {
        op: MultiOp::Intersect,
        operands: Seq::new(
            set.len(),
            |j: int|
                if 0 <= set[j] < g.dependencies.len() {
                    service_formula(*g.dependencies[set[j]], reg)
                } else {
                    Formula::Vacuous
                },
        ),
    }
}

/// Every atom name of the service is a key of `reg`.
pub open spec fn service_covered(s: Service, reg: Map<Seq<char>, Probability>) -> bool
    decreases s,
{
    match s {
        Service::KnownSLA { name, .. } => reg.contains_key(name@),
        Service::Dependencies(deps) => forall|i: int|
            0 <= i < deps.len() ==> dependency_covered(#[trigger] deps[i], reg),
    }
}

/// Every atom name of the dependency is a key of `reg`.
pub open spec fn dependency_covered(d: Dependency, reg: Map<Seq<char>, Probability>) -> bool
    decreases d,
{
    match d {
        Dependency::Service(s) => service_covered(*s, reg),
        Dependency::Group(g) => group_covered(*g, reg),
    }
}

/// Every atom name of a member that takes part in a failure set of the
/// group is a key of `reg`.
pub closed spec fn group_covered(g: Group, reg: Map<Seq<char>, Probability>) -> bool
    decreases g,
{
    let n = g.dependencies.len();
    let sets = failure_sets(n as nat, g.quorum as nat);
    forall|c: int, j: int|
        0 <= c < sets.len() && 0 <= j < sets[c].len() && 0 <= #[trigger] sets[c][j] < n ==> service_covered(
            *g.dependencies[sets[c][j]],
            reg,
        )
}

/// The failure probability of a service of availability `sla`.
pub open spec fn failure_of(sla: Probability) -> Probability {
    Probability { bits: sla.bits, complement: !sla.complement }
}

/// Some service of known availability in `s` is named `name`, and `p` is its
/// failure probability.
pub open spec fn service_offers(s: Service, name: Seq<char>, p: Probability) -> bool
    decreases s,
{
    match s {
        Service::KnownSLA { name: n, sla } => n@ == name && failure_of(sla) == p,
        Service::Dependencies(deps) => exists|i: int|
            0 <= i < deps.len() && dependency_offers(#[trigger] deps[i], name, p),
    }
}

/// Some service of known availability in `d` is named `name`, with failure
/// probability `p`.
pub open spec fn dependency_offers(d: Dependency, name: Seq<char>, p: Probability) -> bool
    decreases d,
{
    match d {
        Dependency::Service(s) => service_offers(*s, name, p),
        Dependency::Group(g) => group_offers(*g, name, p),
    }
}

/// The group has a quorum to keep, and some service of known availability
/// among its members is named `name`, with failure probability `p`.
pub closed spec fn group_offers(g: Group, name: Seq<char>, p: Probability) -> bool
    decreases g,
{
    g.quorum > 0 && exists|m: int|
        0 <= m < g.dependencies.len() && service_offers(*#[trigger] g.dependencies[m], name, p)
}

/// The value that a shared handle points to.
pub open spec fn shared<T>(a: Arc<T>) -> T {
    *a
}

/// The failure event of a group of `members` with quorum `quorum`: some set
/// of members that leaves fewer than `quorum` available all fail.
pub open spec fn quorum_formula(
    members: Seq<Arc<Service>>,
    quorum: nat,
    reg: Map<Seq<char>, Probability>,
) -> Formula {
    let n = members.len();
    let sets = failure_sets(n, quorum);
    if sets.len() == 0 {
        Formula::Vacuous
    } else {
        Formula::Compound {
            op: MultiOp::Union,
            operands: Seq::new(
                sets.len(),
                |c: int|
                    Formula::Compound {
                        op: MultiOp::Intersect,
                        operands: Seq::new(
                            sets[c].len(),
                            |j: int|
                                if 0 <= sets[c][j] < n {
                                    service_formula(*members[sets[c][j]], reg)
                                } else {
                                    Formula::Vacuous
                                },
                        ),
                    },
            ),
        }
    }
}

/// Every atom name of a member of `members` that takes part in a failure set
/// is a key of `reg`.
pub open spec fn quorum_covered(members: Seq<Arc<Service>>, quorum: nat, reg: Map<Seq<char>, Probability>) -> bool {
    let n = members.len();
    let sets = failure_sets(n, quorum);
    forall|c: int, j: int|
        0 <= c < sets.len() && 0 <= j < sets[c].len() && 0 <= #[trigger] sets[c][j] < n ==> service_covered(
            *members[sets[c][j]],
            reg,
        )
}

/// There is a quorum to keep, and some service of known availability among
/// `members` is named `name`, with failure probability `p`.
pub open spec fn quorum_offers(members: Seq<Arc<Service>>, quorum: nat, name: Seq<char>, p: Probability) -> bool {
    quorum > 0 && exists|m: int| 0 <= m < members.len() && service_offers(*#[trigger] members[m], name, p)
}

/// What a group's failure event, coverage and offered atoms are, in terms of
/// its members and its quorum.
pub proof fn lemma_group_specs(g: Group, reg: Map<Seq<char>, Probability>, name: Seq<char>, p: Probability)
    ensures
        group_formula(g, reg) == quorum_formula(g.members(), g.quorum_spec(), reg),
        group_covered(g, reg) == quorum_covered(g.members(), g.quorum_spec(), reg),
        group_offers(g, name, p) == quorum_offers(g.members(), g.quorum_spec(), name, p),
{
    let sets = failure_sets(g.dependencies.len() as nat, g.quorum as nat);
    if sets.len() > 0 {
        let a = group_formula(g, reg)->operands;
        let b = quorum_formula(g.members(), g.quorum_spec(), reg)->operands;
        assert forall|c: int| 0 <= c < sets.len() implies #[trigger] a[c] == b[c] by {
            assert(a[c]->operands =~= b[c]->operands);
        };
        assert(a =~= b);
    }
    if group_offers(g, name, p) {
        let m = choose|m: int| 0 <= m < g.dependencies.len() && service_offers(*#[trigger] g.dependencies[m], name, p);
        assert(service_offers(*g.members()[m], name, p));
    }
    if quorum_offers(g.members(), g.quorum_spec(), name, p) {
        let m = choose|m: int| 0 <= m < g.members().len() && service_offers(*#[trigger] g.members()[m], name, p);
        assert(service_offers(*g.dependencies[m], name, p));
    }
}

/// A covered service keeps its failure event, and stays covered, when the
/// registry only grows.
proof fn lemma_service_stable(s: Service, r1: Map<Seq<char>, Probability>, r2: Map<Seq<char>, Probability>)
    requires
        service_covered(s, r1),
        r1.submap_of(r2),
    ensures
        service_covered(s, r2),
        service_formula(s, r1) == service_formula(s, r2),
    decreases s,
{
    match s {
        Service::KnownSLA { name, .. } => {
            assert(r1.dom().contains(name@));
            assert(r2.dom().contains(name@));
            assert(r2[name@] == r1[name@]);
        },
        Service::Dependencies(deps) => {
            assert forall|i: int| 0 <= i < deps.len() implies dependency_covered(#[trigger] deps[i], r2)
                && dependency_formula(deps[i], r1) == dependency_formula(deps[i], r2) by {
                lemma_dependency_stable(deps[i], r1, r2);
            };
            if deps.len() > 0 {
                assert(service_formula(s, r1)->operands =~= service_formula(s, r2)->operands);
            }
        },
    }
}

proof fn lemma_dependency_stable(d: Dependency, r1: Map<Seq<char>, Probability>, r2: Map<Seq<char>, Probability>)
    requires
        dependency_covered(d, r1),
        r1.submap_of(r2),
    ensures
        dependency_covered(d, r2),
        dependency_formula(d, r1) == dependency_formula(d, r2),
    decreases d,
{
    match d {
        Dependency::Service(s) => lemma_service_stable(shared(s), r1, r2),
        Dependency::Group(g) => lemma_group_stable(shared(g), r1, r2),
    }
}

proof fn lemma_group_stable(g: Group, r1: Map<Seq<char>, Probability>, r2: Map<Seq<char>, Probability>)
    requires
        group_covered(g, r1),
        r1.submap_of(r2),
    ensures
        group_covered(g, r2),
        group_formula(g, r1) == group_formula(g, r2),
    decreases g,
{
    let n = g.dependencies.len();
    let sets = failure_sets(n as nat, g.quorum as nat);
    assert forall|c: int, j: int|
        0 <= c < sets.len() && 0 <= j < sets[c].len() && 0 <= #[trigger] sets[c][j] < n implies service_covered(
            *g.dependencies[sets[c][j]],
            r2,
        ) && service_formula(*g.dependencies[sets[c][j]], r1) == service_formula(
            *g.dependencies[sets[c][j]],
            r2,
        ) by {
        lemma_service_stable(*g.dependencies[sets[c][j]], r1, r2);
    };
    if sets.len() > 0 {
        let a = group_formula(g, r1)->operands;
        let b = group_formula(g, r2)->operands;
        assert forall|c: int| 0 <= c < sets.len() implies #[trigger] a[c] == b[c] by {
            assert(a[c]->operands =~= b[c]->operands);
        };
        assert(a =~= b);
    }
}

/// Every member of `g` at the indices `set` is covered by `reg`.
pub closed spec fn members_covered(g: Group, set: Seq<int>, reg: Map<Seq<char>, Probability>) -> bool {
    forall|j: int|
        0 <= j < set.len() && 0 <= #[trigger] set[j] < g.dependencies.len() ==> service_covered(
            *g.dependencies[set[j]],
            reg,
        )
}

proof fn lemma_members_stable(
    g: Group,
    set: Seq<int>,
    r1: Map<Seq<char>, Probability>,
    r2: Map<Seq<char>, Probability>,
)
    requires
        members_covered(g, set, r1),
        r1.submap_of(r2),
    ensures
        members_covered(g, set, r2),
        members_formula(g, set, r1) == members_formula(g, set, r2),
{
    assert forall|j: int| 0 <= j < set.len() && 0 <= #[trigger] set[j] < g.dependencies.len() implies service_covered(
        *g.dependencies[set[j]],
        r2,
    ) && service_formula(*g.dependencies[set[j]], r1) == service_formula(*g.dependencies[set[j]], r2) by {
        lemma_service_stable(*g.dependencies[set[j]], r1, r2);
    };
    assert(members_formula(g, set, r1)->operands =~= members_formula(g, set, r2)->operands);
}

/// Relies on `Itertools::combinations` over `0..n`, which yields every
/// `k`-element subset of the indices below `n`, as increasing lists, in
/// lexicographic order.
#[verifier::external_body]
fn index_combinations(n: usize, k: usize) -> (r: Vec<Vec<usize>>)
    ensures
        index_lists(r@) == choose_from(0, n as int, k as nat),
{
    (0..n).combinations(k).collect()
}

impl Service {
    /// A service of known availability `sla`.
    pub fn known_sla(name: &str, sla: Probability) -> (r: Arc<Service>)
        ensures
            *r matches Service::KnownSLA { name: n, sla: p } && n@ == name@ && p == sla,
    {
        Arc::new(Service::KnownSLA { name: name.to_string(), sla })
    }

    /// A service that is available while all of its dependencies are.
    pub fn dependencies(dependencies: Vec<Dependency>) -> (r: Arc<Service>)
        ensures
            *r == Service::Dependencies(dependencies),
    {
        Arc::new(Service::Dependencies(dependencies))
    }
}

impl Service {
    /// The failure event of the service, with its atoms interned in
    /// `registry`: an atom's probability is one minus the availability given
    /// with the first service of its name that was ever interned.
    pub fn dump_term(&self, registry: &mut AtomRegistry) -> (r: Term)
        requires
            old(registry).wf(),
        ensures
            final(registry).wf(),
            old(registry)@.submap_of(final(registry)@),
            service_covered(*self, final(registry)@),
            r@ == service_formula(*self, final(registry)@),
            forall|k: Seq<char>|
                #[trigger] final(registry)@.contains_key(k) && !old(registry)@.contains_key(k) ==> service_offers(
                    *self,
                    k,
                    final(registry)@[k],
                ),
        decreases self,
    {
        match self {
            Service::KnownSLA { name, sla } => {
                let atom = registry.new_atom(name.clone(), sla.complement());
                Term::atom(atom)
            },
            Service::Dependencies(deps) => {
                let ghost whole = *deps;
                let n = deps.len();
                let mut unions: Vec<Term> = Vec::new();
                let mut i: usize = 0;
                while i < n
                    invariant
                        n == deps@.len(),
                        0 <= i <= n,
                        registry.wf(),
                        old(registry)@.submap_of(registry@),
                        unions@.len() == i,
                        forall|j: int|
                            0 <= j < i ==> dependency_covered(#[trigger] deps@[j], registry@)
                                && unions@[j]@ == dependency_formula(deps@[j], registry@),
                        *self == Service::Dependencies(whole),
                        whole == *deps,
                        forall|k: Seq<char>|
                            #[trigger] registry@.contains_key(k) && !old(registry)@.contains_key(k) ==> exists|j: int|
                                0 <= j < i && dependency_offers(#[trigger] deps@[j], k, registry@[k]),
                    decreases n - i,
                {
                    let ghost r0 = registry@;
                    assert(decreases_to!(*self => deps@[i as int])) by {
                        assert(decreases_to!(*self => (*self)->Dependencies_0));
                        assert(decreases_to!(whole => whole@));
                    };
                    let t = match &deps[i] {
                        Dependency::Service(s) => s.dump_term(registry),
                        Dependency::Group(g) => g.dump_term(registry),
                    };
                    proof {
                        vstd::map_lib::lemma_submap_of_trans(old(registry)@, r0, registry@);
                        assert forall|k: Seq<char>|
                            #[trigger] registry@.contains_key(k) && !old(registry)@.contains_key(k) implies exists|j: int|
                                0 <= j < i + 1 && dependency_offers(#[trigger] deps@[j], k, registry@[k]) by {
                            if r0.contains_key(k) {
                                let j = choose|j: int| 0 <= j < i && dependency_offers(#[trigger] deps@[j], k, r0[k]);
                                assert(r0[k] == registry@[k]);
                                assert(dependency_offers(deps@[j], k, registry@[k]));
                            } else {
                                assert(dependency_offers(deps@[i as int], k, registry@[k]));
                            }
                        };
                        assert forall|j: int| 0 <= j < i implies dependency_covered(#[trigger] deps@[j], registry@)
                            && unions@[j]@ == dependency_formula(deps@[j], registry@) by {
                            lemma_dependency_stable(deps@[j], r0, registry@);
                        };
                    }
                    unions.push(t);
                    i = i + 1;
                }
                assert forall|k: Seq<char>|
                    #[trigger] registry@.contains_key(k) && !old(registry)@.contains_key(k) implies service_offers(
                        *self,
                        k,
                        registry@[k],
                    ) by {
                    let j = choose|j: int| 0 <= j < n && dependency_offers(#[trigger] deps@[j], k, registry@[k]);
                    assert(dependency_offers(whole[j], k, registry@[k]));
                };
                if n == 0 {
                    Term::Empty
                } else {
                    let ghost ops = views(unions@);
                    let r = Term::union(unions);
                    assert(ops =~= service_formula(*self, registry@)->operands);
                    r
                }
            },
        }
    }
}

impl Group {
    /// The failure event of the group, with its atoms interned in
    /// `registry`.
    pub fn dump_term(&self, registry: &mut AtomRegistry) -> (r: Term)
        requires
            old(registry).wf(),
        ensures
            final(registry).wf(),
            old(registry)@.submap_of(final(registry)@),
            group_covered(*self, final(registry)@),
            r@ == group_formula(*self, final(registry)@),
            forall|k: Seq<char>|
                #[trigger] final(registry)@.contains_key(k) && !old(registry)@.contains_key(k) ==> group_offers(
                    *self,
                    k,
                    final(registry)@[k],
                ),
        decreases self,
    {
        proof {
            use_type_invariant(self);
        }
        let n = self.dependencies.len();
        let q = self.quorum;
        let ghost sets = failure_sets(n as nat, q as nat);
        let ghost done: Seq<Seq<int>> = Seq::empty();
        let mut unions: Vec<Term> = Vec::new();
        let mut t: usize = 0;
        assert(done + sets =~= sets);
        while t < q
            invariant
                registry.wf(),
                old(registry)@.submap_of(registry@),
                q <= n,
                n == self.dependencies@.len(),
                q == self.quorum,
                sets == failure_sets(n as nat, q as nat),
                0 <= t <= q,
                sets == done + sets_from(n as nat, (n + 1 - q + t) as nat),
                unions@.len() == done.len(),
                forall|c: int|
                    0 <= c < done.len() ==> members_covered(*self, #[trigger] done[c], registry@)
                        && unions@[c]@ == members_formula(*self, done[c], registry@),
                forall|c: int, j: int| 0 <= c < done.len() && 0 <= j < done[c].len() ==> 0 <= #[trigger] done[c][j] < n,
                forall|k: Seq<char>|
                    #[trigger] registry@.contains_key(k) && !old(registry)@.contains_key(k) ==> group_offers(
                        *self,
                        k,
                        registry@[k],
                    ),
            decreases q - t,
        {
            let size = n - q + 1 + t;
            let combos = index_combinations(n, size);
            let ghost cs = choose_from(0, n as int, size as nat);
            let ghost before = done;
            proof {
                crate::probability::lemma_choose_from_bounds(0, n as int, size as nat);
                assert(sets_from(n as nat, size as nat) == cs + sets_from(n as nat, (size + 1) as nat));
            }
            let mut c: usize = 0;
            while c < combos.len()
                invariant
                    registry.wf(),
                    old(registry)@.submap_of(registry@),
                    n == self.dependencies@.len(),
                    index_lists(combos@) == cs,
                    0 <= c <= combos@.len(),
                    done == before + cs.subrange(0, c as int),
                    unions@.len() == done.len(),
                    forall|k: int|
                        0 <= k < done.len() ==> members_covered(*self, #[trigger] done[k], registry@)
                            && unions@[k]@ == members_formula(*self, done[k], registry@),
                    forall|k: int, j: int| 0 <= k < before.len() && 0 <= j < before[k].len() ==> 0 <= #[trigger] before[k][j] < n,
                    forall|k: int, j: int| 0 <= k < cs.len() && 0 <= j < cs[k].len() ==> 0 <= #[trigger] cs[k][j] < n,
                    0 < q == self.quorum,
                    forall|k: Seq<char>|
                        #[trigger] registry@.contains_key(k) && !old(registry)@.contains_key(k) ==> group_offers(
                        *self,
                        k,
                        registry@[k],
                        ),
                decreases combos@.len() - c,
            {
                let combo = &combos[c];
                let ghost set = cs[c as int];
                assert(set == combo@.map_values(|i: usize| i as int));
                let mut inter: Vec<Term> = Vec::new();
                let mut j: usize = 0;
                while j < combo.len()
                    invariant
                        registry.wf(),
                        old(registry)@.submap_of(registry@),
                        n == self.dependencies@.len(),
                        set == combo@.map_values(|i: usize| i as int),
                        forall|l: int| 0 <= l < set.len() ==> 0 <= #[trigger] set[l] < n,
                        0 <= j <= combo@.len(),
                        inter@.len() == j,
                        forall|l: int|
                            0 <= l < j ==> service_covered(*self.dependencies@[set[l]], registry@)
                                && (#[trigger] inter@[l])@ == service_formula(*self.dependencies@[set[l]], registry@),
                        unions@.len() == done.len(),
                        forall|k: int|
                            0 <= k < done.len() ==> members_covered(*self, #[trigger] done[k], registry@)
                                && unions@[k]@ == members_formula(*self, done[k], registry@),
                        0 < self.quorum,
                        forall|k: Seq<char>|
                            #[trigger] registry@.contains_key(k) && !old(registry)@.contains_key(k) ==> group_offers(
                                *self,
                                k,
                                registry@[k],
                            ),
                    decreases combo@.len() - j,
                {
                    let ghost r0 = registry@;
                    let m = combo[j];
                    assert(set[j as int] == m as int);
                    assert(decreases_to!(*self => *self.dependencies@[m as int])) by {
                        assert(decreases_to!(*self => self.dependencies));
                        assert(decreases_to!(self.dependencies => self.dependencies@));
                    };
                    let d = self.dependencies[m].dump_term(registry);
                    proof {
                        vstd::map_lib::lemma_submap_of_trans(old(registry)@, r0, registry@);
                        assert forall|k: Seq<char>|
                            #[trigger] registry@.contains_key(k) && !old(registry)@.contains_key(k) implies group_offers(
                                *self,
                                k,
                                registry@[k],
                            ) by {
                            if r0.contains_key(k) {
                                assert(r0[k] == registry@[k]);
                            } else {
                                assert(service_offers(*self.dependencies[m as int], k, registry@[k]));
                            }
                        };
                        assert forall|l: int| 0 <= l < j implies service_covered(
                            *self.dependencies@[set[l]],
                            registry@,
                        ) && (#[trigger] inter@[l])@ == service_formula(*self.dependencies@[set[l]], registry@) by {
                            lemma_service_stable(*self.dependencies@[set[l]], r0, registry@);
                        };
                        assert forall|k: int| 0 <= k < done.len() implies members_covered(
                            *self,
                            #[trigger] done[k],
                            registry@,
                        ) && unions@[k]@ == members_formula(*self, done[k], registry@) by {
                            lemma_members_stable(*self, done[k], r0, registry@);
                        };
                    }
                    inter.push(d);
                    j = j + 1;
                }
                let ghost ops = views(inter@);
                unions.push(Term::intersect(inter));
                proof {
                    assert(ops =~= members_formula(*self, set, registry@)->operands);
                    assert forall|l: int| 0 <= l < set.len() && 0 <= #[trigger] set[l] < n implies service_covered(
                        *self.dependencies@[set[l]],
                        registry@,
                    ) by {
                        assert(inter@[l]@ == ops[l]);
                    };
                    assert(members_covered(*self, set, registry@));
                    assert(before + cs.subrange(0, c + 1) =~= (before + cs.subrange(0, c as int)).push(set));
                    done = done.push(set);
                }
                c = c + 1;
            }
            proof {
                assert(cs.subrange(0, combos@.len() as int) =~= cs);
                assert(sets == done + sets_from(n as nat, (n + 1 - q + t + 1) as nat));
                assert forall|k: int, j: int| 0 <= k < done.len() && 0 <= j < done[k].len() implies 0 <= #[trigger] done[k][j] < n by {
                    if k >= before.len() {
                        assert(done[k] == cs[k - before.len()]);
                    }
                };
            }
            t = t + 1;
        }
        assert(sets_from(n as nat, (n + 1) as nat) =~= Seq::<Seq<int>>::empty());
        assert(done =~= sets);
        if unions.len() == 0 {
            Term::Empty
        } else {
            let ghost ops = views(unions@);
            let r = Term::union(unions);
            assert(ops =~= group_formula(*self, registry@)->operands) by {
                assert forall|k: int| 0 <= k < sets.len() implies #[trigger] ops[k] == group_formula(*self, registry@)->operands[k] by {
                    assert(members_formula(*self, sets[k], registry@)->operands =~= group_formula(*self, registry@)->operands[k]->operands);
                };
            };
            r
        }
    }

    /// A group of the given members, available while at least `quorum` of
    /// them are.
    pub fn new(dependencies: Vec<Arc<Service>>, quorum: usize) -> (r: Arc<Group>)
        requires
            0 < dependencies.len(),
            quorum <= dependencies.len(),
        ensures
            r.members() == dependencies@,
            r.quorum_spec() == quorum,
    {
        Arc::new(Group { dependencies, quorum })
    }
}

impl DumpTerm for Service {
    fn dump_term(&self, registry: &mut AtomRegistry) -> (r: Term) {
        Service::dump_term(self, registry)
    }
}

impl DumpTerm for Group {
    fn dump_term(&self, registry: &mut AtomRegistry) -> (r: Term) {
        Group::dump_term(self, registry)
    }
}

} // verus!

use vstd::prelude::*;

verus! {

broadcast use vstd::std_specs::vec::axiom_vec_index_decreases;

/// A probability as the library carries it: the bit pattern of an `f64`, and
/// whether the value meant is one minus that number. The library never
/// computes with it; it hands it on to whoever evaluates a plan.
#[derive(Debug, Clone, Copy, PartialEq, Eq, Structural)]
pub struct Probability {
    pub bits: u64,
    pub complement: bool,
}

impl Probability {
    /// The probability whose `f64` bit pattern is `bits`.
    pub fn from_bits(bits: u64) -> (r: Probability)
        ensures
            r == (Probability { bits, complement: false }),
    {
        Probability { bits, complement: false }
    }

    /// One minus this probability.
    pub fn complement(self) -> (r: Probability)
        ensures
            r == (Probability { bits: self.bits, complement: !self.complement }),
    {
        Probability { bits: self.bits, complement: !self.complement }
    }
}

/// A named leaf event with its probability.
#[derive(Debug)]
pub struct Atom {
    name: String,
    probability: Probability,
}

/// What the library knows of an atom: its name, which identifies it, and its
/// probability.
pub struct AtomModel {
    pub name: Seq<char>,
    pub probability: Probability,
}

impl View for Atom {
    type V = AtomModel;

    closed spec fn view(&self) -> AtomModel {
        AtomModel { name: self.name@, probability: self.probability }
    }
}

impl Atom {
    /// The atom's name.
    pub fn name(&self) -> (r: &str)
        ensures
            r@ == self@.name,
    {
        self.name.as_str()
    }

    /// The atom's probability.
    pub fn probability(&self) -> (r: Probability)
        ensures
            r == self@.probability,
    {
        self.probability
    }

    /// Whether the two atoms have one name.
    pub fn same_name(&self, other: &Atom) -> (r: bool)
        ensures
            r == (self@.name == other@.name),
    {
        self.name == other.name
    }

    /// A copy of the atom.
    pub fn copy(&self) -> (r: Atom)
        ensures
            r@ == self@,
    {
        Atom { name: self.name.clone(), probability: self.probability }
    }
}

#[derive(Debug, Clone, Copy, PartialEq, Eq, Structural)]
pub enum UnaryOp {
    Not,
    Identity,
}

#[derive(Debug, Clone, Copy, PartialEq, Eq, Structural)]
pub enum MultiOp {
    Union,
    Intersect,
}

/// A failure event built from atoms. `Empty` is the event that never occurs:
/// it stands where nothing can fail.
#[derive(Debug)]
#[allow(inconsistent_fields)]
pub enum Term {
    Empty,
    Unary { atom: Atom, op: UnaryOp },
    Multiple { terms: Vec<Term>, op: MultiOp },
}

/// The mathematical model of a term.
pub enum Formula {
    Vacuous,
    Literal { atom: AtomModel, negated: bool },
    Compound { op: MultiOp, operands: Seq<Formula> },
}

impl View for Term {
    type V = Formula;

    open spec fn view(&self) -> Formula
        decreases self,
    {
        match self {
            Term::Empty => Formula::Vacuous,
            Term::Unary { atom, op } => Formula::Literal { atom: atom@, negated: *op == UnaryOp::Not },
            Term::Multiple { terms, op } => Formula::Compound { op: *op, operands: views(terms@) },
        }
    }
}

/// The models of a sequence of terms.
pub open spec fn views(terms: Seq<Term>) -> Seq<Formula>
    decreases terms,
{
    Seq::new(
        terms.len(),
        |i: int|
            if 0 <= i < terms.len() {
                terms[i]@
            } else {
                Formula::Vacuous
            },
    )
}

/// Whether the event described by `f` occurs when exactly the atoms whose
/// names `fails` holds fail.
pub open spec fn holds(f: Formula, fails: spec_fn(Seq<char>) -> bool) -> bool
    decreases f,
{
    match f {
        Formula::Vacuous => false,
        Formula::Literal { atom, negated } => fails(atom.name) != negated,
        Formula::Compound { op, operands } => match op {
            MultiOp::Union => exists|i: int|
                0 <= i < operands.len() && holds(#[trigger] operands[i], fails),
            MultiOp::Intersect => forall|i: int|
                0 <= i < operands.len() ==> holds(#[trigger] operands[i], fails),
        },
    }
}

impl Term {
    /// Whether the term is the event that never occurs.
    pub fn is_none(&self) -> (r: bool)
        ensures
            r == (self@ is Vacuous),
    {
        match self {
            Term::Empty => true,
            _ => false,
        }
    }

    /// The event that all of `terms` occur.
    pub fn intersect(terms: Vec<Term>) -> (r: Term)
        ensures
            r@ == (Formula::Compound { op: MultiOp::Intersect, operands: views(terms@) }),
    {
        Term::Multiple { terms, op: MultiOp::Intersect }
    }

    /// The event that any of `terms` occurs.
    pub fn union(terms: Vec<Term>) -> (r: Term)
        ensures
            r@ == (Formula::Compound { op: MultiOp::Union, operands: views(terms@) }),
    {
        Term::Multiple { terms, op: MultiOp::Union }
    }

    /// The event that the atom fails.
    pub fn atom(atom: Atom) -> (r: Term)
        ensures
            r@ == (Formula::Literal { atom: atom@, negated: false }),
    {
        Term::Unary { atom, op: UnaryOp::Identity }
    }

    /// A copy of the term.
    pub fn copy(&self) -> (r: Term)
        ensures
            r@ == self@,
        decreases self,
    {
        match self {
            Term::Empty => Term::Empty,
            Term::Unary { atom, op } => Term::Unary { atom: atom.copy(), op: *op },
            Term::Multiple { terms, op } => {
                let ghost whole_terms = *terms;
                let n = terms.len();
                let mut out: Vec<Term> = Vec::new();
                let mut i: usize = 0;
                while i < n
                    invariant
                        n == terms@.len(),
                        0 <= i <= n,
                        out@.len() == i,
                        forall|j: int| 0 <= j < i ==> (#[trigger] out@[j])@ == terms@[j]@,
                        *self == (Term::Multiple { terms: whole_terms, op: *op }),
                        whole_terms == *terms,
                    decreases n - i,
                {
                    assert(decreases_to!(*self => terms@[i as int])) by {
                        assert(decreases_to!(*self => (*self)->terms));
                        assert(decreases_to!(whole_terms => whole_terms@));
                    };
                    out.push(terms[i].copy());
                    i = i + 1;
                }
                assert(views(out@) =~= views(terms@));
                Term::Multiple { terms: out, op: *op }
            },
        }
    }
}

/// What can be turned into a failure event, with its atoms interned in a
/// registry that only grows.
pub trait DumpTerm {
    fn dump_term(&self, registry: &mut AtomRegistry) -> (r: Term)
        requires
            old(registry).wf(),
        ensures
            final(registry).wf(),
            old(registry)@.submap_of(final(registry)@),
    ;
}

/// Interns atoms by name: the first probability given for a name is the one
/// that every later request for that name receives.
pub struct AtomRegistry {
    atoms: Vec<Atom>,
}

/// The map from names to probabilities that a list of atoms describes.
pub open spec fn registry_map(atoms: Seq<AtomModel>) -> Map<Seq<char>, Probability>
    decreases atoms.len(),
{
    if atoms.len() == 0 {
        Map::empty()
    } else {
        registry_map(atoms.drop_last()).insert(atoms.last().name, atoms.last().probability)
    }
}

/// The registry `reg` after a request for the atom `name` with probability
/// `p`: a name that is there keeps its probability.
pub open spec fn interned(reg: Map<Seq<char>, Probability>, name: Seq<char>, p: Probability) -> Map<
    Seq<char>,
    Probability,
> {
    if reg.contains_key(name) {
        reg
    } else {
        reg.insert(name, p)
    }
}

/// Interning a name twice is interning it once: the second request, whatever
/// its probability, changes nothing, and the name keeps the probability of
/// the first request unless it was there before.
pub proof fn lemma_interned_idempotent(
    reg: Map<Seq<char>, Probability>,
    name: Seq<char>,
    p1: Probability,
    p2: Probability,
)
    ensures
        interned(interned(reg, name, p1), name, p2) == interned(reg, name, p1),
        interned(reg, name, p1)[name] == if reg.contains_key(name) {
            reg[name]
        } else {
            p1
        },
        reg.submap_of(interned(reg, name, p1)),
{
}

proof fn lemma_registry_map_push(atoms: Seq<AtomModel>, a: AtomModel)
    ensures
        registry_map(atoms.push(a)) == registry_map(atoms).insert(a.name, a.probability),
{
    assert(atoms.push(a).drop_last() =~= atoms);
}

/// A name is a key of the map exactly when some atom of the list has it, and
/// with unique names it maps to that atom's probability.
proof fn lemma_registry_map_lookup(atoms: Seq<AtomModel>, i: int)
    requires
        0 <= i < atoms.len(),
        forall|j: int, k: int|
            0 <= j < atoms.len() && 0 <= k < atoms.len() && j != k ==> atoms[j].name != atoms[k].name,
    ensures
        registry_map(atoms).contains_key(atoms[i].name),
        registry_map(atoms)[atoms[i].name] == atoms[i].probability,
    decreases atoms.len(),
{
    if i < atoms.len() - 1 {
        lemma_registry_map_lookup(atoms.drop_last(), i);
    }
}

proof fn lemma_registry_map_absent(atoms: Seq<AtomModel>, name: Seq<char>)
    requires
        forall|j: int| 0 <= j < atoms.len() ==> atoms[j].name != name,
    ensures
        !registry_map(atoms).contains_key(name),
    decreases atoms.len(),
{
    if atoms.len() > 0 {
        lemma_registry_map_absent(atoms.drop_last(), name);
    }
}

impl AtomRegistry {
    /// The models of the interned atoms, in order of first request.
    pub closed spec fn atoms(&self) -> Seq<AtomModel> {
        self.atoms@.map_values(|a: Atom| a@)
    }

    /// No two interned atoms share a name.
    pub closed spec fn wf(&self) -> bool {
        forall|j: int, k: int|
            0 <= j < self.atoms@.len() && 0 <= k < self.atoms@.len() && j != k
                ==> self.atoms@[j]@.name != self.atoms@[k]@.name
    }

    pub open spec fn view(&self) -> Map<Seq<char>, Probability> {
        registry_map(self.atoms())
    }

    /// An empty registry.
    pub fn new() -> (r: AtomRegistry)
        ensures
            r.wf(),
            r@ == Map::<Seq<char>, Probability>::empty(),
    {
        let r = AtomRegistry { atoms: Vec::new() };
        assert(r.atoms() =~= Seq::<AtomModel>::empty());
        r
    }

    /// The atom of that name: the one interned earlier if there is one, else
    /// a new atom with the given probability, which is interned.
    pub fn new_atom(&mut self, name: String, probability: Probability) -> (r: Atom)
        requires
            old(self).wf(),
        ensures
            final(self).wf(),
            final(self)@ == interned(old(self)@, name@, probability),
            r@.name == name@,
            r@.probability == final(self)@[name@],
    {
        let n = self.atoms.len();
        let mut i: usize = 0;
        while i < n
            invariant
                n == self.atoms@.len(),
                0 <= i <= n,
                *self == *old(self),
                self.wf(),
                forall|j: int| 0 <= j < i ==> self.atoms@[j]@.name != name@,
            decreases n - i,
        {
            if self.atoms[i].name == name {
                proof {
                    assert(self.atoms()[i as int] == self.atoms@[i as int]@);
                    lemma_registry_map_lookup(self.atoms(), i as int);
                }
                return self.atoms[i].copy();
            }
            i = i + 1;
        }
        proof {
            assert(forall|j: int| 0 <= j < n ==> self.atoms()[j] == self.atoms@[j]@);
            lemma_registry_map_absent(self.atoms(), name@);
        }
        let atom = Atom { name, probability };
        let ghost before = self.atoms();
        self.atoms.push(atom.copy());
        proof {
            assert(self.atoms() =~= before.push(atom@));
            assert(forall|j: int| 0 <= j < self.atoms@.len() ==> self.atoms()[j] == self.atoms@[j]@);
            lemma_registry_map_push(before, atom@);
            lemma_registry_map_lookup(self.atoms(), n as int);
        }
        atom
    }
}

} // verus!

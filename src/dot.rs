use vstd::prelude::*;

use crate::term::{Formula, MultiOp, Term, UnaryOp, views};

verus! {

broadcast use vstd::std_specs::vec::axiom_vec_index_decreases, vstd::seq::group_seq_axioms;

/// A node of the drawing of a term: its label, and its place in the
/// preorder walk of the term, which serves as its identity.
pub struct TermNode {
    content: String,
    id: usize,
}

/// An edge of the drawing, from an operation to one of its operands.
pub struct TermEdge {
    source: TermNode,
    target: TermNode,
}

/// The model of a node.
pub struct NodeModel {
    pub content: Seq<char>,
    pub id: int,
}

/// The model of an edge.
pub struct EdgeModel {
    pub source: NodeModel,
    pub target: NodeModel,
}

impl View for TermNode {
    type V = NodeModel;

    closed spec fn view(&self) -> NodeModel {
        NodeModel { content: self.content@, id: self.id as int }
    }
}

impl View for TermEdge {
    type V = EdgeModel;

    closed spec fn view(&self) -> EdgeModel {
        EdgeModel { source: self.source@, target: self.target@ }
    }
}

impl TermNode {
    /// The node's label.
    pub fn content(&self) -> (r: &str)
        ensures
            r@ == self@.content,
    {
        self.content.as_str()
    }

    /// The node's place in the preorder walk.
    pub fn id(&self) -> (r: usize)
        ensures
            r == self@.id,
    {
        self.id
    }

    fn copy(&self) -> (r: TermNode)
        ensures
            r@ == self@,
    {
        TermNode { content: self.content.clone(), id: self.id }
    }
}

impl TermEdge {
    /// The operation the edge leaves.
    pub fn source(&self) -> (r: &TermNode)
        ensures
            r@ == self@.source,
    {
        &self.source
    }

    /// The operand the edge reaches.
    pub fn target(&self) -> (r: &TermNode)
        ensures
            r@ == self@.target,
    {
        &self.target
    }
}

/// The label of an operation.
pub open spec fn op_label(op: MultiOp) -> Seq<char> {
    match op {
        MultiOp::Union => "Union"@,
        MultiOp::Intersect => "Intersect"@,
    }
}

/// The labels of the nodes of `f` in preorder: an operation, then its
/// operands; a negated atom is a node `Not` above the atom's node.
pub open spec fn labels(f: Formula) -> Seq<Seq<char>>
    decreases f,
{
    match f {
        Formula::Vacuous => seq!["None"@],
        Formula::Literal { atom, negated } => if negated {
            seq!["Not"@, atom.name]
        } else {
            seq![atom.name]
        },
        Formula::Compound { op, operands } => seq![op_label(op)] + labels_of(operands),
    }
}

/// The labels of the nodes of `xs`, one after the other.
pub open spec fn labels_of(xs: Seq<Formula>) -> Seq<Seq<char>>
    decreases xs,
{
    if xs.len() == 0 {
        Seq::empty()
    } else {
        labels_of(xs.drop_last()) + labels(xs.last())
    }
}

/// Nodes with the labels `ls`, numbered from `base`.
pub open spec fn numbered(ls: Seq<Seq<char>>, base: int) -> Seq<NodeModel> {
    Seq::new(ls.len(), |i: int| NodeModel { content: ls[i], id: base + i })
}

/// The nodes of `f`, numbered from `base`.
pub open spec fn node_models(f: Formula, base: int) -> Seq<NodeModel> {
    numbered(labels(f), base)
}

/// The edges of `f` with its nodes numbered from `base`: for each operand
/// in turn, the edge to it and then its own edges.
pub open spec fn edge_models(f: Formula, base: int) -> Seq<EdgeModel>
    decreases f,
{
    match f {
        Formula::Literal { atom, negated } => if negated {
            seq![
                EdgeModel {
                    source: NodeModel { content: "Not"@, id: base },
                    target: NodeModel { content: atom.name, id: base + 1 },
                },
            ]
        } else {
            Seq::empty()
        },
        Formula::Compound { op, operands } => child_edges(op_label(op), operands, base, base + 1),
        _ => Seq::empty(),
    }
}

/// The edges from the node `parent`, labelled `label`, to the operands
/// `xs`, whose nodes are numbered from `start`, each followed by the
/// operand's own edges.
pub open spec fn child_edges(label: Seq<char>, xs: Seq<Formula>, parent: int, start: int) -> Seq<EdgeModel>
    decreases xs,
{
    if xs.len() == 0 {
        Seq::empty()
    } else {
        let pre = xs.drop_last();
        let at = start + labels_of(pre).len();
        child_edges(label, pre, parent, start) + seq![
            EdgeModel {
                source: NodeModel { content: label, id: parent },
                target: NodeModel { content: labels(xs.last())[0], id: at },
            },
        ] + edge_models(xs.last(), at)
    }
}

/// The models of a list of nodes.
pub open spec fn node_views(v: Seq<TermNode>) -> Seq<NodeModel> {
    v.map_values(|n: TermNode| n@)
}

/// The models of a list of edges.
pub open spec fn edge_views(v: Seq<TermEdge>) -> Seq<EdgeModel> {
    v.map_values(|e: TermEdge| e@)
}

proof fn lemma_labels_of_step(xs: Seq<Formula>, i: int)
    requires
        0 <= i < xs.len(),
    ensures
        labels_of(xs.subrange(0, i + 1)) == labels_of(xs.subrange(0, i)) + labels(xs[i]),
{
    assert(xs.subrange(0, i + 1).drop_last() =~= xs.subrange(0, i));
}

impl Term {
    /// The label of the term's top node.
    fn label(&self) -> (r: String)
        ensures
            r@ == labels(self@)[0],
    {
        match self {
            Term::Empty => "None".to_owned(),
            Term::Unary { atom, op } => match op {
                UnaryOp::Not => "Not".to_owned(),
                UnaryOp::Identity => atom.name().to_owned(),
            },
            Term::Multiple { op, .. } => match op {
                MultiOp::Union => "Union".to_owned(),
                MultiOp::Intersect => "Intersect".to_owned(),
            },
        }
    }

    /// The number of nodes of the term.
    pub fn size(&self) -> (r: usize)
        requires
            labels(self@).len() <= usize::MAX,
        ensures
            r == labels(self@).len(),
        decreases self,
    {
        match self {
            Term::Empty => 1,
            Term::Unary { op, .. } => match op {
                UnaryOp::Not => 2,
                UnaryOp::Identity => 1,
            },
            Term::Multiple { terms, op } => {
                let ghost xs = views(terms@);
                let ghost whole_terms = *terms;
                let n = terms.len();
                let mut total: usize = 1;
                let mut i: usize = 0;
                while i < n
                    invariant
                        n == terms@.len(),
                        xs == views(terms@),
                        0 <= i <= n,
                        total == 1 + labels_of(xs.subrange(0, i as int)).len(),
                        labels(self@) == seq![labels(self@)[0]] + labels_of(xs),
                        labels(self@).len() <= usize::MAX,
                        *self == (Term::Multiple { terms: whole_terms, op: *op }),
                        whole_terms == *terms,
                    decreases n - i,
                {
                    proof {
                        lemma_labels_of_step(xs, i as int);
                        lemma_labels_of_prefix(xs, i + 1);
                    }
                    assert(decreases_to!(*self => terms@[i as int])) by {
                        assert(decreases_to!(*self => (*self)->terms));
                        assert(decreases_to!(whole_terms => whole_terms@));
                    };
                    assert(xs[i as int] == terms@[i as int]@);
                    let s = terms[i].size();
                    total = total + s;
                    i = i + 1;
                }
                assert(xs.subrange(0, n as int) =~= xs);
                total
            },
        }
    }
}

proof fn lemma_numbered_concat(a: Seq<Seq<char>>, b: Seq<Seq<char>>, base: int)
    ensures
        numbered(a + b, base) == numbered(a, base) + numbered(b, base + a.len()),
{
    assert(numbered(a + b, base) =~= numbered(a, base) + numbered(b, base + a.len()));
}

impl Term {
    fn push_nodes(&self, out: &mut Vec<TermNode>)
        requires
            old(out)@.len() + labels(self@).len() <= usize::MAX,
        ensures
            node_views(final(out)@) == node_views(old(out)@) + node_models(self@, old(out)@.len() as int),
        decreases self,
    {
        let ghost before = node_views(out@);
        let base = out.len();
        let label = self.label();
        out.push(TermNode { content: label, id: base });
        match self {
            Term::Empty => {
                assert(node_views(out@) =~= before + node_models(self@, base as int));
            },
            Term::Unary { atom, op } => {
                if *op == UnaryOp::Not {
                    out.push(TermNode { content: atom.name().to_owned(), id: base + 1 });
                }
                assert(node_views(out@) =~= before + node_models(self@, base as int));
            },
            Term::Multiple { terms, op } => {
                let ghost xs = views(terms@);
                let ghost whole_terms = *terms;
                let ghost head = seq![op_label(*op)];
                assert(node_views(out@) =~= before + numbered(head + labels_of(xs.subrange(0, 0)), base as int));
                let n = terms.len();
                let mut i: usize = 0;
                while i < n
                    invariant
                        n == terms@.len(),
                        xs == views(terms@),
                        0 <= i <= n,
                        base + labels(self@).len() <= usize::MAX,
                        labels(self@) == head + labels_of(xs),
                        head == seq![op_label(*op)],
                        node_views(out@) == before + numbered(head + labels_of(xs.subrange(0, i as int)), base as int),
                        out@.len() == base + 1 + labels_of(xs.subrange(0, i as int)).len(),
                        before.len() == base,
                        *self == (Term::Multiple { terms: whole_terms, op: *op }),
                        whole_terms == *terms,
                    decreases n - i,
                {
                    proof {
                        lemma_labels_of_step(xs, i as int);
                        lemma_labels_of_prefix(xs, i + 1);
                        lemma_numbered_concat(head + labels_of(xs.subrange(0, i as int)), labels(xs[i as int]), base as int);
                        assert(head + labels_of(xs.subrange(0, i + 1)) =~= head + labels_of(xs.subrange(0, i as int)) + labels(xs[i as int]));
                    }
                    assert(decreases_to!(*self => terms@[i as int])) by {
                        assert(decreases_to!(*self => (*self)->terms));
                        assert(decreases_to!(whole_terms => whole_terms@));
                    };
                    assert(xs[i as int] == terms@[i as int]@);
                    terms[i].push_nodes(out);
                    assert(node_views(out@).len() == out@.len());
                    i = i + 1;
                }
                assert(xs.subrange(0, n as int) =~= xs);
            },
        }
    }

    /// The nodes of the term in preorder, each numbered by its place.
    pub fn nodes(&self) -> (r: Vec<TermNode>)
        requires
            labels(self@).len() <= usize::MAX,
        ensures
            node_views(r@) == node_models(self@, 0),
    {
        let mut out: Vec<TermNode> = Vec::new();
        self.push_nodes(&mut out);
        assert(node_views(out@) =~= node_models(self@, 0));
        out
    }

    fn push_edges(&self, base: usize, out: &mut Vec<TermEdge>)
        requires
            base + labels(self@).len() <= usize::MAX,
        ensures
            edge_views(final(out)@) == edge_views(old(out)@) + edge_models(self@, base as int),
        decreases self,
    {
        let ghost before = edge_views(out@);
        match self {
            Term::Unary { atom, op } => {
                if *op == UnaryOp::Not {
                    let source = TermNode { content: "Not".to_owned(), id: base };
                    let target = TermNode { content: atom.name().to_owned(), id: base + 1 };
                    out.push(TermEdge { source, target });
                }
                assert(edge_views(out@) =~= before + edge_models(self@, base as int));
            },
            Term::Multiple { terms, op } => {
                let ghost xs = views(terms@);
                let ghost whole_terms = *terms;
                let label = self.label();
                assert(edge_views(out@) =~= before + child_edges(op_label(*op), xs.subrange(0, 0), base as int, base + 1));
                let n = terms.len();
                let mut start: usize = base + 1;
                let mut i: usize = 0;
                while i < n
                    invariant
                        n == terms@.len(),
                        xs == views(terms@),
                        0 <= i <= n,
                        base + labels(self@).len() <= usize::MAX,
                        labels(self@) == seq![op_label(*op)] + labels_of(xs),
                        label@ == op_label(*op),
                        start == base + 1 + labels_of(xs.subrange(0, i as int)).len(),
                        edge_views(out@) == before + child_edges(op_label(*op), xs.subrange(0, i as int), base as int, base + 1),
                        *self == (Term::Multiple { terms: whole_terms, op: *op }),
                        whole_terms == *terms,
                    decreases n - i,
                {
                    let ghost pre = xs.subrange(0, i as int);
                    let ghost next = xs.subrange(0, i + 1);
                    proof {
                        lemma_labels_of_step(xs, i as int);
                        lemma_labels_of_prefix(xs, i + 1);
                        assert(next.drop_last() =~= pre);
                        assert(next.last() == xs[i as int]);
                    }
                    assert(decreases_to!(*self => terms@[i as int])) by {
                        assert(decreases_to!(*self => (*self)->terms));
                        assert(decreases_to!(whole_terms => whole_terms@));
                    };
                    assert(xs[i as int] == terms@[i as int]@);
                    let child = &terms[i];
                    let source = TermNode { content: label.clone(), id: base };
                    let target = TermNode { content: child.label(), id: start };
                    let ghost mid = edge_views(out@);
                    out.push(TermEdge { source, target });
                    assert(edge_views(out@) =~= mid.push(EdgeModel {
                        source: NodeModel { content: op_label(*op), id: base as int },
                        target: NodeModel { content: labels(xs[i as int])[0], id: start as int },
                    }));
                    child.push_edges(start, out);
                    let s = child.size();
                    start = start + s;
                    assert(edge_views(out@) =~= before + child_edges(op_label(*op), next, base as int, base + 1));
                    i = i + 1;
                }
                assert(xs.subrange(0, n as int) =~= xs);
            },
            Term::Empty => {
                assert(edge_views(out@) =~= before + edge_models(self@, base as int));
            },
        }
    }

    /// The edges of the term, from each operation to each of its operands
    /// and from each `Not` to its atom, with nodes numbered as `nodes`
    /// numbers them.
    pub fn edges(&self) -> (r: Vec<TermEdge>)
        requires
            labels(self@).len() <= usize::MAX,
        ensures
            edge_views(r@) == edge_models(self@, 0),
    {
        let mut out: Vec<TermEdge> = Vec::new();
        self.push_edges(0, &mut out);
        assert(edge_views(out@) =~= edge_models(self@, 0));
        out
    }
}

proof fn lemma_labels_of_prefix(xs: Seq<Formula>, i: int)
    requires
        0 <= i <= xs.len(),
    ensures
        labels_of(xs.subrange(0, i)).len() <= labels_of(xs).len(),
    decreases xs.len() - i,
{
    if i < xs.len() {
        lemma_labels_of_step(xs, i);
        lemma_labels_of_prefix(xs, i + 1);
    } else {
        assert(xs.subrange(0, i) =~= xs);
    }
}

} // verus!

//! The bipartite proposition graph.
//!
//! Vertices are Single nodes (ground propositions) and Group nodes
//! (conjunctive premises); every edge joins a Single to a Group or a Group
//! to a Single.  The graph is built by backward expansion from a target
//! proposition: each Single is resolved against the implication store, its
//! premise groups become parent Group nodes, and their terms become parent
//! Singles, until only existence facts remain.  Nodes are held in one
//! table and edges as index lists, so every adjacency question is a plain
//! vector read.

use vstd::prelude::*;

use crate::errors::BeliefError;
use crate::factors::{PredicateGraph, PropositionInferenceFactor};
use crate::objects::{
    PredicateInferenceFactor, PredicateView, Proposition, PropositionGroup, group_chars,
    pred_chars, same_terms,
};

verus! {

/// The reserved predicate function name of existence facts.
pub open spec fn existence_chars() -> Seq<char> {
    "exists"@
}

/// The reserved function name of existence facts, as a string.
pub fn existence_function() -> (r: String)
    ensures
        r@ == existence_chars(),
{
    String::from_str("exists")
}

/// Whether a proposition is an existence fact.
pub fn is_existence(p: &Proposition) -> (r: bool)
    ensures
        r == (p@.function == existence_chars()),
{
    crate::text::str_eq(p.predicate.function.as_str(), existence_function().as_str())
}

/// The two vertex kinds.
#[derive(Debug)]
pub enum GenericNodeType {
    Single(Proposition),
    Group(PropositionGroup),
}

/// View of a vertex.
pub enum NodeView {
    Single(PredicateView),
    Group(Seq<PredicateView>),
}

/// A vertex of the proposition graph.
#[derive(Debug)]
pub struct PropositionNode {
    pub node: GenericNodeType,
}

impl View for PropositionNode {
    type V = NodeView;

    open spec fn view(&self) -> NodeView {
        match self.node {
            GenericNodeType::Single(ref p) => NodeView::Single(p@),
            GenericNodeType::Group(ref g) => NodeView::Group(g@),
        }
    }
}

/// Vertex identity: Singles by structural equality, Groups by their term
/// multiset.
pub open spec fn node_same(a: NodeView, b: NodeView) -> bool {
    match (a, b) {
        (NodeView::Single(x), NodeView::Single(y)) => x == y,
        (NodeView::Group(x), NodeView::Group(y)) => same_terms(x, y),
        _ => false,
    }
}

impl Clone for PropositionNode {
    /// An exact copy.
    fn clone(&self) -> (r: Self)
        ensures
            r@ == self@,
    {
        match &self.node {
            GenericNodeType::Single(p) => PropositionNode {
                node: GenericNodeType::Single(p.clone()),
            },
            GenericNodeType::Group(g) => PropositionNode { node: GenericNodeType::Group(g.clone()) },
        }
    }
}

impl PropositionNode {
    /// Wraps a proposition as a Single vertex.
    pub fn from_single(p: &Proposition) -> (r: PropositionNode)
        ensures
            r@ == NodeView::Single(p@),
    {
        PropositionNode { node: GenericNodeType::Single(p.clone()) }
    }

    /// Wraps a group as a Group vertex.
    pub fn from_group(g: &PropositionGroup) -> (r: PropositionNode)
        ensures
            r@ == NodeView::Group(g@),
    {
        PropositionNode { node: GenericNodeType::Group(g.clone()) }
    }

    /// Whether this vertex is a Single.
    pub fn is_single(&self) -> (r: bool)
        ensures
            r == (self@ is Single),
    {
        match &self.node {
            GenericNodeType::Single(_) => true,
            GenericNodeType::Group(_) => false,
        }
    }

    /// Whether this vertex is a Group.
    pub fn is_group(&self) -> (r: bool)
        ensures
            r == (self@ is Group),
    {
        !self.is_single()
    }

    /// The proposition of a Single vertex.
    pub fn extract_single(&self) -> (r: Proposition)
        requires
            self@ is Single,
        ensures
            self@ == NodeView::Single(r@),
    {
        match &self.node {
            GenericNodeType::Single(p) => p.clone(),
            GenericNodeType::Group(_) => vstd::pervasive::unreached(),
        }
    }

    /// The group of a Group vertex.
    pub fn extract_group(&self) -> (r: PropositionGroup)
        requires
            self@ is Group,
        ensures
            self@ == NodeView::Group(r@),
    {
        match &self.node {
            GenericNodeType::Single(_) => vstd::pervasive::unreached(),
            GenericNodeType::Group(g) => g.clone(),
        }
    }

    /// Identity of two vertices.
    pub fn eq_node(&self, other: &PropositionNode) -> (r: bool)
        ensures
            r == node_same(self@, other@),
    {
        match (&self.node, &other.node) {
            (GenericNodeType::Single(a), GenericNodeType::Single(b)) => a.eq_prop(b),
            (GenericNodeType::Group(a), GenericNodeType::Group(b)) => a.eq_group(b),
            _ => false,
        }
    }

    /// The hash rendering of the wrapped value.
    pub fn debug_string(&self) -> (r: String)
        ensures
            self@ is Single ==> r@ == pred_chars(self@->Single_0),
            self@ is Group ==> r@ == group_chars(self@->Group_0),
    {
        match &self.node {
            GenericNodeType::Single(p) => p.hash_string(),
            GenericNodeType::Group(g) => g.hash_string(),
        }
    }
}

/// The proposition graph: one vertex table and index-list edges.
///
/// `parents` points backward (toward premises), `children` forward
/// (toward conclusions).  A Group's one child is the Single it concludes,
/// and `inferences` keeps the implication that grounded it.
#[derive(Debug)]
pub struct PropositionGraph {
    pub nodes: Vec<PropositionNode>,
    pub parents: Vec<Vec<usize>>,
    pub children: Vec<Vec<usize>>,
    pub inferences: Vec<Option<PredicateInferenceFactor>>,
    pub roots: Vec<usize>,
    pub target: usize,
}

impl PropositionGraph {
    /// The number of vertices.
    pub open spec fn n(self) -> int {
        self.nodes@.len() as int
    }

    /// Whether vertex `i` is a Single.
    pub open spec fn single(self, i: int) -> bool {
        self.nodes@[i]@ is Single
    }

    /// A forward edge from `u` to `v`.
    pub open spec fn edge(self, u: int, v: int) -> bool {
        &&& 0 <= u < self.n()
        &&& 0 <= v < self.n()
        &&& self.children@[u]@.contains(v as usize)
    }

    /// Well-formedness of the graph.
    pub open spec fn wf(self) -> bool {
        &&& self.nodes@.len() <= usize::MAX
        &&& self.parents@.len() == self.n()
        &&& self.children@.len() == self.n()
        &&& self.inferences@.len() == self.n()
        &&& 0 <= self.target < self.n()
        &&& self.single(self.target as int)
        // edge indexes stay in range
        &&& forall|i: int, k: int|
            0 <= i < self.n() && 0 <= k < self.parents@[i]@.len() ==> (#[trigger] self.parents@[i]@[k])
                < self.nodes@.len()
        &&& forall|i: int, k: int|
            0 <= i < self.n() && 0 <= k < self.children@[i]@.len() ==> (
            #[trigger] self.children@[i]@[k]) < self.nodes@.len()
        // the graph is bipartite
        &&& forall|i: int, k: int|
            0 <= i < self.n() && 0 <= k < self.parents@[i]@.len() ==> (self.single(i) != self.single(
                (#[trigger] self.parents@[i]@[k]) as int,
            ))
        &&& forall|i: int, k: int|
            0 <= i < self.n() && 0 <= k < self.children@[i]@.len() ==> (self.single(i)
                != self.single((#[trigger] self.children@[i]@[k]) as int))
        // a Group concludes exactly one Single and keeps its implication
        &&& forall|i: int|
            0 <= i < self.n() && !self.single(i) ==> (#[trigger] self.children@[i]@).len() == 1
        &&& forall|i: int|
            0 <= i < self.n() && !self.single(i) ==> (#[trigger] self.inferences@[i]) is Some
        // a Group holds at least one premise Single
        &&& forall|i: int|
            0 <= i < self.n() && !self.single(i) ==> (#[trigger] self.parents@[i]@).len() >= 1
        // adjacency lists carry no duplicates
        &&& forall|i: int, k1: int, k2: int|
            0 <= i < self.n() && 0 <= k1 < k2 < self.parents@[i]@.len() ==> (
            #[trigger] self.parents@[i]@[k1]) != (#[trigger] self.parents@[i]@[k2])
        &&& forall|i: int, k1: int, k2: int|
            0 <= i < self.n() && 0 <= k1 < k2 < self.children@[i]@.len() ==> (
            #[trigger] self.children@[i]@[k1]) != (#[trigger] self.children@[i]@[k2])
        // parent and child lists agree
        &&& forall|i: int, k: int|
            0 <= i < self.n() && 0 <= k < self.parents@[i]@.len() ==> (
            #[trigger] self.children@[self.parents@[i]@[k] as int]@).contains(i as usize)
        &&& forall|i: int, k: int|
            0 <= i < self.n() && 0 <= k < self.children@[i]@.len() ==> (
            #[trigger] self.parents@[self.children@[i]@[k] as int]@).contains(i as usize)
        // roots are exactly the parentless Singles, and carry existence
        &&& forall|r: int|
            0 <= r < self.roots@.len() ==> (#[trigger] self.roots@[r]) < self.nodes@.len()
        &&& forall|r: int|
            0 <= r < self.roots@.len() ==> self.single((#[trigger] self.roots@[r]) as int)
                && self.parents@[self.roots@[r] as int]@.len() == 0
                && self.nodes@[self.roots@[r] as int]@->Single_0.function == existence_chars()
        &&& forall|i: int|
            0 <= i < self.n() && self.single(i) && (#[trigger] self.parents@[i]@).len() == 0
                ==> self.roots@.contains(i as usize)
        &&& forall|r1: int, r2: int|
            0 <= r1 < r2 < self.roots@.len() ==> (#[trigger] self.roots@[r1]) != (
            #[trigger] self.roots@[r2])
        // vertices are pairwise distinct under vertex identity
        &&& forall|i: int, j: int|
            0 <= i < j < self.n() ==> !node_same(
                (#[trigger] self.nodes@[i])@,
                (#[trigger] self.nodes@[j])@,
            )
    }

    /// The forward neighbors (children) of a vertex.
    pub fn get_all_forward(&self, id: usize) -> (r: &Vec<usize>)
        requires
            self.wf(),
            id < self.nodes@.len(),
        ensures
            r == &self.children[id as int],
    {
        &self.children[id]
    }

    /// The backward neighbors (parents) of a vertex.
    pub fn get_all_backward(&self, id: usize) -> (r: &Vec<usize>)
        requires
            self.wf(),
            id < self.nodes@.len(),
        ensures
            r == &self.parents[id as int],
    {
        &self.parents[id]
    }

    /// The first vertex holding this proposition, if any.
    pub fn find_single(&self, p: &Proposition) -> (r: Option<usize>)
        ensures
            r matches Some(i) ==> i < self.nodes@.len() && self.nodes@[i as int]@
                == NodeView::Single(p@) && forall|j: int|
                0 <= j < i ==> !node_same((#[trigger] self.nodes@[j])@, NodeView::Single(p@)),
            r is None ==> forall|i: int|
                0 <= i < self.nodes@.len() ==> !node_same((#[trigger] self.nodes@[i])@, NodeView::Single(p@)),
    {
        let mut i: usize = 0;
        while i < self.nodes.len()
            invariant
                i <= self.nodes@.len(),
                forall|j: int|
                    0 <= j < i ==> !node_same(
                        (#[trigger] self.nodes@[j])@,
                        NodeView::Single(p@),
                    ),
            decreases self.nodes@.len() - i,
        {
            match &self.nodes[i].node {
                GenericNodeType::Single(q) => {
                    if q.eq_prop(p) {
                        return Some(i);
                    }
                },
                GenericNodeType::Group(_) => {},
            }
            i += 1;
        }
        None
    }

    /// The first vertex holding this group (by term multiset), if any.
    pub fn find_group(&self, g: &PropositionGroup) -> (r: Option<usize>)
        ensures
            r matches Some(i) ==> i < self.nodes@.len() && self.nodes@[i as int]@ is Group
                && node_same(self.nodes@[i as int]@, NodeView::Group(g@)) && forall|j: int|
                0 <= j < i ==> !node_same((#[trigger] self.nodes@[j])@, NodeView::Group(g@)),
            r is None ==> forall|i: int|
                0 <= i < self.nodes@.len() ==> !node_same((#[trigger] self.nodes@[i])@, NodeView::Group(g@)),
    {
        let mut i: usize = 0;
        while i < self.nodes.len()
            invariant
                i <= self.nodes@.len(),
                forall|j: int|
                    0 <= j < i ==> !node_same((#[trigger] self.nodes@[j])@, NodeView::Group(g@)),
            decreases self.nodes@.len() - i,
        {
            match &self.nodes[i].node {
                GenericNodeType::Single(_) => {},
                GenericNodeType::Group(h) => {
                    if h.eq_group(g) {
                        return Some(i);
                    }
                },
            }
            i += 1;
        }
        None
    }
}

/// Whether a vector of indexes holds a value.
pub fn contains_id(v: &Vec<usize>, x: usize) -> (r: bool)
    ensures
        r == v@.contains(x),
{
    let mut i: usize = 0;
    while i < v.len()
        invariant
            i <= v@.len(),
            forall|j: int| 0 <= j < i ==> v@[j] != x,
        decreases v@.len() - i,
    {
        if v[i] == x {
            return true;
        }
        i += 1;
    }
    proof {
        assert(!v@.contains(x));
    }
    false
}


/// Whether some backward slot of vertex `i` holds a Group with exactly
/// these premise terms.
pub open spec fn premise_linked(g: PropositionGraph, i: int, prem: Seq<PredicateView>) -> bool {
    exists|k: int|
        0 <= k < g.parents@[i]@.len() && same_terms(
            (#[trigger] g.nodes@[g.parents@[i]@[k] as int]@)->Group_0,
            prem,
        )
}

/// Whether backward slot `k` of vertex `i` holds the premise of one of
/// the ground factors.
pub open spec fn slot_grounded(
    g: PropositionGraph,
    i: int,
    fs: Seq<crate::factors::GroundFactorView>,
    k: int,
) -> bool {
    exists|f: int|
        0 <= f < fs.len() && same_terms(
            g.nodes@[g.parents@[i]@[k] as int]@->Group_0,
            (#[trigger] fs[f]).premise,
        )
}

/// A Single vertex is fully expanded against the implication store: the
/// store's enumeration grounds, every ground factor's premise is linked
/// as a parent Group, and every parent Group carries some ground
/// factor's premise.
pub open spec fn entry_expanded(
    g: PropositionGraph,
    imps: Seq<crate::objects::FactorTemplateView>,
    i: int,
) -> bool {
    &&& crate::factors::spec_backward_factors(imps, g.nodes@[i]@->Single_0) is Ok
    &&& forall|f: int|
        0 <= f < crate::factors::spec_backward_factors(
            imps,
            g.nodes@[i]@->Single_0,
        )->Ok_0.len() ==> premise_linked(
            g,
            i,
            (#[trigger] crate::factors::spec_backward_factors(
                imps,
                g.nodes@[i]@->Single_0,
            )->Ok_0[f]).premise,
        )
    &&& forall|k: int|
        0 <= k < g.parents@[i]@.len() ==> #[trigger] slot_grounded(
            g,
            i,
            crate::factors::spec_backward_factors(imps, g.nodes@[i]@->Single_0)->Ok_0,
            k,
        )
}

/// The whole graph is the store's backward expansion: every Single is
/// fully expanded.
pub open spec fn expansion_ok(
    g: PropositionGraph,
    imps: Seq<crate::objects::FactorTemplateView>,
) -> bool {
    forall|i: int|
        0 <= i < g.n() && g.single(i) ==> #[trigger] entry_expanded(g, imps, i)
}

/// Appending vertices and extending other rows never unlinks an
/// expanded entry.
proof fn lemma_links_preserved(
    g1: PropositionGraph,
    g2: PropositionGraph,
    imps: Seq<crate::objects::FactorTemplateView>,
    i: int,
)
    requires
        0 <= i < g1.n(),
        g1.parents@.len() == g1.n(),
        forall|k: int|
            0 <= k < g1.parents@[i]@.len() ==> (#[trigger] g1.parents@[i]@[k])
                < g1.nodes@.len(),
        g2.nodes@.len() >= g1.nodes@.len(),
        forall|j: int| 0 <= j < g1.nodes@.len() ==> g2.nodes@[j] == g1.nodes@[j],
        g2.parents@[i] == g1.parents@[i],
        entry_expanded(g1, imps, i),
    ensures
        entry_expanded(g2, imps, i),
{
    let fs = crate::factors::spec_backward_factors(imps, g1.nodes@[i]@->Single_0);
    assert(g2.nodes@[i] == g1.nodes@[i]);
    assert forall|f: int|
        0 <= f < crate::factors::spec_backward_factors(
            imps,
            g2.nodes@[i]@->Single_0,
        )->Ok_0.len() implies premise_linked(
        g2,
        i,
        (#[trigger] crate::factors::spec_backward_factors(
            imps,
            g2.nodes@[i]@->Single_0,
        )->Ok_0[f]).premise,
    ) by {
        let prem = crate::factors::spec_backward_factors(
            imps,
            g1.nodes@[i]@->Single_0,
        )->Ok_0[f].premise;
        assert(premise_linked(g1, i, prem));
        let k = choose|k: int|
            0 <= k < g1.parents@[i]@.len() && same_terms(
                g1.nodes@[g1.parents@[i]@[k] as int]@->Group_0,
                prem,
            );
        assert(g2.parents@[i]@[k] == g1.parents@[i]@[k]);
        assert(same_terms(g2.nodes@[g2.parents@[i]@[k] as int]@->Group_0, prem));
    }
    assert forall|k: int|
        0 <= k < g2.parents@[i]@.len() implies #[trigger] slot_grounded(
        g2,
        i,
        crate::factors::spec_backward_factors(imps, g2.nodes@[i]@->Single_0)->Ok_0,
        k,
    ) by {
        assert(slot_grounded(
            g1,
            i,
            crate::factors::spec_backward_factors(imps, g1.nodes@[i]@->Single_0)->Ok_0,
            k,
        ));
        let f = choose|f: int|
            0 <= f < fs->Ok_0.len() && same_terms(
                g1.nodes@[g1.parents@[i]@[k] as int]@->Group_0,
                fs->Ok_0[f].premise,
            );
        assert(g2.parents@[i]@[k] == g1.parents@[i]@[k]);
        assert(same_terms(
            g2.nodes@[g2.parents@[i]@[k] as int]@->Group_0,
            fs->Ok_0[f].premise,
        ));
    }
}

/// Extending a vertex's parent list and appending vertices keeps every
/// established premise link and every old slot's grounding.
proof fn lemma_factor_links_preserved(
    g1: PropositionGraph,
    g2: PropositionGraph,
    i: int,
    fsv: Seq<crate::factors::GroundFactorView>,
    upto: int,
)
    requires
        0 <= i < g1.n(),
        g1.parents@.len() == g1.n(),
        forall|k: int|
            0 <= k < g1.parents@[i]@.len() ==> (#[trigger] g1.parents@[i]@[k])
                < g1.nodes@.len(),
        g2.nodes@.len() >= g1.nodes@.len(),
        forall|j: int| 0 <= j < g1.nodes@.len() ==> g2.nodes@[j] == g1.nodes@[j],
        g1.parents@[i]@.is_prefix_of(g2.parents@[i]@),
        forall|f: int|
            0 <= f < upto ==> premise_linked(g1, i, (#[trigger] fsv[f]).premise),
        forall|k: int|
            0 <= k < g1.parents@[i]@.len() ==> #[trigger] slot_grounded(g1, i, fsv, k),
    ensures
        forall|f: int|
            0 <= f < upto ==> premise_linked(g2, i, (#[trigger] fsv[f]).premise),
        forall|k: int|
            0 <= k < g1.parents@[i]@.len() ==> #[trigger] slot_grounded(g2, i, fsv, k),
{
    assert forall|f: int|
        0 <= f < upto implies premise_linked(g2, i, (#[trigger] fsv[f]).premise) by {
        let prem = fsv[f].premise;
        assert(premise_linked(g1, i, prem));
        let k = choose|k: int|
            0 <= k < g1.parents@[i]@.len() && same_terms(
                g1.nodes@[g1.parents@[i]@[k] as int]@->Group_0,
                prem,
            );
        assert(g2.parents@[i]@[k] == g1.parents@[i]@[k]);
        assert(same_terms(g2.nodes@[g2.parents@[i]@[k] as int]@->Group_0, prem));
    }
    assert forall|k: int|
        0 <= k < g1.parents@[i]@.len() implies #[trigger] slot_grounded(g2, i, fsv, k) by {
        assert(slot_grounded(g1, i, fsv, k));
        let f = choose|f: int|
            0 <= f < fsv.len() && same_terms(
                g1.nodes@[g1.parents@[i]@[k] as int]@->Group_0,
                fsv[f].premise,
            );
        assert(g2.parents@[i]@[k] == g1.parents@[i]@[k]);
        assert(same_terms(g2.nodes@[g2.parents@[i]@[k] as int]@->Group_0, fsv[f].premise));
    }
}

/// A target that nothing concludes and that is an existence fact: its
/// expansion is the one-vertex graph.
pub open spec fn lone_existence_target(
    imps: Seq<crate::objects::FactorTemplateView>,
    t: PredicateView,
) -> bool {
    &&& crate::factors::spec_backward_factors(imps, t) matches Ok(fs) && fs.len() == 0
    &&& t.function == existence_chars()
}

/// The structural part of well-formedness: everything `wf` says except
/// the root bookkeeping and the target's place.
pub open spec fn shaped(g: PropositionGraph) -> bool {
    &&& g.nodes@.len() <= usize::MAX
    &&& g.parents@.len() == g.n()
    &&& g.children@.len() == g.n()
    &&& g.inferences@.len() == g.n()
    &&& g.target == 0
    &&& 0 < g.n()
    &&& g.single(0)
    &&& forall|i: int, k: int|
        0 <= i < g.n() && 0 <= k < g.parents@[i]@.len() ==> (#[trigger] g.parents@[i]@[k])
            < g.nodes@.len()
    &&& forall|i: int, k: int|
        0 <= i < g.n() && 0 <= k < g.children@[i]@.len() ==> (#[trigger] g.children@[i]@[k])
            < g.nodes@.len()
    &&& forall|i: int, k: int|
        0 <= i < g.n() && 0 <= k < g.parents@[i]@.len() ==> (g.single(i) != g.single(
            (#[trigger] g.parents@[i]@[k]) as int,
        ))
    &&& forall|i: int, k: int|
        0 <= i < g.n() && 0 <= k < g.children@[i]@.len() ==> (g.single(i) != g.single(
            (#[trigger] g.children@[i]@[k]) as int,
        ))
    &&& forall|i: int| 0 <= i < g.n() && !g.single(i) ==> (#[trigger] g.children@[i]@).len() == 1
    &&& forall|i: int| 0 <= i < g.n() && !g.single(i) ==> (#[trigger] g.inferences@[i]) is Some
    &&& forall|i: int, k1: int, k2: int|
        0 <= i < g.n() && 0 <= k1 < k2 < g.parents@[i]@.len() ==> (#[trigger] g.parents@[i]@[k1])
            != (#[trigger] g.parents@[i]@[k2])
    &&& forall|i: int, k1: int, k2: int|
        0 <= i < g.n() && 0 <= k1 < k2 < g.children@[i]@.len() ==> (
        #[trigger] g.children@[i]@[k1]) != (#[trigger] g.children@[i]@[k2])
    &&& forall|i: int, k: int|
        0 <= i < g.n() && 0 <= k < g.parents@[i]@.len() ==> (
        #[trigger] g.children@[g.parents@[i]@[k] as int]@).contains(i as usize)
    &&& forall|i: int, k: int|
        0 <= i < g.n() && 0 <= k < g.children@[i]@.len() ==> (
        #[trigger] g.parents@[g.children@[i]@[k] as int]@).contains(i as usize)
    &&& forall|i: int, j: int|
        0 <= i < j < g.n() ==> !node_same((#[trigger] g.nodes@[i])@, (#[trigger] g.nodes@[j])@)
}

/// The agenda lists exactly the Single vertices, without repetition.
pub open spec fn agenda_ok(g: PropositionGraph, agenda: Seq<usize>) -> bool {
    &&& forall|j: int| 0 <= j < agenda.len() ==> (#[trigger] agenda[j]) < g.nodes@.len()
    &&& forall|j: int| 0 <= j < agenda.len() ==> g.single((#[trigger] agenda[j]) as int)
    &&& forall|j1: int, j2: int|
        0 <= j1 < j2 < agenda.len() ==> (#[trigger] agenda[j1]) != (#[trigger] agenda[j2])
    &&& forall|i: int| 0 <= i < g.n() && g.single(i) ==> agenda.contains(i as usize)
}

/// Whether a vertex was resolved among the first `done` agenda entries.
pub open spec fn resolved_in(x: usize, agenda: Seq<usize>, done: int) -> bool {
    exists|j: int| 0 <= j < done && agenda[j] == x
}

/// Every recorded root was resolved among the first `done` agenda entries.
pub open spec fn roots_resolved(roots: Seq<usize>, agenda: Seq<usize>, done: int) -> bool {
    forall|r: int| 0 <= r < roots.len() ==> resolved_in(#[trigger] roots[r], agenda, done)
}

/// Extending the agenda beyond `done` keeps every root resolved.
proof fn lemma_roots_resolved_extend(
    roots: Seq<usize>,
    a1: Seq<usize>,
    a2: Seq<usize>,
    done: int,
)
    requires
        roots_resolved(roots, a1, done),
        0 <= done <= a1.len(),
        done <= a2.len(),
        forall|j: int| 0 <= j < done ==> a2[j] == a1[j],
    ensures
        roots_resolved(roots, a2, done),
{
    assert forall|r: int|
        0 <= r < roots.len() implies resolved_in(#[trigger] roots[r], a2, done) by {
        assert(resolved_in(roots[r], a1, done));
        let j = choose|j: int| 0 <= j < done && a1[j] == roots[r];
        assert(0 <= j < done && a2[j] == roots[r]);
    }
}

/// The root list holds parentless existence Singles, without repetition,
/// all of them already resolved.
pub open spec fn roots_shape(g: PropositionGraph, agenda: Seq<usize>, done: int) -> bool {
    &&& forall|r: int| 0 <= r < g.roots@.len() ==> (#[trigger] g.roots@[r]) < g.nodes@.len()
    &&& forall|r: int|
        0 <= r < g.roots@.len() ==> g.single((#[trigger] g.roots@[r]) as int)
            && g.parents@[g.roots@[r] as int]@.len() == 0
            && g.nodes@[g.roots@[r] as int]@->Single_0.function == existence_chars()
    &&& forall|r1: int, r2: int|
        0 <= r1 < r2 < g.roots@.len() ==> (#[trigger] g.roots@[r1]) != (#[trigger] g.roots@[r2])
    &&& roots_resolved(g.roots@, agenda, done)
}

/// The invariant of the backward expansion after `done` resolved entries.
pub open spec fn building(g: PropositionGraph, agenda: Seq<usize>, done: int) -> bool {
    &&& shaped(g)
    &&& forall|i: int|
        0 <= i < g.n() && !g.single(i) ==> (#[trigger] g.parents@[i]@).len() >= 1
    &&& agenda_ok(g, agenda)
    &&& roots_shape(g, agenda, done)
    &&& 0 <= done <= agenda.len()
    &&& forall|j: int|
        done <= j < agenda.len() ==> g.parents@[(#[trigger] agenda[j]) as int]@.len() == 0
    &&& forall|j: int|
        0 <= j < done && g.parents@[(#[trigger] agenda[j]) as int]@.len() == 0
            ==> g.roots@.contains(agenda[j])
}

/// A fully expanded graph is well formed.
proof fn lemma_building_wf(g: PropositionGraph, agenda: Seq<usize>)
    requires
        building(g, agenda, agenda.len() as int),
    ensures
        g.wf(),
{
    assert forall|i: int|
        0 <= i < g.n() && g.single(i) && (#[trigger] g.parents@[i]@).len()
            == 0 implies g.roots@.contains(i as usize) by {
        assert(agenda.contains(i as usize));
        let j = choose|j: int| 0 <= j < agenda.len() && agenda[j] == i as usize;
        assert(g.parents@[agenda[j] as int]@.len() == 0);
    }
}

/// Adds a fresh Single vertex with no edges yet.
fn add_single_node(g: &mut PropositionGraph, p: &Proposition) -> (tid: usize)
    requires
        shaped(*old(g)),
        forall|i: int|
            0 <= i < old(g).nodes@.len() ==> !node_same(
                (#[trigger] old(g).nodes@[i])@,
                NodeView::Single(p@),
            ),
        old(g).nodes@.len() < usize::MAX,
    ensures
        shaped(*final(g)),
        tid == old(g).nodes@.len(),
        final(g).nodes@.len() == old(g).nodes@.len() + 1,
        final(g).nodes@[tid as int]@ == NodeView::Single(p@),
        forall|i: int| 0 <= i < old(g).nodes@.len() ==> final(g).nodes@[i] == old(g).nodes@[i],
        forall|i: int| 0 <= i < old(g).nodes@.len() ==> final(g).parents@[i] == old(g).parents@[i],
        forall|i: int|
            0 <= i < old(g).nodes@.len() ==> final(g).children@[i] == old(g).children@[i],
        forall|i: int|
            0 <= i < old(g).nodes@.len() ==> final(g).inferences@[i] == old(g).inferences@[i],
        final(g).parents@[tid as int]@.len() == 0,
        final(g).children@[tid as int]@.len() == 0,
        final(g).roots == old(g).roots,
        final(g).target == old(g).target,
{
    let tid = g.nodes.len();
    g.nodes.push(PropositionNode::from_single(p));
    g.parents.push(Vec::new());
    g.children.push(Vec::new());
    g.inferences.push(None);
    tid
}

/// Adds a fresh Group vertex concluding `sid`, already wired to it.
fn add_group_node(
    g: &mut PropositionGraph,
    sid: usize,
    premise: &PropositionGroup,
    inference: PredicateInferenceFactor,
) -> (gid: usize)
    requires
        shaped(*old(g)),
        sid < old(g).nodes@.len(),
        old(g).single(sid as int),
        forall|i: int|
            0 <= i < old(g).nodes@.len() ==> !node_same(
                (#[trigger] old(g).nodes@[i])@,
                NodeView::Group(premise@),
            ),
        old(g).nodes@.len() < usize::MAX,
    ensures
        shaped(*final(g)),
        gid == old(g).nodes@.len(),
        final(g).nodes@.len() == old(g).nodes@.len() + 1,
        final(g).nodes@[gid as int]@ == NodeView::Group(premise@),
        forall|i: int| 0 <= i < old(g).nodes@.len() ==> final(g).nodes@[i] == old(g).nodes@[i],
        forall|i: int|
            0 <= i < old(g).nodes@.len() && i != sid ==> final(g).parents@[i] == old(g).parents@[i],
        final(g).parents@[sid as int]@ == old(g).parents@[sid as int]@.push(gid),
        forall|i: int|
            0 <= i < old(g).nodes@.len() ==> final(g).children@[i] == old(g).children@[i],
        forall|i: int|
            0 <= i < old(g).nodes@.len() ==> final(g).inferences@[i] == old(g).inferences@[i],
        final(g).parents@[gid as int]@.len() == 0,
        final(g).children@[gid as int]@ =~= seq![sid],
        final(g).inferences@[gid as int] == Some(inference),
        final(g).roots == old(g).roots,
        final(g).target == old(g).target,
{
    let gid = g.nodes.len();
    g.nodes.push(PropositionNode::from_group(premise));
    g.parents.push(Vec::new());
    let mut concl: Vec<usize> = Vec::new();
    concl.push(sid);
    g.children.push(concl);
    g.inferences.push(Some(inference));
    g.parents[sid].push(gid);
    proof {
        let gn = *g;
        let go = *old(g);
        assert(gn.children@[gid as int]@ =~= seq![sid]);
        assert(gn.single(sid as int));
        assert(!gn.single(gid as int));
        assert forall|i: int, k: int|
            0 <= i < gn.n() && 0 <= k < gn.parents@[i]@.len() implies (
        #[trigger] gn.parents@[i]@[k]) < gn.nodes@.len() by {
            if i == sid && k == gn.parents@[i]@.len() - 1 {
            } else if i < go.nodes@.len() {
                assert(gn.parents@[i]@[k] == go.parents@[i]@[k]);
            }
        }
        assert forall|i: int, k: int|
            0 <= i < gn.n() && 0 <= k < gn.children@[i]@.len() implies (
        #[trigger] gn.children@[i]@[k]) < gn.nodes@.len() by {
            if i == gid {
                assert(gn.children@[i]@[k] == sid);
            } else {
                assert(gn.children@[i]@[k] == go.children@[i]@[k]);
            }
        }
        assert forall|i: int, k: int|
            0 <= i < gn.n() && 0 <= k < gn.parents@[i]@.len() implies (gn.single(i) != gn.single(
            (#[trigger] gn.parents@[i]@[k]) as int,
        )) by {
            if i == sid && k == gn.parents@[i]@.len() - 1 {
            } else if i < go.nodes@.len() {
                assert(gn.parents@[i]@[k] == go.parents@[i]@[k]);
                assert(go.single(i) != go.single(go.parents@[i]@[k] as int));
            }
        }
        assert forall|i: int, k: int|
            0 <= i < gn.n() && 0 <= k < gn.children@[i]@.len() implies (gn.single(i) != gn.single(
            (#[trigger] gn.children@[i]@[k]) as int,
        )) by {
            if i == gid {
                assert(gn.children@[i]@[k] == sid);
            } else {
                assert(gn.children@[i]@[k] == go.children@[i]@[k]);
                assert(go.single(i) != go.single(go.children@[i]@[k] as int));
            }
        }
        assert forall|i: int, k1: int, k2: int|
            0 <= i < gn.n() && 0 <= k1 < k2 < gn.parents@[i]@.len() implies (
        #[trigger] gn.parents@[i]@[k1]) != (#[trigger] gn.parents@[i]@[k2]) by {
            if i == sid && k2 == gn.parents@[i]@.len() - 1 {
                assert(go.parents@[sid as int]@[k1] < go.nodes@.len());
            } else if i < go.nodes@.len() {
                assert(gn.parents@[i]@[k1] == go.parents@[i]@[k1]);
                assert(gn.parents@[i]@[k2] == go.parents@[i]@[k2]);
            }
        }
        assert forall|i: int, k1: int, k2: int|
            0 <= i < gn.n() && 0 <= k1 < k2 < gn.children@[i]@.len() implies (
        #[trigger] gn.children@[i]@[k1]) != (#[trigger] gn.children@[i]@[k2]) by {
            if i < go.nodes@.len() {
                assert(gn.children@[i]@[k1] == go.children@[i]@[k1]);
                assert(gn.children@[i]@[k2] == go.children@[i]@[k2]);
            }
        }
        assert forall|i: int, k: int|
            0 <= i < gn.n() && 0 <= k < gn.parents@[i]@.len() implies (
        #[trigger] gn.children@[gn.parents@[i]@[k] as int]@).contains(i as usize) by {
            if i == sid && k == gn.parents@[i]@.len() - 1 {
                assert(gn.children@[gid as int]@[0] == sid);
            } else {
                assert(gn.parents@[i]@[k] == go.parents@[i]@[k]);
                assert(go.children@[go.parents@[i]@[k] as int]@.contains(i as usize));
                let j = choose|j: int|
                    0 <= j < go.children@[go.parents@[i]@[k] as int]@.len() && go.children@[go.parents@[i]@[k] as int]@[j]
                        == i as usize;
                assert(gn.children@[gn.parents@[i]@[k] as int]@[j] == i as usize);
            }
        }
        assert forall|i: int, k: int|
            0 <= i < gn.n() && 0 <= k < gn.children@[i]@.len() implies (
        #[trigger] gn.parents@[gn.children@[i]@[k] as int]@).contains(i as usize) by {
            if i == gid {
                assert(gn.children@[i]@[k] == sid);
                assert(gn.parents@[sid as int]@[gn.parents@[sid as int]@.len() - 1] == gid);
            } else {
                assert(gn.children@[i]@[k] == go.children@[i]@[k]);
                assert(go.parents@[go.children@[i]@[k] as int]@.contains(i as usize));
                let j = choose|j: int|
                    0 <= j < go.parents@[go.children@[i]@[k] as int]@.len() && go.parents@[go.children@[i]@[k] as int]@[j]
                        == i as usize;
                assert(gn.parents@[gn.children@[i]@[k] as int]@[j] == i as usize);
            }
        }
        assert forall|i: int, j: int|
            0 <= i < j < gn.n() implies !node_same(
            (#[trigger] gn.nodes@[i])@,
            (#[trigger] gn.nodes@[j])@,
        ) by {
            if j == gid {
                assert(!node_same(go.nodes@[i]@, NodeView::Group(premise@)));
            }
        }
    }
    gid
}

/// Wires a premise Single into a Group, once.
fn link_single_to_group(g: &mut PropositionGraph, tid: usize, gid: usize)
    requires
        shaped(*old(g)),
        tid < old(g).nodes@.len(),
        gid < old(g).nodes@.len(),
        old(g).single(tid as int),
        !old(g).single(gid as int),
    ensures
        shaped(*final(g)),
        final(g).nodes@ == old(g).nodes@,
        forall|i: int|
            0 <= i < old(g).nodes@.len() && i != gid ==> final(g).parents@[i] == old(g).parents@[i],
        forall|i: int|
            0 <= i < old(g).nodes@.len() && i != tid ==> final(g).children@[i] == old(
                g,
            ).children@[i],
        final(g).parents@[gid as int]@.contains(tid),
        old(g).parents@[gid as int]@.contains(tid) ==> final(g).parents@[gid as int] == old(
            g,
        ).parents@[gid as int] && final(g).children@[tid as int] == old(g).children@[tid as int],
        !old(g).parents@[gid as int]@.contains(tid) ==> final(g).parents@[gid as int]@ == old(
            g,
        ).parents@[gid as int]@.push(tid) && final(g).children@[tid as int]@ == old(
            g,
        ).children@[tid as int]@.push(gid),
        final(g).inferences@ == old(g).inferences@,
        final(g).roots == old(g).roots,
        final(g).target == old(g).target,
{
    if !contains_id(&g.parents[gid], tid) {
        proof {
            assert(!old(g).children@[tid as int]@.contains(gid)) by {
                if old(g).children@[tid as int]@.contains(gid) {
                    let k = choose|k: int|
                        0 <= k < old(g).children@[tid as int]@.len() && old(
                            g,
                        ).children@[tid as int]@[k] == gid;
                    assert(old(g).parents@[gid as int]@.contains(tid));
                }
            }
        }
        g.parents[gid].push(tid);
        g.children[tid].push(gid);
        proof {
            let gn = *g;
            let go = *old(g);
            assert(gn.parents@[gid as int]@[gn.parents@[gid as int]@.len() - 1] == tid);
            assert(gn.parents@[gid as int]@.contains(tid));
            assert forall|i: int, k: int|
                0 <= i < gn.n() && 0 <= k < gn.parents@[i]@.len() implies (
            #[trigger] gn.parents@[i]@[k]) < gn.nodes@.len() by {
                if i == gid && k == gn.parents@[i]@.len() - 1 {
                }
            }
            assert forall|i: int, k: int|
                0 <= i < gn.n() && 0 <= k < gn.children@[i]@.len() implies (
            #[trigger] gn.children@[i]@[k]) < gn.nodes@.len() by {
                if i == tid && k == gn.children@[i]@.len() - 1 {
                }
            }
            assert forall|i: int, k1: int, k2: int|
                0 <= i < gn.n() && 0 <= k1 < k2 < gn.parents@[i]@.len() implies (
            #[trigger] gn.parents@[i]@[k1]) != (#[trigger] gn.parents@[i]@[k2]) by {
                if i == gid && k2 == gn.parents@[i]@.len() - 1 {
                    assert(!go.parents@[gid as int]@.contains(tid));
                    assert(go.parents@[gid as int]@[k1] != tid);
                }
            }
            assert forall|i: int, k1: int, k2: int|
                0 <= i < gn.n() && 0 <= k1 < k2 < gn.children@[i]@.len() implies (
            #[trigger] gn.children@[i]@[k1]) != (#[trigger] gn.children@[i]@[k2]) by {
                if i == tid && k2 == gn.children@[i]@.len() - 1 {
                    assert(!go.children@[tid as int]@.contains(gid));
                    assert(go.children@[tid as int]@[k1] != gid);
                }
            }
            assert forall|i: int, k: int|
                0 <= i < gn.n() && 0 <= k < gn.parents@[i]@.len() implies (
            #[trigger] gn.children@[gn.parents@[i]@[k] as int]@).contains(i as usize) by {
                if i == gid && k == gn.parents@[i]@.len() - 1 {
                    assert(gn.children@[tid as int]@[gn.children@[tid as int]@.len() - 1] == gid);
                } else {
                    assert(go.children@[go.parents@[i]@[k] as int]@.contains(i as usize));
                    let j = choose|j: int|
                        0 <= j < go.children@[go.parents@[i]@[k] as int]@.len() && go.children@[go.parents@[i]@[k] as int]@[j]
                            == i as usize;
                    assert(gn.children@[gn.parents@[i]@[k] as int]@[j] == i as usize);
                }
            }
            assert forall|i: int, k: int|
                0 <= i < gn.n() && 0 <= k < gn.children@[i]@.len() implies (
            #[trigger] gn.parents@[gn.children@[i]@[k] as int]@).contains(i as usize) by {
                if i == tid && k == gn.children@[i]@.len() - 1 {
                    assert(gn.parents@[gid as int]@[gn.parents@[gid as int]@.len() - 1] == tid);
                } else {
                    assert(go.parents@[go.children@[i]@[k] as int]@.contains(i as usize));
                    let j = choose|j: int|
                        0 <= j < go.parents@[go.children@[i]@[k] as int]@.len() && go.parents@[go.children@[i]@[k] as int]@[j]
                            == i as usize;
                    assert(gn.parents@[gn.children@[i]@[k] as int]@[j] == i as usize);
                }
            }
        }
    } else {
        proof {
            let k = choose|k: int|
                0 <= k < old(g).parents@[gid as int]@.len() && old(g).parents@[gid as int]@[k]
                    == tid;
        }
    }
}


/// Wires an already-present Group into the Single it concludes, once.
fn link_group_to_single(g: &mut PropositionGraph, gid: usize, sid: usize)
    requires
        shaped(*old(g)),
        gid < old(g).nodes@.len(),
        sid < old(g).nodes@.len(),
        !old(g).single(gid as int),
        old(g).single(sid as int),
        old(g).children@[gid as int]@.contains(sid),
    ensures
        shaped(*final(g)),
        final(g).nodes@ == old(g).nodes@,
        final(g).children@ == old(g).children@,
        forall|i: int|
            0 <= i < old(g).nodes@.len() && i != sid ==> final(g).parents@[i] == old(g).parents@[i],
        final(g).parents@[sid as int]@.contains(gid),
        final(g).parents@[sid as int]@.len() >= 1,
        old(g).parents@[sid as int]@.contains(gid) ==> final(g).parents@[sid as int] == old(
            g,
        ).parents@[sid as int],
        !old(g).parents@[sid as int]@.contains(gid) ==> final(g).parents@[sid as int]@ == old(
            g,
        ).parents@[sid as int]@.push(gid),
        final(g).inferences@ == old(g).inferences@,
        final(g).roots == old(g).roots,
        final(g).target == old(g).target,
{
    if !contains_id(&g.parents[sid], gid) {
        g.parents[sid].push(gid);
        proof {
            let gn = *g;
            let go = *old(g);
            assert(gn.parents@[sid as int]@[gn.parents@[sid as int]@.len() - 1] == gid);
            assert(gn.parents@[sid as int]@.contains(gid));
            assert forall|i: int, k: int|
                0 <= i < gn.n() && 0 <= k < gn.parents@[i]@.len() implies (
            #[trigger] gn.parents@[i]@[k]) < gn.nodes@.len() by {
                if i == sid && k == gn.parents@[i]@.len() - 1 {
                } else {
                    assert(gn.parents@[i]@[k] == go.parents@[i]@[k]);
                }
            }
            assert forall|i: int, k: int|
                0 <= i < gn.n() && 0 <= k < gn.parents@[i]@.len() implies (gn.single(i)
                    != gn.single((#[trigger] gn.parents@[i]@[k]) as int)) by {
                if i == sid && k == gn.parents@[i]@.len() - 1 {
                } else {
                    assert(gn.parents@[i]@[k] == go.parents@[i]@[k]);
                    assert(go.single(i) != go.single(go.parents@[i]@[k] as int));
                }
            }
            assert forall|i: int, k1: int, k2: int|
                0 <= i < gn.n() && 0 <= k1 < k2 < gn.parents@[i]@.len() implies (
            #[trigger] gn.parents@[i]@[k1]) != (#[trigger] gn.parents@[i]@[k2]) by {
                if i == sid && k2 == gn.parents@[i]@.len() - 1 {
                    assert(!go.parents@[sid as int]@.contains(gid));
                    assert(go.parents@[sid as int]@[k1] != gid);
                } else {
                    assert(gn.parents@[i]@[k1] == go.parents@[i]@[k1]);
                    assert(gn.parents@[i]@[k2] == go.parents@[i]@[k2]);
                }
            }
            assert forall|i: int, k: int|
                0 <= i < gn.n() && 0 <= k < gn.parents@[i]@.len() implies (
            #[trigger] gn.children@[gn.parents@[i]@[k] as int]@).contains(i as usize) by {
                if i == sid && k == gn.parents@[i]@.len() - 1 {
                    assert(go.children@[gid as int]@.contains(sid));
                } else {
                    assert(gn.parents@[i]@[k] == go.parents@[i]@[k]);
                    assert(go.children@[go.parents@[i]@[k] as int]@.contains(i as usize));
                }
            }
            assert forall|i: int, k: int|
                0 <= i < gn.n() && 0 <= k < gn.children@[i]@.len() implies (
            #[trigger] gn.parents@[gn.children@[i]@[k] as int]@).contains(i as usize) by {
                assert(go.parents@[go.children@[i]@[k] as int]@.contains(i as usize));
                let c = go.children@[i]@[k] as int;
                let j = choose|j: int|
                    0 <= j < go.parents@[c]@.len() && go.parents@[c]@[j] == i as usize;
                assert(gn.parents@[c]@[j] == i as usize);
            }
        }
    } else {
        proof {
            let k = choose|k: int|
                0 <= k < old(g).parents@[sid as int]@.len() && old(g).parents@[sid as int]@[k]
                    == gid;
        }
    }
}

/// Touching one vertex's parent list preserves the expansion bookkeeping,
/// when that vertex is the entry being resolved or a Group.
proof fn lemma_mid_preserved(
    g1: PropositionGraph,
    g2: PropositionGraph,
    agenda: Seq<usize>,
    done: int,
    touched: int,
)
    requires
        agenda_ok(g1, agenda),
        roots_shape(g1, agenda, done),
        0 <= done < agenda.len(),
        forall|j: int|
            done < j < agenda.len() ==> g1.parents@[(#[trigger] agenda[j]) as int]@.len() == 0,
        forall|j: int|
            0 <= j < done && g1.parents@[(#[trigger] agenda[j]) as int]@.len() == 0
                ==> g1.roots@.contains(agenda[j]),
        g1.parents@.len() == g1.nodes@.len(),
        g2.nodes@.len() >= g1.nodes@.len(),
        forall|i: int| 0 <= i < g1.nodes@.len() ==> g2.nodes@[i] == g1.nodes@[i],
        forall|i: int| g1.nodes@.len() <= i < g2.nodes@.len() ==> !g2.single(i),
        g2.roots@ == g1.roots@,
        g2.parents@.len() >= g1.parents@.len(),
        forall|i: int|
            0 <= i < g1.parents@.len() && i != touched ==> g2.parents@[i] == g1.parents@[i],
        touched == agenda[done] as int || (0 <= touched < g1.nodes@.len() && !g1.single(touched)),
    ensures
        agenda_ok(g2, agenda),
        roots_shape(g2, agenda, done),
        forall|j: int|
            done < j < agenda.len() ==> g2.parents@[(#[trigger] agenda[j]) as int]@.len() == 0,
        forall|j: int|
            0 <= j < done && g2.parents@[(#[trigger] agenda[j]) as int]@.len() == 0
                ==> g2.roots@.contains(agenda[j]),
{
    assert forall|i: int|
        0 <= i < g2.n() && g2.single(i) implies agenda.contains(i as usize) by {
        assert(i < g1.nodes@.len());
        assert(g1.single(i));
    }
    assert forall|j: int|
        0 <= j < agenda.len() implies (#[trigger] agenda[j]) < g2.nodes@.len() && g2.single(
        agenda[j] as int) by {
        assert(agenda[j] < g1.nodes@.len());
        assert(g1.single(agenda[j] as int));
    }
    assert(agenda_ok(g2, agenda));
    assert forall|r: int|
        0 <= r < g2.roots@.len() implies (#[trigger] g2.roots@[r]) < g2.nodes@.len() && g2.single(
        g2.roots@[r] as int) && g2.parents@[g2.roots@[r] as int]@.len() == 0
        && g2.nodes@[g2.roots@[r] as int]@->Single_0.function == existence_chars() by {
        assert(g1.roots@[r] == g2.roots@[r]);
        if touched == agenda[done] as int {
            let j = choose|j: int| 0 <= j < done && agenda[j] == g1.roots@[r];
            assert(agenda[j] != agenda[done]);
            assert(g2.roots@[r] as int != touched);
        } else {
            assert(g1.single(g1.roots@[r] as int));
            assert(g2.roots@[r] as int != touched);
        }
        assert(g2.parents@[g2.roots@[r] as int] == g1.parents@[g1.roots@[r] as int]);
    }
    assert forall|r: int|
        0 <= r < g2.roots@.len() implies exists|j: int|
            0 <= j < done && agenda[j] == (#[trigger] g2.roots@[r]) by {
        let j = choose|j: int| 0 <= j < done && agenda[j] == g1.roots@[r];
        assert(0 <= j < done && agenda[j] == g2.roots@[r]);
    }
    assert forall|r1: int, r2: int|
        0 <= r1 < r2 < g2.roots@.len() implies (#[trigger] g2.roots@[r1]) != (
    #[trigger] g2.roots@[r2]) by {
        assert(g2.roots@[r1] == g1.roots@[r1]);
        assert(g2.roots@[r2] == g1.roots@[r2]);
    }
    assert(forall|r: int|
        0 <= r < g2.roots@.len() ==> (#[trigger] g2.roots@[r]) < g2.nodes@.len());
    assert(forall|r: int|
        0 <= r < g2.roots@.len() ==> g2.single((#[trigger] g2.roots@[r]) as int)
            && g2.parents@[g2.roots@[r] as int]@.len() == 0
            && g2.nodes@[g2.roots@[r] as int]@->Single_0.function == existence_chars());
    assert(forall|r1: int, r2: int|
        0 <= r1 < r2 < g2.roots@.len() ==> (#[trigger] g2.roots@[r1]) != (
        #[trigger] g2.roots@[r2]));
    assert(roots_shape(g2, agenda, done));
    assert forall|j: int|
        done < j < agenda.len() implies g2.parents@[(#[trigger] agenda[j]) as int]@.len()
        == 0 by {
        if touched == agenda[done] as int {
            assert(agenda[j] != agenda[done]);
        } else {
            assert(g1.single(agenda[j] as int));
        }
        assert(g2.parents@[agenda[j] as int] == g1.parents@[agenda[j] as int]);
    }
    assert forall|j: int|
        0 <= j < done && g2.parents@[(#[trigger] agenda[j]) as int]@.len()
            == 0 implies g2.roots@.contains(agenda[j]) by {
        if touched == agenda[done] as int {
            assert(agenda[j] != agenda[done]);
            assert(g2.parents@[agenda[j] as int] == g1.parents@[agenda[j] as int]);
        } else {
            assert(g1.single(agenda[j] as int));
            assert(g2.parents@[agenda[j] as int] == g1.parents@[agenda[j] as int]);
        }
        assert(g1.roots@.contains(agenda[j]));
        let k = choose|k: int| 0 <= k < g1.roots@.len() && g1.roots@[k] == agenda[j];
        assert(g2.roots@[k] == agenda[j]);
    }
}

/// The expansion invariant while the entry at `done` is being resolved.
pub open spec fn building_mid(g: PropositionGraph, agenda: Seq<usize>, done: int) -> bool {
    &&& shaped(g)
    &&& forall|i: int|
        0 <= i < g.n() && !g.single(i) ==> (#[trigger] g.parents@[i]@).len() >= 1
    &&& agenda_ok(g, agenda)
    &&& roots_shape(g, agenda, done)
    &&& 0 <= done < agenda.len()
    &&& forall|j: int|
        done < j < agenda.len() ==> g.parents@[(#[trigger] agenda[j]) as int]@.len() == 0
    &&& forall|j: int|
        0 <= j < done && g.parents@[(#[trigger] agenda[j]) as int]@.len() == 0
            ==> g.roots@.contains(agenda[j])
}

/// Resolves one agenda entry: queries the implication store, wires every
/// ground factor in as a Group with its premise Singles, or records the
/// entry as a root when nothing concludes it.
#[verifier::loop_isolation(false)]
#[verifier::rlimit(100)]
pub fn initialize_visit_single(
    graph: &mut PropositionGraph,
    agenda: &mut Vec<usize>,
    predicate_graph: &PredicateGraph,
    done: usize,
) -> (res: Result<(), BeliefError>)
    requires
        building(*old(graph), old(agenda)@, done as int),
        (done as int) < old(agenda)@.len(),
    ensures
        res is Ok ==> building(*final(graph), final(agenda)@, done as int + 1),
        old(agenda)@.is_prefix_of(final(agenda)@),
        final(graph).nodes@.len() >= old(graph).nodes@.len(),
        forall|i: int|
            0 <= i < old(graph).nodes@.len() ==> final(graph).nodes@[i] == old(graph).nodes@[i],
        forall|i2: int|
            0 <= i2 < old(graph).nodes@.len() && old(graph).single(i2) && i2 != old(
                agenda,
            )@[done as int] as int ==> final(graph).parents@[i2] == old(graph).parents@[i2],
        crate::factors::spec_backward_factors(
            predicate_graph@,
            old(graph).nodes@[old(agenda)@[done as int] as int]@->Single_0,
        ) matches Err(e) ==> res == Err::<(), BeliefError>(e),
        (crate::factors::spec_backward_factors(
            predicate_graph@,
            old(graph).nodes@[old(agenda)@[done as int] as int]@->Single_0,
        ) matches Ok(fs) && fs.len() == 0) ==> (
        if old(graph).nodes@[old(agenda)@[done as int] as int]@->Single_0.function
            == existence_chars() {
            res is Ok && final(agenda)@ == old(agenda)@ && final(graph).nodes@ == old(
                graph,
            ).nodes@ && final(graph).parents@ == old(graph).parents@ && final(graph).children@
                == old(graph).children@
        } else {
            res == Err::<(), BeliefError>(BeliefError::UnresolvableProposition)
        }),
        res is Ok ==> entry_expanded(
            *final(graph),
            predicate_graph@,
            old(agenda)@[done as int] as int,
        ),
        res is Ok ==> forall|i2: int|
            0 <= i2 < old(graph).nodes@.len() && old(graph).single(i2) && i2 != old(
                agenda,
            )@[done as int] as int && (#[trigger] entry_expanded(
                *old(graph),
                predicate_graph@,
                i2,
            )) ==> entry_expanded(*final(graph), predicate_graph@, i2),
{
    let ghost a0 = old(agenda)@;
    let ghost g0 = *old(graph);
    let sid = agenda[done];
    proof {
        assert(agenda@[done as int] == sid);
        assert(graph.single(sid as int));
        assert(a0.is_prefix_of(agenda@));
    }
    let prop = graph.nodes[sid].extract_single();
    let factors = match predicate_graph.backward_factors(&prop) {
        Ok(f) => f,
        Err(e) => {
            proof {
                assert(crate::factors::spec_backward_factors(predicate_graph@, prop@)
                    == Err::<Seq<crate::factors::GroundFactorView>, BeliefError>(e));
            }
            return Err(e);
        },
    };
    let ghost fsv = factors@.map_values(|pf: PropositionInferenceFactor| pf@);
    proof {
        assert(crate::factors::spec_backward_factors(predicate_graph@, prop@) == Ok::<
            Seq<crate::factors::GroundFactorView>,
            BeliefError,
        >(fsv));
    }
    if factors.len() == 0 {
        if !is_existence(&prop) {
            return Err(BeliefError::UnresolvableProposition);
        }
        let ghost r0 = graph.roots@;
        proof {
            assert forall|r: int| 0 <= r < r0.len() implies (#[trigger] r0[r]) != sid by {
                let j = choose|j: int| 0 <= j < done && agenda@[j] == r0[r];
                assert(agenda@[j] != agenda@[done as int]);
            }
            assert(graph.parents@[sid as int]@.len() == 0);
        }
        graph.roots.push(sid);
        proof {
            let gn = *graph;
            assert(gn.roots@ == r0.push(sid));
            assert(gn.roots@[gn.roots@.len() - 1] == sid);
            assert(gn.roots@.contains(sid));
            assert(shaped(gn));
            assert(gn.nodes@ == g0.nodes@);
            assert forall|i: int|
                0 <= i < gn.n() && gn.single(i) implies agenda@.contains(i as usize) by {
                assert(g0.single(i));
            }
            assert(agenda_ok(gn, agenda@));
            assert forall|r: int|
                0 <= r < gn.roots@.len() implies (#[trigger] gn.roots@[r]) < gn.nodes@.len()
                    && gn.single(gn.roots@[r] as int) && gn.parents@[gn.roots@[r] as int]@.len()
                    == 0 && gn.nodes@[gn.roots@[r] as int]@->Single_0.function
                    == existence_chars() by {
                if r < gn.roots@.len() - 1 {
                    assert(gn.roots@[r] == r0[r]);
                } else {
                    assert(gn.roots@[r] == sid);
                }
            }
            assert forall|r1: int, r2: int|
                0 <= r1 < r2 < gn.roots@.len() implies (#[trigger] gn.roots@[r1]) != (
            #[trigger] gn.roots@[r2]) by {
                if r2 == gn.roots@.len() - 1 {
                    assert(gn.roots@[r1] == r0[r1]);
                    assert(r0[r1] != sid);
                } else {
                    assert(gn.roots@[r1] == r0[r1]);
                    assert(gn.roots@[r2] == r0[r2]);
                }
            }
            assert forall|r: int|
                0 <= r < gn.roots@.len() implies resolved_in(
                (#[trigger] gn.roots@[r]),
                agenda@,
                done as int + 1,
            ) by {
                if r < gn.roots@.len() - 1 {
                    assert(gn.roots@[r] == r0[r]);
                    assert(resolved_in(r0[r], agenda@, done as int));
                    let j = choose|j: int| 0 <= j < done && agenda@[j] == r0[r];
                    assert(0 <= j < done as int + 1 && agenda@[j] == gn.roots@[r]);
                } else {
                    assert(agenda@[done as int] == gn.roots@[r]);
                }
            }
            assert(roots_shape(gn, agenda@, done as int + 1));
            assert forall|j: int|
                0 <= j < done as int + 1 && gn.parents@[(#[trigger] agenda@[j]) as int]@.len()
                    == 0 implies gn.roots@.contains(agenda@[j]) by {
                if j < done {
                    assert(r0.contains(agenda@[j]));
                    let k = choose|k: int| 0 <= k < r0.len() && r0[k] == agenda@[j];
                    assert(gn.roots@[k] == agenda@[j]);
                }
            }
            assert(building(gn, agenda@, done as int + 1));
            // an unconcluded existence fact is fully expanded: the
            // enumeration is empty and it holds no parents
            assert(fsv =~= Seq::<crate::factors::GroundFactorView>::empty());
            assert(gn.nodes@[sid as int]@->Single_0 == prop@);
            assert(gn.parents@[sid as int]@.len() == 0);
            assert(entry_expanded(gn, predicate_graph@, sid as int));
            assert forall|i2: int|
                0 <= i2 < g0.nodes@.len() && g0.single(i2) && i2 != sid as int && (
            #[trigger] entry_expanded(g0, predicate_graph@, i2)) implies entry_expanded(
                gn,
                predicate_graph@,
                i2,
            ) by {
                lemma_links_preserved(g0, gn, predicate_graph@, i2);
            }
        }
        return Ok(());
    }
    let mut fi: usize = 0;
    while fi < factors.len()
        invariant
            building_mid(*graph, agenda@, done as int),
            a0.is_prefix_of(agenda@),
            sid == agenda@[done as int],
            sid < graph.nodes@.len(),
            graph.single(sid as int),
            fi <= factors@.len(),
            fi >= 1 ==> graph.parents@[sid as int]@.len() >= 1,
            graph.nodes@.len() >= g0.nodes@.len(),
            forall|i: int| 0 <= i < g0.nodes@.len() ==> graph.nodes@[i] == g0.nodes@[i],
            graph.roots@ == g0.roots@,
            fsv == factors@.map_values(|pf: PropositionInferenceFactor| pf@),
            fsv.len() == factors@.len(),
            forall|i2: int|
                0 <= i2 < g0.nodes@.len() && g0.single(i2) && i2 != sid as int
                    ==> graph.parents@[i2] == g0.parents@[i2],
            forall|f: int|
                0 <= f < fi ==> premise_linked(*graph, sid as int, (#[trigger] fsv[f]).premise),
            forall|k: int|
                0 <= k < graph.parents@[sid as int]@.len() ==> #[trigger] slot_grounded(
                    *graph,
                    sid as int,
                    fsv,
                    k,
                ),
        decreases factors@.len() - fi,
    {
        match graph.find_group(&factors[fi].premise) {
            Some(gid) => {
                proof {
                    assert(!graph.single(gid as int));
                    assert(graph.children@[gid as int]@.len() == 1);
                }
                let conclusion = graph.children[gid][0];
                if conclusion != sid {
                    return Err(BeliefError::UnresolvableProposition);
                }
                proof {
                    assert(graph.children@[gid as int]@[0] == sid);
                    assert(graph.children@[gid as int]@.contains(sid));
                }
                let ghost lpre = *graph;
                link_group_to_single(graph, gid, sid);
                proof {
                    lemma_mid_preserved(lpre, *graph, agenda@, done as int, sid as int);
                    assert(lpre.parents@[sid as int]@.is_prefix_of(
                        graph.parents@[sid as int]@,
                    )) by {
                        if !lpre.parents@[sid as int]@.contains(gid) {
                            assert(lpre.parents@[sid as int]@ =~= graph.parents@[sid as int]@.subrange(
                                0,
                                lpre.parents@[sid as int]@.len() as int,
                            ));
                        } else {
                            assert(lpre.parents@[sid as int]@ =~= graph.parents@[sid as int]@.subrange(
                                0,
                                lpre.parents@[sid as int]@.len() as int,
                            ));
                        }
                    }
                    lemma_factor_links_preserved(lpre, *graph, sid as int, fsv, fi as int);
                    assert(same_terms(
                        graph.nodes@[gid as int]@->Group_0,
                        fsv[fi as int].premise,
                    ));
                    assert(graph.parents@[sid as int]@.contains(gid));
                    let kk = choose|kk: int|
                        0 <= kk < graph.parents@[sid as int]@.len()
                            && graph.parents@[sid as int]@[kk] == gid;
                    assert(premise_linked(*graph, sid as int, fsv[fi as int].premise));
                    assert forall|k: int|
                        0 <= k < graph.parents@[sid as int]@.len() implies #[trigger] slot_grounded(
                        *graph,
                        sid as int,
                        fsv,
                        k,
                    ) by {
                        if k >= lpre.parents@[sid as int]@.len() {
                            assert(graph.parents@[sid as int]@[k] == gid);
                            assert(same_terms(
                                graph.nodes@[graph.parents@[sid as int]@[k] as int]@->Group_0,
                                fsv[fi as int].premise,
                            ));
                        }
                    }
                }
            },
            None => {
                if factors[fi].premise.terms.len() == 0 {
                    return Err(BeliefError::InconsistentRoleMap);
                }
                if graph.nodes.len() == usize::MAX {
                    return Err(BeliefError::UnresolvableProposition);
                }
                let ghost gpre = *graph;
                let gid = add_group_node(
                    graph,
                    sid,
                    &factors[fi].premise,
                    factors[fi].inference.clone(),
                );
                proof {
                    assert(graph.parents@[sid as int]@[graph.parents@[sid as int]@.len() - 1]
                        == gid);
                    lemma_mid_preserved(gpre, *graph, agenda@, done as int, sid as int);
                    assert(gpre.parents@[sid as int]@.is_prefix_of(
                        graph.parents@[sid as int]@,
                    )) by {
                        assert(gpre.parents@[sid as int]@ =~= graph.parents@[sid as int]@.subrange(
                            0,
                            gpre.parents@[sid as int]@.len() as int,
                        ));
                    }
                    lemma_factor_links_preserved(gpre, *graph, sid as int, fsv, fi as int);
                    assert(graph.nodes@[gid as int]@ == NodeView::Group(
                        factors@[fi as int].premise@,
                    ));
                    assert(same_terms(
                        graph.nodes@[gid as int]@->Group_0,
                        fsv[fi as int].premise,
                    ));
                    assert(premise_linked(*graph, sid as int, fsv[fi as int].premise));
                    assert forall|k: int|
                        0 <= k < graph.parents@[sid as int]@.len() implies #[trigger] slot_grounded(
                        *graph,
                        sid as int,
                        fsv,
                        k,
                    ) by {
                        if k >= gpre.parents@[sid as int]@.len() {
                            assert(graph.parents@[sid as int]@[k] == gid);
                        }
                    }
                }
                let terms = &factors[fi].premise.terms;
                let mut ti: usize = 0;
                while ti < terms.len()
                    invariant
                        shaped(*graph),
                        terms@.len() >= 1,
                        forall|i: int|
                            0 <= i < graph.n() && !graph.single(i) && i != gid ==> (
                            #[trigger] graph.parents@[i]@).len() >= 1,
                        ti >= 1 ==> graph.parents@[gid as int]@.len() >= 1,
                        agenda_ok(*graph, agenda@),
                        roots_shape(*graph, agenda@, done as int),
                        0 <= done < agenda@.len(),
                        forall|j: int|
                            done < j < agenda@.len() ==> graph.parents@[(
                            #[trigger] agenda@[j]) as int]@.len() == 0,
                        forall|j: int|
                            0 <= j < done && graph.parents@[(#[trigger] agenda@[j]) as int]@.len()
                                == 0 ==> graph.roots@.contains(agenda@[j]),
                        a0.is_prefix_of(agenda@),
                        sid == agenda@[done as int],
                        sid < graph.nodes@.len(),
                        graph.single(sid as int),
                        gid < graph.nodes@.len(),
                        !graph.single(gid as int),
                        graph.parents@[sid as int]@.len() >= 1,
                        ti <= terms@.len(),
                        graph.nodes@.len() >= g0.nodes@.len(),
                        forall|i: int|
                            0 <= i < g0.nodes@.len() ==> graph.nodes@[i] == g0.nodes@[i],
                        graph.roots@ == g0.roots@,
                        forall|i2: int|
                            0 <= i2 < g0.nodes@.len() && g0.single(i2) && i2 != sid as int
                                ==> graph.parents@[i2] == g0.parents@[i2],
                        forall|f: int|
                            0 <= f < fi + 1 ==> premise_linked(
                                *graph,
                                sid as int,
                                (#[trigger] fsv[f]).premise,
                            ),
                        forall|k: int|
                            0 <= k < graph.parents@[sid as int]@.len() ==> #[trigger] slot_grounded(
                                *graph,
                                sid as int,
                                fsv,
                                k,
                            ),
                    decreases terms@.len() - ti,
                {
                    let ghost istart = *graph;
                    let tid = match graph.find_single(&terms[ti]) {
                        Some(tid) => tid,
                        None => {
                            if graph.nodes.len() == usize::MAX {
                                return Err(BeliefError::UnresolvableProposition);
                            }
                            let ghost aprev = agenda@;
                            let ghost tpre = *graph;
                            let tid = add_single_node(graph, &terms[ti]);
                            agenda.push(tid);
                            proof {
                                let an = agenda@;
                                assert(an == aprev.push(tid));
                                assert(an[an.len() - 1] == tid);
                                assert forall|i: int|
                                    0 <= i < graph.n() && graph.single(i) implies an.contains(
                                    i as usize,
                                ) by {
                                    if i < graph.n() - 1 {
                                        assert(graph.nodes@[i] == tpre.nodes@[i]);
                                        assert(tpre.single(i));
                                        assert(aprev.contains(i as usize));
                                        let j = choose|j: int|
                                            0 <= j < aprev.len() && aprev[j] == i as usize;
                                        assert(an[j] == i as usize);
                                    } else {
                                        assert(an[an.len() - 1] == i as usize);
                                    }
                                }
                                assert forall|j: int|
                                    0 <= j < an.len() implies (#[trigger] an[j])
                                        < graph.nodes@.len() && graph.single(an[j] as int) by {
                                    if j < an.len() - 1 {
                                        assert(an[j] == aprev[j]);
                                    }
                                }
                                assert forall|j1: int, j2: int|
                                    0 <= j1 < j2 < an.len() implies (#[trigger] an[j1]) != (
                                #[trigger] an[j2]) by {
                                    if j2 == an.len() - 1 {
                                        assert(an[j1] == aprev[j1]);
                                        assert(aprev[j1] < tid);
                                    } else {
                                        assert(an[j1] == aprev[j1]);
                                        assert(an[j2] == aprev[j2]);
                                    }
                                }
                                assert(a0.is_prefix_of(aprev));
                                assert(a0 =~= an.subrange(0, a0.len() as int));
                                assert(a0.is_prefix_of(an));
                                assert forall|j: int|
                                    done < j < an.len() implies graph.parents@[(
                                #[trigger] an[j]) as int]@.len() == 0 by {
                                    if j < an.len() - 1 {
                                        assert(an[j] == aprev[j]);
                                    }
                                }
                                assert(an[done as int] == aprev[done as int]);
                                assert forall|r: int|
                                    0 <= r < graph.roots@.len() implies (
                                #[trigger] graph.roots@[r]) < graph.nodes@.len() && graph.single(
                                    graph.roots@[r] as int,
                                ) && graph.parents@[graph.roots@[r] as int]@.len() == 0
                                    && graph.nodes@[graph.roots@[r] as int]@->Single_0.function
                                    == existence_chars() by {
                                    assert(graph.roots@[r] == tpre.roots@[r]);
                                    assert(graph.roots@[r] < tpre.nodes@.len());
                                    assert(graph.nodes@[graph.roots@[r] as int] == tpre.nodes@[tpre.roots@[r] as int]);
                                    assert(graph.parents@[graph.roots@[r] as int]
                                        == tpre.parents@[tpre.roots@[r] as int]);
                                }
                                lemma_roots_resolved_extend(
                                    graph.roots@,
                                    aprev,
                                    an,
                                    done as int,
                                );
                                assert forall|r1: int, r2: int|
                                    0 <= r1 < r2 < graph.roots@.len() implies (
                                #[trigger] graph.roots@[r1]) != (#[trigger] graph.roots@[r2]) by {
                                    assert(graph.roots@[r1] == tpre.roots@[r1]);
                                    assert(graph.roots@[r2] == tpre.roots@[r2]);
                                }
                                assert(roots_shape(*graph, an, done as int));
                                assert forall|j: int|
                                    0 <= j < done && graph.parents@[(
                                #[trigger] an[j]) as int]@.len() == 0 implies graph.roots@.contains(
                                    an[j],
                                ) by {
                                    assert(an[j] == aprev[j]);
                                    assert(graph.parents@[an[j] as int] == tpre.parents@[aprev[j] as int]);
                                }
                            }
                            tid
                        },
                    };
                    proof {
                        assert(graph.single(tid as int));
                    }
                    let ghost lpre = *graph;
                    link_single_to_group(graph, tid, gid);
                    proof {
                        lemma_mid_preserved(lpre, *graph, agenda@, done as int, gid as int);
                        assert(graph.parents@[sid as int] == istart.parents@[sid as int]);
                        assert(istart.parents@[sid as int]@.is_prefix_of(
                            graph.parents@[sid as int]@,
                        )) by {
                            assert(istart.parents@[sid as int]@ =~= graph.parents@[sid as int]@.subrange(
                                0,
                                istart.parents@[sid as int]@.len() as int,
                            ));
                        }
                        lemma_factor_links_preserved(
                            istart,
                            *graph,
                            sid as int,
                            fsv,
                            fi as int + 1,
                        );
                    }
                    ti += 1;
                }
            },
        }
        fi += 1;
    }
    proof {
        assert(graph.parents@[sid as int]@.len() >= 1);
        assert(graph.nodes@[sid as int]@->Single_0 == prop@);
        assert(entry_expanded(*graph, predicate_graph@, sid as int));
        assert forall|i2: int|
            0 <= i2 < g0.nodes@.len() && g0.single(i2) && i2 != sid as int && (
        #[trigger] entry_expanded(g0, predicate_graph@, i2)) implies entry_expanded(
            *graph,
            predicate_graph@,
            i2,
        ) by {
            lemma_links_preserved(g0, *graph, predicate_graph@, i2);
        }
    }
    Ok(())
}

/// How many agenda entries one expansion may resolve.
pub const EXPANSION_LIMIT: usize = 1000000;

impl PropositionGraph {
    /// Expands the proposition graph backward from a target proposition.
    ///
    /// Fails when expansion reaches a non-existence Single that nothing
    /// concludes, when a premise group would conclude two different
    /// Singles, when a role map will not ground a premise, or when the
    /// expansion outgrows the machine.
    #[verifier::loop_isolation(false)]
    pub fn new_shared(predicate_graph: &PredicateGraph, target: &Proposition) -> (res: Result<
        PropositionGraph,
        BeliefError,
    >)
        ensures
            res matches Ok(g) ==> g.wf() && g.target == 0 && g.nodes@[0]@ == NodeView::Single(
                target@,
            ),
            res matches Ok(g) ==> expansion_ok(g, predicate_graph@),
            lone_existence_target(predicate_graph@, target@) ==> res is Ok,
            lone_existence_target(predicate_graph@, target@) ==> (res matches Ok(g)
                && g.nodes@.len() == 1 && g.roots@ =~= seq![0usize] && g.children@[0]@.len()
                == 0),
    {
        let mut nodes: Vec<PropositionNode> = Vec::new();
        nodes.push(PropositionNode::from_single(target));
        let mut parents: Vec<Vec<usize>> = Vec::new();
        parents.push(Vec::new());
        let mut children: Vec<Vec<usize>> = Vec::new();
        children.push(Vec::new());
        let mut inferences: Vec<Option<PredicateInferenceFactor>> = Vec::new();
        inferences.push(None);
        let mut graph = PropositionGraph {
            nodes,
            parents,
            children,
            inferences,
            roots: Vec::new(),
            target: 0,
        };
        let mut agenda: Vec<usize> = Vec::new();
        agenda.push(0);
        proof {
            assert(agenda@[0] == 0usize);
            assert(agenda@.contains(0usize));
            assert(building(graph, agenda@, 0));
        }
        let mut done: usize = 0;
        while done < agenda.len()
            invariant
                building(graph, agenda@, done as int),
                graph.nodes@[0]@ == NodeView::Single(target@),
                done <= agenda@.len(),
                done <= EXPANSION_LIMIT,
                forall|j: int|
                    0 <= j < done ==> #[trigger] entry_expanded(
                        graph,
                        predicate_graph@,
                        agenda@[j] as int,
                    ),
                lone_existence_target(predicate_graph@, target@) ==> agenda@.len() == 1
                    && graph.nodes@.len() == 1 && graph.parents@[0]@.len() == 0
                    && graph.children@[0]@.len() == 0,
            decreases EXPANSION_LIMIT - done,
        {
            if done == EXPANSION_LIMIT {
                return Err(BeliefError::UnresolvableProposition);
            }
            let ghost vpre = graph;
            let ghost apre = agenda@;
            proof {
                if lone_existence_target(predicate_graph@, target@) {
                    assert(agenda@[done as int] == 0usize);
                    assert(graph.nodes@[0]@->Single_0 == target@);
                }
            }
            match initialize_visit_single(&mut graph, &mut agenda, predicate_graph, done) {
                Ok(()) => {},
                Err(e) => {
                    proof {
                        if lone_existence_target(predicate_graph@, target@) {
                            assert(vpre.nodes@[apre[done as int] as int]@->Single_0 == target@);
                            assert(false);
                        }
                    }
                    return Err(e);
                },
            }
            proof {
                assert forall|j: int|
                    0 <= j < done + 1 implies #[trigger] entry_expanded(
                    graph,
                    predicate_graph@,
                    agenda@[j] as int,
                ) by {
                    assert(agenda@[j] == apre[j]);
                    if j < done {
                        assert(apre[j] != apre[done as int]);
                        assert(entry_expanded(vpre, predicate_graph@, apre[j] as int));
                        assert(vpre.single(apre[j] as int));
                    }
                }
            }
            done += 1;
        }
        proof {
            lemma_building_wf(graph, agenda@);
            assert forall|i: int|
                0 <= i < graph.n() && graph.single(i) implies #[trigger] entry_expanded(
                graph,
                predicate_graph@,
                i,
            ) by {
                assert(agenda@.contains(i as usize));
                let j = choose|j: int|
                    0 <= j < agenda@.len() && agenda@[j] == i as usize;
                assert(entry_expanded(graph, predicate_graph@, agenda@[j] as int));
            }
            assert(expansion_ok(graph, predicate_graph@));
            if lone_existence_target(predicate_graph@, target@) {
                assert(graph.roots@ =~= seq![0usize]) by {
                    assert(graph.single(0) && graph.parents@[0]@.len() == 0);
                    assert(graph.roots@.contains(0usize));
                    let r = choose|r: int|
                        0 <= r < graph.roots@.len() && graph.roots@[r] == 0usize;
                    assert forall|r2: int|
                        0 <= r2 < graph.roots@.len() implies graph.roots@[r2] == 0usize by {
                        assert(graph.roots@[r2] < graph.nodes@.len());
                    }
                    if graph.roots@.len() > 1 {
                        assert(graph.roots@[0] != graph.roots@[1]);
                        assert(false);
                    }
                }
            }
        }
        Ok(graph)
    }
}

/// Builds the proposition graph for a target; the one structure holds the
/// forward adjacency.
pub fn compute_forward_graph(predicate_graph: &PredicateGraph, proposition: &Proposition) -> (res:
    Result<PropositionGraph, BeliefError>)
    ensures
        res matches Ok(g) ==> g.wf() && g.target == 0 && g.nodes@[0]@ == NodeView::Single(
            proposition@,
        ),
        res matches Ok(g) ==> expansion_ok(g, predicate_graph@),
{
    PropositionGraph::new_shared(predicate_graph, proposition)
}

/// Builds the proposition graph for a target; the one structure holds the
/// backward adjacency.
pub fn compute_backward_graph(predicate_graph: &PredicateGraph, proposition: &Proposition) -> (res:
    Result<PropositionGraph, BeliefError>)
    ensures
        res matches Ok(g) ==> g.wf() && g.target == 0 && g.nodes@[0]@ == NodeView::Single(
            proposition@,
        ),
        res matches Ok(g) ==> expansion_ok(g, predicate_graph@),
{
    PropositionGraph::new_shared(predicate_graph, proposition)
}


/// A valid propagation order: every vertex exactly once, and every edge
/// pointing forward.
pub open spec fn order_ok(g: PropositionGraph, o: Seq<usize>) -> bool {
    &&& o.len() == g.n()
    &&& forall|i: int| 0 <= i < o.len() ==> (#[trigger] o[i]) < g.nodes@.len()
    &&& forall|i1: int, i2: int| 0 <= i1 < i2 < o.len() ==> o[i1] != o[i2]
    &&& forall|x: int| 0 <= x < g.n() ==> #[trigger] o.contains(x as usize)
    &&& forall|i1: int, i2: int|
        0 <= i1 < o.len() && 0 <= i2 < o.len() && g.edge(o[i1] as int, o[i2] as int) ==> i1 < i2
}

/// Decides `order_ok` for a candidate order.
#[verifier::loop_isolation(false)]
pub fn check_order(g: &PropositionGraph, o: &Vec<usize>) -> (r: bool)
    requires
        g.wf(),
    ensures
        r == order_ok(*g, o@),
{
    let n = g.nodes.len();
    if o.len() != n {
        return false;
    }
    let mut pos: Vec<usize> = Vec::new();
    let mut seen: Vec<bool> = Vec::new();
    let mut x: usize = 0;
    while x < n
        invariant
            pos@.len() == x,
            seen@.len() == x,
            x <= n,
            forall|y: int| 0 <= y < x ==> !seen@[y],
        decreases n - x,
    {
        pos.push(0);
        seen.push(false);
        x += 1;
    }
    let mut i: usize = 0;
    while i < o.len()
        invariant
            pos@.len() == n,
            seen@.len() == n,
            i <= o@.len(),
            forall|j: int| 0 <= j < i ==> (#[trigger] o@[j]) < n,
            forall|j1: int, j2: int| 0 <= j1 < j2 < i ==> o@[j1] != o@[j2],
            forall|y: int|
                0 <= y < n ==> (seen@[y] == exists|j: int| 0 <= j < i && o@[j] == y as usize),
            forall|j: int| 0 <= j < i ==> pos@[(#[trigger] o@[j]) as int] == j,
        decreases o@.len() - i,
    {
        let v = o[i];
        if v >= n {
            proof {
                assert(!(o@[i as int] < g.nodes@.len()));
            }
            return false;
        }
        if seen[v] {
            proof {
                let j = choose|j: int| 0 <= j < i && o@[j] == v;
                assert(o@[j] == o@[i as int]);
            }
            return false;
        }
        pos.set(v, i);
        seen.set(v, true);
        proof {
            assert forall|y: int|
                0 <= y < n implies (seen@[y] == exists|j: int|
                0 <= j < i + 1 && o@[j] == y as usize) by {
                if y == v as int {
                    assert(o@[i as int] == y as usize);
                } else {
                    if exists|j: int| 0 <= j < i + 1 && o@[j] == y as usize {
                        let j = choose|j: int| 0 <= j < i + 1 && o@[j] == y as usize;
                        assert(j < i || o@[i as int] == y as usize);
                    }
                }
            }
        }
        i += 1;
    }
    let mut x: usize = 0;
    while x < n
        invariant
            x <= n,
            forall|y: usize| y < x ==> #[trigger] o@.contains(y),
        decreases n - x,
    {
        if !seen[x] {
            proof {
                assert(forall|j: int| 0 <= j < o@.len() ==> o@[j] != x);
                assert(!o@.contains(x));
                assert(0 <= x < g.n());
                assert(x as int as usize == x);
                assert(!order_ok(*g, o@));
            }
            return false;
        }
        proof {
            let j = choose|j: int| 0 <= j < o@.len() && o@[j] == x;
            assert(o@.contains(x));
        }
        x += 1;
    }
    let mut u: usize = 0;
    while u < n
        invariant
            u <= n,
            pos@.len() == n,
            forall|j: int| 0 <= j < o@.len() ==> (#[trigger] o@[j]) < n,
            forall|j: int| 0 <= j < o@.len() ==> pos@[(#[trigger] o@[j]) as int] == j,
            forall|y: usize| y < n ==> #[trigger] o@.contains(y),
            forall|j1: int, j2: int| 0 <= j1 < j2 < o@.len() ==> o@[j1] != o@[j2],
            forall|i1: int, i2: int|
                0 <= i1 < o@.len() && 0 <= i2 < o@.len() && o@[i1] < u && g.edge(
                    o@[i1] as int,
                    o@[i2] as int,
                ) ==> i1 < i2,
        decreases n - u,
    {
        let row = &g.children[u];
        let mut k: usize = 0;
        while k < row.len()
            invariant
                u < n,
                k <= row@.len(),
                row == &g.children[u as int],
                pos@.len() == n,
                forall|j: int| 0 <= j < o@.len() ==> (#[trigger] o@[j]) < n,
                forall|j: int| 0 <= j < o@.len() ==> pos@[(#[trigger] o@[j]) as int] == j,
                forall|y: usize| y < n ==> #[trigger] o@.contains(y),
                forall|j1: int, j2: int| 0 <= j1 < j2 < o@.len() ==> o@[j1] != o@[j2],
                forall|i1: int, i2: int|
                    0 <= i1 < o@.len() && 0 <= i2 < o@.len() && o@[i1] == u && g.children@[u as int]@.take(
                        k as int,
                    ).contains(o@[i2]) ==> i1 < i2,
            decreases row@.len() - k,
        {
            let v = row[k];
            proof {
                assert(g.children@[u as int]@[k as int] == v);
                assert(v < n);
            }
            let ghost iu = choose|j: int| 0 <= j < o@.len() && o@[j] == u as usize;
            let ghost iv = choose|j: int| 0 <= j < o@.len() && o@[j] == v;
            proof {
                assert(o@.contains(u as usize));
                assert(o@.contains(v));
                assert(pos@[u as int] == iu);
                assert(pos@[v as int] == iv);
            }
            if pos[u] >= pos[v] {
                proof {
                    assert(g.children@[u as int]@.contains(v));
                    assert(g.edge(o@[iu] as int, o@[iv] as int));
                    assert(iu >= iv);
                    assert(!(iu < iv));
                    assert(!order_ok(*g, o@));
                }
                return false;
            }
            proof {
                assert forall|i1: int, i2: int|
                    0 <= i1 < o@.len() && 0 <= i2 < o@.len() && o@[i1] == u
                        && g.children@[u as int]@.take(k as int + 1).contains(
                        o@[i2],
                    ) implies i1 < i2 by {
                    if o@[i2] == v {
                        assert(pos@[o@[i1] as int] == i1);
                        assert(i1 == iu && i2 == iv);
                    } else {
                        assert(g.children@[u as int]@.take(k as int).contains(o@[i2])) by {
                            let kk = choose|kk: int|
                                0 <= kk < k + 1 && (#[trigger] g.children@[u as int]@.take(
                                    k as int + 1,
                                )[kk]) == o@[i2];
                            assert(g.children@[u as int]@.take(k as int)[kk] == o@[i2]);
                        }
                    }
                }
            }
            k += 1;
        }
        proof {
            assert forall|i1: int, i2: int|
                0 <= i1 < o@.len() && 0 <= i2 < o@.len() && o@[i1] < u + 1 && g.edge(
                    o@[i1] as int,
                    o@[i2] as int,
                ) implies i1 < i2 by {
                if o@[i1] == u {
                    assert(g.children@[u as int]@.contains(o@[i2]));
                    assert(g.children@[u as int]@.take(row@.len() as int) =~= g.children@[u as int]@);
                }
            }
        }
        u += 1;
    }
    proof {
        assert forall|i1: int, i2: int|
            0 <= i1 < o@.len() && 0 <= i2 < o@.len() && g.edge(
                o@[i1] as int,
                o@[i2] as int,
            ) implies i1 < i2 by {
            assert(o@[i1] < n);
        }
        assert forall|y: int| 0 <= y < g.n() implies #[trigger] o@.contains(y as usize) by {
            assert(o@.contains((y as usize)));
        }
    }
    true
}

/// The position of the last occurrence of `x` in `s`, or a negative
/// sentinel when `x` does not occur.
pub open spec fn last_occurrence(s: Seq<usize>, x: usize) -> int
    decreases s.len(),
{
    if s.len() == 0 {
        -1
    } else if s[s.len() - 1] == x {
        s.len() - 1
    } else {
        last_occurrence(s.drop_last(), x)
    }
}

/// The last occurrence of a contained element is a genuine occurrence,
/// and nothing equal follows it.
pub proof fn lemma_last_occurrence(s: Seq<usize>, x: usize)
    requires
        s.contains(x),
    ensures
        0 <= last_occurrence(s, x) < s.len(),
        s[last_occurrence(s, x)] == x,
        forall|j: int| last_occurrence(s, x) < j < s.len() ==> s[j] != x,
    decreases s.len(),
{
    if s[s.len() - 1] == x {
    } else {
        let w = choose|w: int| 0 <= w < s.len() && s[w] == x;
        assert(s.drop_last()[w] == x);
        assert(s.drop_last().contains(x));
        lemma_last_occurrence(s.drop_last(), x);
        assert forall|j: int| last_occurrence(s, x) < j < s.len() implies s[j] != x by {
            if j < s.len() - 1 {
                assert(s.drop_last()[j] == s[j]);
            }
        }
    }
}

/// An occurrence with nothing equal after it is the last occurrence.
pub proof fn lemma_last_occurrence_at(s: Seq<usize>, x: usize, i: int)
    requires
        0 <= i < s.len(),
        s[i] == x,
        forall|j: int| i < j < s.len() ==> s[j] != x,
    ensures
        last_occurrence(s, x) == i,
    decreases s.len(),
{
    if i == s.len() - 1 {
    } else {
        assert(s.drop_last()[i] == s[i]);
        lemma_last_occurrence_at(s.drop_last(), x, i);
    }
}

/// Keeps the deepest occurrence of every entry of a visit log: walks it
/// backward, emits first sightings, and then reads back forward.
#[verifier::loop_isolation(false)]
pub fn reverse_prune_duplicates(raw_order: &Vec<usize>, n: usize) -> (r: Vec<usize>)
    requires
        forall|j: int| 0 <= j < raw_order@.len() ==> (#[trigger] raw_order@[j]) < n,
    ensures
        forall|j: int| 0 <= j < r@.len() ==> (#[trigger] r@[j]) < n,
        forall|j1: int, j2: int| 0 <= j1 < j2 < r@.len() ==> r@[j1] != r@[j2],
        forall|x: usize| r@.contains(x) == raw_order@.contains(x),
        forall|j1: int, j2: int|
            0 <= j1 < j2 < r@.len() ==> last_occurrence(raw_order@, #[trigger] r@[j1])
                < last_occurrence(raw_order@, #[trigger] r@[j2]),
{
    let mut seen: Vec<bool> = Vec::new();
    let mut x: usize = 0;
    while x < n
        invariant
            seen@.len() == x,
            x <= n,
            forall|y: int| 0 <= y < x ==> !seen@[y],
        decreases n - x,
    {
        seen.push(false);
        x += 1;
    }
    let mut picked: Vec<usize> = Vec::new();
    let mut i: usize = raw_order.len();
    while i > 0
        invariant
            i <= raw_order@.len(),
            seen@.len() == n,
            forall|j: int| 0 <= j < picked@.len() ==> (#[trigger] picked@[j]) < n,
            forall|j1: int, j2: int| 0 <= j1 < j2 < picked@.len() ==> picked@[j1] != picked@[j2],
            forall|y: int|
                0 <= y < n ==> (seen@[y] == picked@.contains(y as usize)),
            forall|x2: usize| picked@.contains(x2) ==> raw_order@.contains(x2),
            forall|j: int|
                i <= j < raw_order@.len() ==> picked@.contains(#[trigger] raw_order@[j]),
            forall|j: int|
                0 <= j < picked@.len() ==> last_occurrence(raw_order@, #[trigger] picked@[j])
                    >= i,
            forall|j1: int, j2: int|
                0 <= j1 < j2 < picked@.len() ==> last_occurrence(
                    raw_order@,
                    #[trigger] picked@[j1],
                ) > last_occurrence(raw_order@, #[trigger] picked@[j2]),
        decreases i,
    {
        i -= 1;
        let v = raw_order[i];
        if !seen[v] {
            let ghost p0 = picked@;
            picked.push(v);
            seen.set(v, true);
            proof {
                assert(!p0.contains(v));
                assert forall|j: int| (i as int) < j < raw_order@.len() implies raw_order@[j]
                    != v by {
                    assert(p0.contains(raw_order@[j]));
                }
                lemma_last_occurrence_at(raw_order@, v, i as int);
                assert forall|j: int|
                    0 <= j < picked@.len() implies last_occurrence(
                    raw_order@,
                    #[trigger] picked@[j],
                ) >= i as int by {
                    if j < picked@.len() - 1 {
                        assert(picked@[j] == p0[j]);
                        assert(last_occurrence(raw_order@, p0[j]) >= i + 1);
                    }
                }
                assert forall|j1: int, j2: int|
                    0 <= j1 < j2 < picked@.len() implies last_occurrence(
                    raw_order@,
                    #[trigger] picked@[j1],
                ) > last_occurrence(raw_order@, #[trigger] picked@[j2]) by {
                    if j2 == picked@.len() - 1 {
                        assert(picked@[j1] == p0[j1]);
                        assert(last_occurrence(raw_order@, p0[j1]) >= i + 1);
                    } else {
                        assert(picked@[j1] == p0[j1] && picked@[j2] == p0[j2]);
                    }
                }
                assert(picked@[picked@.len() - 1] == v);
                assert(picked@.contains(v));
                assert(raw_order@.contains(v));
                assert forall|y: int|
                    0 <= y < n implies (seen@[y] == picked@.contains(y as usize)) by {
                    if y != v as int {
                        if picked@.contains(y as usize) {
                            let j = choose|j: int|
                                0 <= j < picked@.len() && picked@[j] == y as usize;
                            assert(j < picked@.len() - 1);
                            assert(p0[j] == y as usize);
                        }
                        if p0.contains(y as usize) {
                            let j = choose|j: int| 0 <= j < p0.len() && p0[j] == y as usize;
                            assert(picked@[j] == y as usize);
                        }
                    }
                }
                assert forall|j1: int, j2: int|
                    0 <= j1 < j2 < picked@.len() implies picked@[j1] != picked@[j2] by {
                    if j2 == picked@.len() - 1 {
                        assert(!p0.contains(v));
                        assert(picked@[j1] == p0[j1]);
                    }
                }
                assert forall|x2: usize| picked@.contains(x2) implies raw_order@.contains(
                    x2,
                ) by {
                    let j = choose|j: int| 0 <= j < picked@.len() && picked@[j] == x2;
                    if j < picked@.len() - 1 {
                        assert(p0[j] == x2);
                        assert(p0.contains(x2));
                    } else {
                        assert(x2 == v);
                    }
                }
                assert forall|j: int|
                    i <= j < raw_order@.len() implies picked@.contains(
                    #[trigger] raw_order@[j]) by {
                    if j > i {
                        assert(p0.contains(raw_order@[j]));
                        let jj = choose|jj: int| 0 <= jj < p0.len() && p0[jj] == raw_order@[j];
                        assert(picked@[jj] == raw_order@[j]);
                    }
                }
            }
        } else {
            proof {
                assert(picked@.contains(raw_order@[i as int]));
            }
        }
    }
    let mut r: Vec<usize> = Vec::new();
    let mut j: usize = picked.len();
    while j > 0
        invariant
            j <= picked@.len(),
            r@.len() == picked@.len() - j,
            forall|k: int| 0 <= k < r@.len() ==> r@[k] == picked@[picked@.len() - 1 - k],
        decreases j,
    {
        j -= 1;
        r.push(picked[j]);
    }
    proof {
        assert forall|k1: int, k2: int| 0 <= k1 < k2 < r@.len() implies r@[k1] != r@[k2] by {
            assert(r@[k1] == picked@[picked@.len() - 1 - k1]);
            assert(r@[k2] == picked@[picked@.len() - 1 - k2]);
        }
        assert forall|x2: usize| r@.contains(x2) == picked@.contains(x2) by {
            if r@.contains(x2) {
                let k = choose|k: int| 0 <= k < r@.len() && r@[k] == x2;
                assert(picked@[picked@.len() - 1 - k] == x2);
            }
            if picked@.contains(x2) {
                let k = choose|k: int| 0 <= k < picked@.len() && picked@[k] == x2;
                assert(r@[picked@.len() - 1 - k] == x2);
            }
        }
        assert forall|k: int| 0 <= k < r@.len() implies (#[trigger] r@[k]) < n by {
            assert(r@[k] == picked@[picked@.len() - 1 - k]);
        }
        assert forall|k1: int, k2: int|
            0 <= k1 < k2 < r@.len() implies last_occurrence(raw_order@, #[trigger] r@[k1])
            < last_occurrence(raw_order@, #[trigger] r@[k2]) by {
            assert(r@[k1] == picked@[picked@.len() - 1 - k1]);
            assert(r@[k2] == picked@[picked@.len() - 1 - k2]);
            assert(last_occurrence(raw_order@, picked@[picked@.len() - 1 - k2])
                > last_occurrence(raw_order@, picked@[picked@.len() - 1 - k1]));
        }
    }
    r
}

/// How many vertices one breadth-first sweep may visit.
pub const TRAVERSAL_LIMIT: usize = 1048576;

/// Produces the propagation order: a breadth-first sweep from the roots
/// along forward edges, keeping each vertex's deepest occurrence, checked
/// against every edge.  Fails when the graph hides a cycle or the sweep
/// outgrows the budget.
#[verifier::loop_isolation(false)]
pub fn create_bfs_order(graph: &PropositionGraph) -> (res: Result<Vec<usize>, BeliefError>)
    requires
        graph.wf(),
    ensures
        res matches Ok(o) ==> order_ok(*graph, o@),
        res matches Ok(o) ==> forall|j1: int, j2: int|
            0 <= j1 < j2 < o@.len() ==> (graph.roots@.contains(#[trigger] o@[j2])
                ==> graph.roots@.contains(#[trigger] o@[j1])),
        res matches Err(e) ==> e == BeliefError::UnresolvableProposition,
        graph.nodes@.len() == 1 && graph.roots@.len() == 1 && graph.children@[0]@.len() == 0
            ==> res is Ok,
{
    let n = graph.nodes.len();
    let mut queue: Vec<usize> = Vec::new();
    let mut qi: usize = 0;
    let mut ri: usize = 0;
    while ri < graph.roots.len()
        invariant
            ri <= graph.roots@.len(),
            queue@.len() == ri,
            forall|j: int| 0 <= j < queue@.len() ==> (#[trigger] queue@[j]) < n,
            forall|j: int| 0 <= j < queue@.len() ==> (#[trigger] queue@[j]) == graph.roots@[j],
        decreases graph.roots@.len() - ri,
    {
        queue.push(graph.roots[ri]);
        ri += 1;
    }
    let mut buffer: Vec<usize> = Vec::new();
    while qi < queue.len()
        invariant
            qi <= queue@.len(),
            qi <= TRAVERSAL_LIMIT,
            buffer@.len() == qi,
            graph.nodes@.len() == 1 && graph.roots@.len() == 1 && graph.children@[0]@.len() == 0
                ==> queue@.len() == 1,
            forall|j: int| 0 <= j < queue@.len() ==> (#[trigger] queue@[j]) < n,
            forall|j: int| 0 <= j < buffer@.len() ==> (#[trigger] buffer@[j]) < n,
            queue@.len() >= graph.roots@.len(),
            forall|j: int|
                0 <= j < graph.roots@.len() ==> (#[trigger] queue@[j]) == graph.roots@[j],
            forall|j: int|
                graph.roots@.len() <= j < queue@.len() ==> !graph.roots@.contains(
                    #[trigger] queue@[j],
                ),
            forall|j: int| 0 <= j < buffer@.len() ==> (#[trigger] buffer@[j]) == queue@[j],
        decreases TRAVERSAL_LIMIT - qi,
    {
        if qi == TRAVERSAL_LIMIT {
            proof {
                if graph.nodes@.len() == 1 && graph.roots@.len() == 1
                    && graph.children@[0]@.len() == 0 {
                    assert(false);
                }
            }
            return Err(BeliefError::UnresolvableProposition);
        }
        let node = queue[qi];
        buffer.push(node);
        let mut k: usize = 0;
        while k < graph.children[node].len()
            invariant
                node < n,
                k <= graph.children@[node as int]@.len(),
                qi < queue@.len(),
                buffer@.len() == qi + 1,
                graph.nodes@.len() == 1 && graph.roots@.len() == 1 && graph.children@[0]@.len()
                    == 0 ==> queue@.len() == 1,
                forall|j: int| 0 <= j < queue@.len() ==> (#[trigger] queue@[j]) < n,
                queue@.len() >= graph.roots@.len(),
                forall|j: int|
                    0 <= j < graph.roots@.len() ==> (#[trigger] queue@[j]) == graph.roots@[j],
                forall|j: int|
                    graph.roots@.len() <= j < queue@.len() ==> !graph.roots@.contains(
                        #[trigger] queue@[j],
                    ),
                forall|j: int|
                    0 <= j < buffer@.len() ==> (#[trigger] buffer@[j]) == queue@[j],
            decreases graph.children@[node as int]@.len() - k,
        {
            proof {
                // a pushed child has a parent, so it is no root
                let c = graph.children@[node as int]@[k as int];
                assert(graph.parents@[graph.children@[node as int]@[k as int] as int]@.contains(
                    node,
                ));
                if graph.roots@.contains(c) {
                    let r = choose|r: int|
                        0 <= r < graph.roots@.len() && graph.roots@[r] == c;
                    assert(graph.parents@[graph.roots@[r] as int]@.len() == 0);
                    assert(false);
                }
            }
            queue.push(graph.children[node][k]);
            k += 1;
        }
        qi += 1;
    }
    let order = reverse_prune_duplicates(&buffer, n);
    proof {
        let r0 = graph.roots@.len() as int;
        assert forall|j1: int, j2: int|
            0 <= j1 < j2 < order@.len() && graph.roots@.contains(#[trigger] order@[j2])
                implies graph.roots@.contains(#[trigger] order@[j1]) by {
            let x1 = order@[j1];
            let x2 = order@[j2];
            assert(order@.contains(x2));
            assert(buffer@.contains(x2));
            lemma_last_occurrence(buffer@, x2);
            let lo2 = last_occurrence(buffer@, x2);
            if lo2 >= r0 {
                assert(buffer@[lo2] == queue@[lo2]);
                assert(!graph.roots@.contains(queue@[lo2]));
                assert(false);
            }
            if !graph.roots@.contains(x1) {
                assert(order@.contains(x1));
                assert(buffer@.contains(x1));
                lemma_last_occurrence(buffer@, x1);
                let lo1 = last_occurrence(buffer@, x1);
                if lo1 < r0 {
                    assert(buffer@[lo1] == queue@[lo1]);
                    assert(queue@[lo1] == graph.roots@[lo1]);
                    assert(graph.roots@.contains(x1));
                }
                assert(last_occurrence(buffer@, x1) < last_occurrence(buffer@, x2));
                assert(false);
            }
        }
        if graph.nodes@.len() == 1 && graph.roots@.len() == 1 && graph.children@[0]@.len() == 0 {
            // the sweep visited exactly the one root, so the pruned
            // order is the one-vertex order, which the checker accepts
            assert(buffer@.len() == 1);
            assert(buffer@[0] == 0);
            assert(buffer@.contains(0usize));
            assert(order@.contains(0usize));
            assert(order@.len() >= 1);
            if order@.len() > 1 {
                assert(order@[0] == 0 && order@[1] == 0);
                assert(false);
            }
            assert(order@ =~= seq![0usize]);
            assert forall|x: int| 0 <= x < graph.n() implies #[trigger] order@.contains(
                x as usize,
            ) by {
                assert(order@.contains(0usize));
            }
            assert(order_ok(*graph, order@));
        }
    }
    if !check_order(graph, &order) {
        return Err(BeliefError::UnresolvableProposition);
    }
    Ok(order)
}


/// The premise groups behind a list of backward-neighbor Group vertices.
pub fn groups_from_backlinks(backlinks: &Vec<PropositionNode>) -> (r: Vec<PropositionGroup>)
    requires
        forall|i: int| 0 <= i < backlinks@.len() ==> (#[trigger] backlinks@[i])@ is Group,
    ensures
        r@.len() == backlinks@.len(),
        forall|i: int|
            0 <= i < r@.len() ==> (#[trigger] r@[i])@ == backlinks@[i]@->Group_0,
{
    let mut r: Vec<PropositionGroup> = Vec::new();
    let mut i: usize = 0;
    while i < backlinks.len()
        invariant
            i <= backlinks@.len(),
            forall|j: int| 0 <= j < backlinks@.len() ==> (#[trigger] backlinks@[j])@ is Group,
            r@.len() == i,
            forall|j: int| 0 <= j < i ==> (#[trigger] r@[j])@ == backlinks@[j]@->Group_0,
        decreases backlinks@.len() - i,
    {
        r.push(backlinks[i].extract_group());
        i += 1;
    }
    r
}

} // verus!

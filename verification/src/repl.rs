//! The interactive driver's decision core.
//!
//! A session wraps one inference run.  The driver shows the propagation
//! order, lets the user pin evidence at an order index, re-initialize,
//! and re-run the pass; everything that decides or computes lives here,
//! so a thin outer loop only reads lines and prints strings.

use vstd::prelude::*;

use crate::errors::BeliefError;
use crate::graph::{GenericNodeType, NodeView};
use crate::objects::{group_chars, pred_chars};
use crate::inference::Inferencer;
use crate::interface::FactorModel;
use crate::rational::{Rational, qle};

verus! {

/// Whether a character is a decimal digit.
pub open spec fn is_digit(c: char) -> bool {
    48 <= c as u32 <= 57
}

/// The numeric value of the first `j` characters, read as a decimal.
pub open spec fn parse_prefix(s: Seq<char>, j: int) -> int
    decreases j,
{
    if j <= 0 {
        0
    } else {
        parse_prefix(s, j - 1) * 10 + (s[j - 1] as u32 - 48)
    }
}

/// What a whole token parses to: every character a digit and the value
/// a machine word, or nothing.
pub open spec fn spec_parse_u64(s: Seq<char>) -> Option<u64> {
    if s.len() == 0 || (exists|j: int| 0 <= j < s.len() && !is_digit(s[j])) || parse_prefix(
        s,
        s.len() as int,
    ) > u64::MAX {
        None
    } else {
        Some(parse_prefix(s, s.len() as int) as u64)
    }
}

/// A digit keeps the prefix value nonnegative and growing.
proof fn lemma_parse_prefix_nonneg(s: Seq<char>, j: int)
    requires
        0 <= j <= s.len(),
        forall|k: int| 0 <= k < j ==> is_digit(#[trigger] s[k]),
    ensures
        parse_prefix(s, j) >= 0,
        j > 0 ==> parse_prefix(s, j) >= parse_prefix(s, j - 1),
    decreases j,
{
    if j > 0 {
        lemma_parse_prefix_nonneg(s, j - 1);
        let p = parse_prefix(s, j - 1);
        assert(p * 10 >= p) by (nonlinear_arith)
            requires
                p >= 0,
        ;
    }
}

/// A longer all-digit prefix is never smaller.
proof fn lemma_parse_prefix_mono(s: Seq<char>, j1: int, j2: int)
    requires
        0 <= j1 <= j2 <= s.len(),
        forall|k: int| 0 <= k < j2 ==> is_digit(#[trigger] s[k]),
    ensures
        parse_prefix(s, j1) <= parse_prefix(s, j2),
    decreases j2 - j1,
{
    if j1 < j2 {
        lemma_parse_prefix_mono(s, j1, j2 - 1);
        lemma_parse_prefix_nonneg(s, j2);
    }
}

/// Parses a decimal token into a machine word.
#[verifier::loop_isolation(false)]
pub fn parse_u64(s: &str) -> (r: Option<u64>)
    ensures
        r == spec_parse_u64(s@),
{
    let len = s.unicode_len();
    if len == 0 {
        return None;
    }
    let mut acc: u64 = 0;
    let mut j: usize = 0;
    while j < len
        invariant
            j <= len,
            len == s@.len(),
            forall|k: int| 0 <= k < j ==> is_digit(#[trigger] s@[k]),
            acc == parse_prefix(s@, j as int),
        decreases len - j,
    {
        let c = s.get_char(j);
        let v = c as u32;
        if v < 48 || v > 57 {
            proof {
                assert(!is_digit(s@[j as int]));
            }
            return None;
        }
        let d = (v - 48) as u64;
        let acc10 = match acc.checked_mul(10) {
            Some(x) => x,
            None => {
                proof {
                    lemma_parse_prefix_nonneg(s@, j as int);
                    assert(parse_prefix(s@, j as int + 1) > u64::MAX) by (nonlinear_arith)
                        requires
                            parse_prefix(s@, j as int) * 10 > u64::MAX,
                            parse_prefix(s@, j as int + 1) == parse_prefix(s@, j as int) * 10 + (
                            s@[j as int] as u32 - 48),
                            is_digit(s@[j as int]),
                    ;
                    if forall|k: int| 0 <= k < s@.len() ==> is_digit(#[trigger] s@[k]) {
                        lemma_parse_prefix_mono(s@, j as int + 1, s@.len() as int);
                    }
                }
                return None;
            },
        };
        let acc2 = match acc10.checked_add(d) {
            Some(x) => x,
            None => {
                proof {
                    lemma_parse_prefix_nonneg(s@, j as int);
                    assert(parse_prefix(s@, j as int + 1) > u64::MAX);
                    if forall|k: int| 0 <= k < s@.len() ==> is_digit(#[trigger] s@[k]) {
                        lemma_parse_prefix_mono(s@, j as int + 1, s@.len() as int);
                    }
                }
                return None;
            },
        };
        acc = acc2;
        j += 1;
    }
    proof {
        if exists|k: int| 0 <= k < s@.len() && !is_digit(s@[k]) {
            let k = choose|k: int| 0 <= k < s@.len() && !is_digit(s@[k]);
            assert(is_digit(s@[k]));
        }
    }
    Some(acc)
}

/// One interactive session over a run.
pub struct ReplState<M: FactorModel> {
    pub inferencer: Box<Inferencer<M>>,
    pub question_index: Vec<usize>,
}

impl<M: FactorModel> ReplState<M> {
    /// The session's invariant: the run is sound and the question index
    /// is its propagation order.
    pub open spec fn swf(self) -> bool {
        &&& self.inferencer.inv()
        &&& self.question_index@ == self.inferencer.bfs_order@
    }

    /// Opens a session over a run.
    pub fn new(inferencer: Box<Inferencer<M>>) -> (r: ReplState<M>)
        requires
            inferencer.inv(),
        ensures
            r.swf(),
    {
        let mut question_index: Vec<usize> = Vec::new();
        let mut i: usize = 0;
        while i < inferencer.bfs_order.len()
            invariant
                i <= inferencer.bfs_order@.len(),
                question_index@.len() == i,
                forall|j: int| 0 <= j < i ==> question_index@[j] == inferencer.bfs_order@[j],
            decreases inferencer.bfs_order@.len() - i,
        {
            question_index.push(inferencer.bfs_order[i]);
            i += 1;
        }
        proof {
            assert(question_index@ =~= inferencer.bfs_order@);
        }
        ReplState { inferencer, question_index }
    }

    /// Pins evidence at an order index and re-propagates.  On success
    /// the probability is recorded at the selected vertex and the run
    /// ends ready, every readout entry lawful.  Fails when the index is
    /// out of range or names a Group.
    pub fn handle_set(&mut self, select_index: usize, probability: Rational) -> (res: Result<
        (),
        BeliefError,
    >)
        requires
            old(self).swf(),
            probability.wf(),
            qle(probability, Rational { num: 1, den: 1 }),
        ensures
            final(self).swf(),
            final(self).question_index == old(self).question_index,
            res is Ok ==> select_index < old(self).question_index@.len() && final(self).inferencer.evidence@ == old(self).inferencer.evidence@.update(
                old(self).question_index@[select_index as int] as int,
                Some(probability),
            ),
            res is Ok ==> final(self).inferencer.state
                == crate::inference::EngineState::MarginalsReady,
            res is Ok ==> forall|i: int|
                0 <= i < final(self).inferencer.gn() ==> final(self).inferencer.marginal_entry_ok(
                    i,
                ),
            select_index < old(self).question_index@.len() && old(
                self,
            ).inferencer.proposition_graph.single(
                old(self).question_index@[select_index as int] as int,
            ) && crate::inference::bare_chart(old(self).inferencer.proposition_graph)
                ==> res is Ok,
    {
        if select_index >= self.question_index.len() {
            return Err(BeliefError::MissingBelief);
        }
        let node = self.question_index[select_index];
        proof {
            assert(self.inferencer.bfs_order@.contains(node));
            assert(node < self.inferencer.gn());
        }
        let proposition = match &self.inferencer.proposition_graph.nodes[node].node {
            GenericNodeType::Single(p) => p.clone(),
            GenericNodeType::Group(_) => {
                return Err(BeliefError::MissingBelief);
            },
        };
        proof {
            assert(self.inferencer.proposition_graph.nodes@[node as int]@ == NodeView::Single(
                proposition@,
            ));
        }
        match self.inferencer.store_proposition_probability(&proposition, probability) {
            Ok(()) => {},
            Err(e) => {
                return Err(e);
            },
        }
        proof {
            let g = self.inferencer.proposition_graph;
            let i = choose|i: int|
                0 <= i < old(self).inferencer.gn() && g.nodes@[i]@ == NodeView::Single(
                    proposition@,
                ) && self.inferencer.evidence@ == old(self).inferencer.evidence@.update(
                    i,
                    Some(probability),
                );
            if i != node as int {
                assert(!crate::graph::node_same(g.nodes@[i]@, g.nodes@[node as int]@));
            }
        }
        match self.inferencer.do_fan_out_from_node(node) {
            Ok(()) => Ok(()),
            Err(e) => Err(e),
        }
    }

    /// The hash rendering of every vertex, in order-index order, for the
    /// driver to show beside its indexes.
    pub fn print_ordering(&self) -> (r: Vec<String>)
        requires
            self.swf(),
        ensures
            r@.len() == self.question_index@.len(),
            forall|i: int|
                0 <= i < r@.len() ==> (#[trigger] r@[i])@ == (match self.inferencer.proposition_graph.nodes@[self.question_index@[i] as int]@ {
                    NodeView::Single(p) => pred_chars(p),
                    NodeView::Group(g) => group_chars(g),
                }),
    {
        let mut r: Vec<String> = Vec::new();
        let mut i: usize = 0;
        while i < self.question_index.len()
            invariant
                self.swf(),
                i <= self.question_index@.len(),
                r@.len() == i,
                forall|j: int|
                    0 <= j < i ==> (#[trigger] r@[j])@ == (match self.inferencer.proposition_graph.nodes@[self.question_index@[j] as int]@ {
                        NodeView::Single(p) => pred_chars(p),
                        NodeView::Group(g) => group_chars(g),
                    }),
            decreases self.question_index@.len() - i,
        {
            let node = self.question_index[i];
            proof {
                assert(self.inferencer.bfs_order@.contains(node));
                assert(node < self.inferencer.gn());
            }
            r.push(self.inferencer.proposition_graph.nodes[node].debug_string());
            i += 1;
        }
        r
    }

    /// Re-initializes the run from a neutral chart: on success the run
    /// ends ready, its whole chart satisfying the propagation equations.
    pub fn handle_reinit(&mut self) -> (res: Result<(), BeliefError>)
        requires
            old(self).swf(),
        ensures
            final(self).swf(),
            res is Ok ==> final(self).inferencer.state
                == crate::inference::EngineState::MarginalsReady,
            res is Ok ==> forall|i: int|
                0 <= i < final(self).inferencer.gn() ==> final(self).inferencer.marginal_entry_ok(i),
            res is Ok ==> final(self).inferencer.chart_ok(*old(self).inferencer),
    {
        self.inferencer.initialize()
    }

    /// Re-runs the full forward and backward propagation: on success the
    /// run ends ready, its whole chart satisfying the propagation
    /// equations.
    pub fn handle_pass(&mut self) -> (res: Result<(), BeliefError>)
        requires
            old(self).swf(),
        ensures
            final(self).swf(),
            res is Ok ==> final(self).inferencer.state
                == crate::inference::EngineState::MarginalsReady,
            res is Ok ==> forall|i: int|
                0 <= i < final(self).inferencer.gn() ==> final(self).inferencer.marginal_entry_ok(i),
            res is Ok ==> final(self).inferencer.chart_ok(*old(self).inferencer),
    {
        self.inferencer.do_full_forward_and_backward()
    }
}

} // verus!

//! Nodes, deferred computations and the two-state cells that hold them.

use crate::fault::Fault;
use vstd::prelude::*;

verus! {

/// A handle on a value of the graph: an integer, or a reference to a cell.
///
/// A reference is the position of its cell in the store that made it.
/// Copies of one reference share that cell: once it is forced through one
/// of them, all of them see the result.
#[derive(Clone, Copy, PartialEq, Eq, Structural, Debug)]
pub enum Node {
    Int(i64),
    ThunkRef(usize),
}

impl Node {
    /// Zero for an integer; one more than the cell's position for a
    /// reference. Forcing a node only ever touches nodes of smaller rank.
    pub open spec fn rank(self) -> nat {
        match self {
            Node::Int(_) => 0,
            Node::ThunkRef(i) => i as nat + 1,
        }
    }

    /// The node is an integer or refers to a cell before position `bound`.
    pub open spec fn below(self, bound: int) -> bool {
        self.rank() <= bound
    }
}

/// A deferred computation: work that is packaged now and run at most once,
/// when the cell that owns it is forced.
///
/// The computation names the nodes it depends on. The evaluator forces
/// them, in the order given, and hands their values, which are integers,
/// to `eval`. What `eval` hands back is an integer, which is then the
/// result, or a further reference, which is forced in turn. Operands and
/// further references have to be integers or cells older than the
/// computation's own, else forcing it is a fault. A computation has no
/// state of its own: what it hands back is a function of the values.
pub trait ThunkEval {
    /// The nodes to force, first to last, before the computation runs.
    spec fn operands(&self) -> Seq<Node>;

    /// What the computation hands back once its operands were forced to
    /// `forced`, position by position.
    spec fn outcome(&self, forced: Seq<Node>) -> Result<Node, Fault>;

    /// Hands out the operands.
    fn needs(&self) -> (ops: Vec<Node>)
        ensures
            ops@ == self.operands(),
    ;

    /// Runs the computation on the values of its operands.
    fn eval(&self, forced: &Vec<Node>) -> (r: Result<Node, Fault>)
        requires
            forced@.len() == self.operands().len(),
            forall|k: int| 0 <= k < forced@.len() ==> (#[trigger] forced@[k]) is Int,
        ensures
            r == self.outcome(forced@),
    ;
}

/// A cell: a computation that has not run yet, or the integer it led to.
///
/// The parameter is the form in which a pending computation is held; the
/// store holds boxed trait objects.
pub enum Thunk<C = Box<dyn ThunkEval>> {
    UThunk(C),
    EThunk(Node),
}

} // verus!

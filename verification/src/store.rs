//! The store of cells, and the reduction protocol that forces them.

use crate::fault::Fault;
use crate::node::{Node, Thunk};
use crate::semantics::{
    after, after_all, cell_wf, handed_back, lemma_after_frame, lemma_after_refines,
    lemma_fault_cuts, lemma_forced_is_settled, lemma_refines_transitive, lemma_value_is_int,
    lemma_value_stable, lemma_values_len, refines, settled, terminal, value, values, wf,
};
use vstd::prelude::*;

verus! {

/// The cells of one graph. References are positions in this store, and a
/// reference is meaningful only together with the store that issued it.
pub struct Store {
    cells: Vec<Thunk>,
}

impl View for Store {
    type V = Seq<Thunk>;

    closed spec fn view(&self) -> Seq<Thunk> {
        self.cells@
    }
}

impl Store {
    /// Every cell only looks backwards, at cells made before it. This holds
    /// of every store at all times.
    #[verifier::type_invariant]
    spec fn well_formed(&self) -> bool {
        wf(self.cells@)
    }

    /// The node is an integer or refers to a cell of this store.
    pub open spec fn holds(&self, node: Node) -> bool {
        node.below(self@.len() as int)
    }

    /// A store without cells.
    pub fn new() -> (store: Store)
        ensures
            store@ == Seq::<Thunk>::empty(),
    {
        Store { cells: Vec::new() }
    }

    /// The number of cells.
    pub fn len(&self) -> (n: usize)
        ensures
            n == self@.len(),
    {
        self.cells.len()
    }

    /// The cell at position `i` as it is now, if there is one.
    pub fn cell(&self, i: usize) -> (cell: Option<&Thunk>)
        ensures
            wf(self@),
            match cell {
                Some(found) => i < self@.len() && *found == self@[i as int],
                None => i >= self@.len(),
            },
    {
        proof {
            use_type_invariant(self);
        }
        if i < self.cells.len() {
            Some(&self.cells[i])
        } else {
            None
        }
    }

    /// Adds a cell at the end and returns its position.
    pub(crate) fn push_cell(&mut self, cell: Thunk) -> (at: usize)
        requires
            cell is UThunk,
        ensures
            wf(final(self)@),
            final(self)@ == old(self)@.push(cell),
            at == old(self)@.len(),
    {
        proof {
            use_type_invariant(&*self);
        }
        let at = self.cells.len();
        let ghost before = self.cells@;
        let mut cells: Vec<Thunk> = Vec::new();
        core::mem::swap(&mut self.cells, &mut cells);
        cells.push(cell);
        proof {
            let now = cells@;
            assert forall|j: int| 0 <= j < now.len() implies cell_wf(now, j) by {
                if j < before.len() {
                    assert(cell_wf(before, j));
                }
            }
        }
        core::mem::swap(&mut self.cells, &mut cells);
        at
    }

    /// Replaces the cell at position `i` by the result `v`.
    pub(crate) fn fill(&mut self, i: usize, v: Node)
        requires
            i < old(self)@.len(),
            v is Int,
        ensures
            wf(final(self)@),
            final(self)@ == old(self)@.update(i as int, Thunk::EThunk(v)),
    {
        proof {
            use_type_invariant(&*self);
        }
        let ghost before = self.cells@;
        let mut cells: Vec<Thunk> = Vec::new();
        core::mem::swap(&mut self.cells, &mut cells);
        cells[i] = Thunk::EThunk(v);
        proof {
            let now = cells@;
            assert forall|j: int| 0 <= j < now.len() implies cell_wf(now, j) by {
                assert(cell_wf(before, j));
            }
        }
        core::mem::swap(&mut self.cells, &mut cells);
    }

    /// Whether the node is an integer or refers to a cell of this store.
    pub fn contains(&self, node: Node) -> (b: bool)
        ensures
            b == self.holds(node),
    {
        match node {
            Node::Int(_) => true,
            Node::ThunkRef(i) => i < self.cells.len(),
        }
    }
}

impl Node {
    /// Forces the node and returns the integer that it stands for.
    ///
    /// An integer is returned as it is. For a reference the cell is reduced
    /// first, so that it holds its result, and the result is read from it.
    /// Cells that were forced on the way keep what they were forced to;
    /// forcing the same node again reads the stored result. A reference
    /// that points at no cell of the store is a fault.
    pub fn eval(self, store: &mut Store) -> (r: Result<Node, Fault>)
        ensures
            wf(final(store)@),
            r == value(old(store)@, self),
            r matches Ok(v) ==> v is Int,
            r matches Ok(Node::Int(k)) ==> terminal(final(store)@, self) == Some(k),
            final(store)@ == after(old(store)@, self),
            refines(old(store)@, final(store)@),
            r is Ok ==> settled(final(store)@, self),
            forall|other: Node| #[trigger] value(final(store)@, other) == value(old(store)@, other),
        decreases self.rank(), 1nat,
    {
        let reduced = self.reduce(store);
        proof {
            lemma_value_is_int(old(store)@, self);
            if reduced is Ok {
                lemma_forced_is_settled(old(store)@, self);
            }
        }
        assert forall|other: Node| #[trigger] value(store@, other) == value(old(store)@, other) by {
            lemma_value_stable(old(store)@, store@, other);
        }
        match reduced {
            Ok(()) => {},
            Err(fault) => {
                return Err(fault);
            },
        }
        match self {
            Node::Int(_) => Ok(self),
            Node::ThunkRef(i) => match &store.cells[i] {
                Thunk::UThunk(_) => Err(Fault::InvariantViolation),
                Thunk::EThunk(v) => Ok(*v),
            },
        }
    }

    /// Runs the pending computation of the node's cell, if there is one,
    /// and stores the integer it leads to in its place. The operands are
    /// forced first, in order. Then the computation runs on their values.
    /// Where it hands back a further reference, that is forced in turn.
    /// The first fault on this way ends the step and leaves the cell
    /// pending.
    pub fn reduce(&self, store: &mut Store) -> (r: Result<(), Fault>)
        ensures
            wf(final(store)@),
            final(store)@ == after(old(store)@, *self),
            refines(old(store)@, final(store)@),
            match r {
                Ok(()) => value(old(store)@, *self) is Ok && settled(final(store)@, *self),
                Err(fault) => value(old(store)@, *self) == Err::<Node, Fault>(fault),
            },
        decreases self.rank(), 0nat,
    {
        proof {
            use_type_invariant(&*store);
            lemma_after_refines(store@, *self);
        }
        let i = match *self {
            Node::Int(_) => {
                return Ok(());
            },
            Node::ThunkRef(i) => i,
        };
        if i >= store.cells.len() {
            return Err(Fault::InvariantViolation);
        }
        assert(cell_wf(store@, i as int));
        let ops = match &store.cells[i] {
            Thunk::EThunk(_) => {
                return Ok(());
            },
            Thunk::UThunk(c) => c.needs(),
        };
        let ghost start = store@;
        let ghost planned = start[i as int]->UThunk_0.operands();
        let mut forced: Vec<Node> = Vec::new();
        let mut k: usize = 0;
        while k < ops.len()
            invariant
                0 <= k <= ops.len(),
                ops@ == planned,
                i < start.len(),
                start == old(store)@,
                start[i as int] is UThunk,
                planned == start[i as int]->UThunk_0.operands(),
                *self == Node::ThunkRef(i),
                wf(store@),
                refines(start, store@),
                store@[i as int] == start[i as int],
                store@ == after_all(start, planned.take(k as int), i as nat),
                values(start, planned.take(k as int), i as nat) == Ok::<Seq<Node>, Fault>(forced@),
                forced@.len() == k,
                forall|m: int| 0 <= m < k ==> (#[trigger] forced@[m]) is Int,
            decreases ops.len() - k,
        {
            let operand = ops[k];
            let ghost before = store@;
            assert(operand == planned[k as int]);
            assert(planned.take(k + 1).drop_last() =~= planned.take(k as int));
            assert(planned.take(k + 1).last() == operand);
            if !operand.older_than(i) {
                proof {
                    lemma_fault_cuts(start, planned, i as nat, k + 1);
                    lemma_after_refines(start, *self);
                }
                return Err(Fault::InvariantViolation);
            }
            proof {
                lemma_value_stable(start, before, operand);
            }
            match operand.eval(store) {
                Ok(v) => {
                    proof {
                        lemma_after_frame(before, operand);
                        lemma_refines_transitive(start, before, store@);
                    }
                    forced.push(v);
                },
                Err(fault) => {
                    proof {
                        lemma_fault_cuts(start, planned, i as nat, k + 1);
                        lemma_after_refines(start, *self);
                    }
                    return Err(fault);
                },
            }
            k = k + 1;
        }
        assert(planned.take(k as int) =~= planned);
        proof {
            lemma_values_len(start, planned, i as nat);
        }
        let handed = match &store.cells[i] {
            Thunk::UThunk(c) => c.eval(&forced),
            Thunk::EThunk(_) => Err(Fault::InvariantViolation),
        };
        assert(handed == handed_back(start, i as int));
        let further = match handed {
            Ok(v) => v,
            Err(fault) => {
                return Err(fault);
            },
        };
        if !further.older_than(i) {
            return Err(Fault::InvariantViolation);
        }
        let ghost forced_ops = store@;
        proof {
            lemma_value_stable(start, forced_ops, further);
        }
        match further.eval(store) {
            Ok(v) => {
                proof {
                    lemma_after_frame(forced_ops, further);
                }
                store.fill(i, v);
                Ok(())
            },
            Err(fault) => Err(fault),
        }
    }

    /// Whether the node is an integer or refers to a cell before
    /// position `bound`.
    pub fn older_than(&self, bound: usize) -> (b: bool)
        ensures
            b == self.below(bound as int),
    {
        match *self {
            Node::Int(_) => true,
            Node::ThunkRef(j) => j < bound,
        }
    }
}

} // verus!

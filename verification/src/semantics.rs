//! The meaning of a store of cells, as mathematics.
//!
//! A store is modelled by the sequence of its cells. `value` says what a
//! node stands for, `after` says which cells forcing it fills in. Neither
//! depends on which cells happen to be forced already: that is what the
//! lemmas at the end establish. A cell only ever holds an integer: where
//! a computation hands back a further reference, that is forced in turn.

use crate::fault::Fault;
use crate::node::{Node, Thunk};
use vstd::prelude::*;

verus! {

/// A result is an integer. A pending cell is under no condition: what it
/// depends on is looked at when it is forced.
pub open spec fn cell_wf(cells: Seq<Thunk>, i: int) -> bool {
    match cells[i] {
        Thunk::UThunk(_) => true,
        Thunk::EThunk(v) => v is Int,
    }
}

/// Every result in the store is an integer.
pub open spec fn wf(cells: Seq<Thunk>) -> bool {
    forall|i: int| 0 <= i < cells.len() ==> cell_wf(cells, i)
}

/// The node is an integer, or a reference to a cell that has been forced.
pub open spec fn settled(cells: Seq<Thunk>, node: Node) -> bool {
    match node {
        Node::Int(_) => true,
        Node::ThunkRef(i) => i < cells.len() && cells[i as int] is EThunk,
    }
}

/// The integer that the node shows without anything being forced: its own
/// if it is an integer, and the one its cell holds if that was forced.
/// A pending cell shows none, nor does a reference to no cell.
pub open spec fn terminal(cells: Seq<Thunk>, node: Node) -> Option<i64> {
    match node {
        Node::Int(k) => Some(k),
        Node::ThunkRef(i) => if i < cells.len() {
            match cells[i as int] {
                Thunk::EThunk(Node::Int(k)) => Some(k),
                _ => None,
            }
        } else {
            None
        },
    }
}

/// What `node` stands for: the node itself if it is an integer, and what
/// its cell stands for if it is a reference. Where it stands for a node,
/// that node is an integer.
pub open spec fn value(cells: Seq<Thunk>, node: Node) -> Result<Node, Fault>
    decreases node.rank(), 0nat, 0nat,
{
    match node {
        Node::Int(_) => Ok(node),
        Node::ThunkRef(i) => if i < cells.len() {
            cell_value(cells, i as int)
        } else {
            Err(Fault::InvariantViolation)
        },
    }
}

/// What the cell at position `i` stands for: the stored result if it was
/// forced, and otherwise what the node that the pending computation hands
/// back stands for.
pub open spec fn cell_value(cells: Seq<Thunk>, i: int) -> Result<Node, Fault>
    decreases i, 3nat, 0nat,
{
    if 0 <= i < cells.len() {
        match cells[i] {
            Thunk::EThunk(v) => if v is Int {
                Ok(v)
            } else {
                Err(Fault::InvariantViolation)
            },
            Thunk::UThunk(_) => follow(cells, i as nat, handed_back(cells, i)),
        }
    } else {
        Err(Fault::InvariantViolation)
    }
}

/// What the pending computation of the cell at position `i` hands back
/// when it runs on the values of its operands: an integer, a further
/// reference, or a fault. The fault of an operand comes first.
pub open spec fn handed_back(cells: Seq<Thunk>, i: int) -> Result<Node, Fault>
    decreases i, 2nat, 0nat,
{
    if 0 <= i < cells.len() {
        match cells[i] {
            Thunk::EThunk(_) => Err(Fault::InvariantViolation),
            Thunk::UThunk(c) => match values(cells, c.operands(), i as nat) {
                Ok(forced) => c.outcome(forced),
                Err(fault) => Err(fault),
            },
        }
    } else {
        Err(Fault::InvariantViolation)
    }
}

/// What the cell at position `bound` stands for, given what its
/// computation handed back: an integer is the result, and a reference to
/// an older cell is followed to what that stands for. A reference to any
/// other cell is an invariant violation.
pub open spec fn follow(cells: Seq<Thunk>, bound: nat, handed: Result<Node, Fault>) -> Result<
    Node,
    Fault,
>
    decreases bound, 2nat, 0nat,
{
    match handed {
        Err(fault) => Err(fault),
        Ok(v) => if v.below(bound as int) {
            value(cells, v)
        } else {
            Err(Fault::InvariantViolation)
        },
    }
}

/// The values of the operands `ops` of the cell at position `bound`, first
/// to last. An operand has to lie before that cell; one that does not is
/// an invariant violation. The first operand that faults decides: its
/// fault is the result, whatever the ones after it would give.
pub open spec fn values(cells: Seq<Thunk>, ops: Seq<Node>, bound: nat) -> Result<Seq<Node>, Fault>
    decreases bound, 1nat, ops.len(),
{
    if ops.len() == 0 {
        Ok(Seq::empty())
    } else {
        match values(cells, ops.drop_last(), bound) {
            Err(fault) => Err(fault),
            Ok(forced) => if ops.last().below(bound as int) {
                match value(cells, ops.last()) {
                    Ok(v) => Ok(forced.push(v)),
                    Err(fault) => Err(fault),
                }
            } else {
                Err(Fault::InvariantViolation)
            },
        }
    }
}

/// The cells once `node` has been forced. The operands of its cell are
/// forced first, then the computation runs, then a reference that it
/// handed back is forced in turn. A cell that is forced successfully
/// holds its value from then on; one that faults stays pending.
pub open spec fn after(cells: Seq<Thunk>, node: Node) -> Seq<Thunk>
    decreases node.rank(), 0nat, 0nat,
{
    match node {
        Node::Int(_) => cells,
        Node::ThunkRef(i) => if i < cells.len() {
            match cells[i as int] {
                Thunk::EThunk(_) => cells,
                Thunk::UThunk(c) => {
                    let forced_ops = after_all(cells, c.operands(), i as nat);
                    match handed_back(cells, i as int) {
                        Err(_) => forced_ops,
                        Ok(v) => if v.below(i as int) {
                            let followed = after(forced_ops, v);
                            match value(cells, v) {
                                Ok(k) => followed.update(i as int, Thunk::EThunk(k)),
                                Err(_) => followed,
                            }
                        } else {
                            forced_ops
                        },
                    }
                },
            }
        } else {
            cells
        },
    }
}

/// The cells once the operands `ops` of the cell at position `bound` have
/// been forced, first to last, up to and including the first one that
/// faults.
pub open spec fn after_all(cells: Seq<Thunk>, ops: Seq<Node>, bound: nat) -> Seq<Thunk>
    decreases bound, 1nat, ops.len(),
{
    if ops.len() == 0 {
        cells
    } else {
        let before = after_all(cells, ops.drop_last(), bound);
        if values(cells, ops.drop_last(), bound) is Ok && ops.last().below(bound as int) {
            after(before, ops.last())
        } else {
            before
        }
    }
}

/// `later` is `earlier` with some pending cells filled in, each with the value
/// that it stood for in `earlier`. Nothing else differs.
pub open spec fn refines(earlier: Seq<Thunk>, later: Seq<Thunk>) -> bool {
    &&& later.len() == earlier.len()
    &&& forall|j: int|
        0 <= j < earlier.len() ==> #[trigger] later[j] == earlier[j] || {
            &&& earlier[j] is UThunk
            &&& later[j] is EThunk
            &&& cell_value(earlier, j) == Ok::<Node, Fault>(later[j]->EThunk_0)
        }
}

/// Forcing keeps the number of cells, and leaves alone every cell at or
/// after the position of the one that is forced.
pub proof fn lemma_after_frame(cells: Seq<Thunk>, node: Node)
    ensures
        after(cells, node).len() == cells.len(),
        forall|j: int| node.rank() <= j < cells.len() ==> after(cells, node)[j] == cells[j],
    decreases node.rank(), 0nat, 0nat,
{
    match node {
        Node::Int(_) => {},
        Node::ThunkRef(i) => {
            if i < cells.len() {
                match cells[i as int] {
                    Thunk::EThunk(_) => {},
                    Thunk::UThunk(c) => {
                        let forced_ops = after_all(cells, c.operands(), i as nat);
                        lemma_after_all_frame(cells, c.operands(), i as nat);
                        match handed_back(cells, i as int) {
                            Err(_) => {},
                            Ok(v) => {
                                if v.below(i as int) {
                                    lemma_after_frame(forced_ops, v);
                                }
                            },
                        }
                    },
                }
            }
        },
    }
}

/// Forcing operands that lie before `bound` keeps the number of cells and
/// leaves alone every cell from `bound` on.
pub proof fn lemma_after_all_frame(cells: Seq<Thunk>, ops: Seq<Node>, bound: nat)
    ensures
        after_all(cells, ops, bound).len() == cells.len(),
        forall|j: int| bound <= j < cells.len() ==> after_all(cells, ops, bound)[j] == cells[j],
    decreases bound, 1nat, ops.len(),
{
    if ops.len() > 0 {
        let before = after_all(cells, ops.drop_last(), bound);
        lemma_after_all_frame(cells, ops.drop_last(), bound);
        if values(cells, ops.drop_last(), bound) is Ok && ops.last().below(bound as int) {
            lemma_after_frame(before, ops.last());
        }
    }
}

/// Where a node stands for a node, that node is an integer.
pub proof fn lemma_value_is_int(cells: Seq<Thunk>, node: Node)
    ensures
        value(cells, node) matches Ok(v) ==> v is Int,
    decreases node.rank(), 0nat, 0nat,
{
    match node {
        Node::Int(_) => {},
        Node::ThunkRef(i) => {
            if i < cells.len() {
                lemma_cell_value_is_int(cells, i as int);
            }
        },
    }
}

/// Where a cell stands for a node, that node is an integer.
pub proof fn lemma_cell_value_is_int(cells: Seq<Thunk>, i: int)
    ensures
        cell_value(cells, i) matches Ok(v) ==> v is Int,
    decreases i, 1nat, 0nat,
{
    if 0 <= i < cells.len() {
        match cells[i] {
            Thunk::EThunk(_) => {},
            Thunk::UThunk(_) => {
                match handed_back(cells, i) {
                    Err(_) => {},
                    Ok(v) => {
                        if v.below(i) {
                            lemma_value_is_int(cells, v);
                        }
                    },
                }
            },
        }
    }
}

/// Filling in cells changes what no node stands for.
pub proof fn lemma_value_stable(earlier: Seq<Thunk>, later: Seq<Thunk>, node: Node)
    requires
        refines(earlier, later),
    ensures
        value(later, node) == value(earlier, node),
    decreases node.rank(), 0nat, 0nat,
{
    match node {
        Node::Int(_) => {},
        Node::ThunkRef(i) => {
            if i < earlier.len() {
                lemma_cell_value_stable(earlier, later, i as int);
            }
        },
    }
}

/// Filling in cells changes what no cell stands for.
pub proof fn lemma_cell_value_stable(earlier: Seq<Thunk>, later: Seq<Thunk>, i: int)
    requires
        refines(earlier, later),
    ensures
        cell_value(later, i) == cell_value(earlier, i),
    decreases i, 3nat, 0nat,
{
    if 0 <= i < earlier.len() {
        if later[i] == earlier[i] {
            match earlier[i] {
                Thunk::EThunk(_) => {},
                Thunk::UThunk(c) => {
                    lemma_values_stable(earlier, later, c.operands(), i as nat);
                    match handed_back(earlier, i) {
                        Err(_) => {},
                        Ok(v) => {
                            if v.below(i) {
                                lemma_value_stable(earlier, later, v);
                            }
                        },
                    }
                },
            }
        } else {
            lemma_cell_value_is_int(earlier, i);
        }
    }
}

/// Filling in cells changes the values of no operands.
pub proof fn lemma_values_stable(earlier: Seq<Thunk>, later: Seq<Thunk>, ops: Seq<Node>, bound: nat)
    requires
        refines(earlier, later),
    ensures
        values(later, ops, bound) == values(earlier, ops, bound),
    decreases bound, 1nat, ops.len(),
{
    if ops.len() > 0 {
        lemma_values_stable(earlier, later, ops.drop_last(), bound);
        if ops.last().below(bound as int) {
            lemma_value_stable(earlier, later, ops.last());
        }
    }
}

/// Filling in cells in two rounds is filling them in.
pub proof fn lemma_refines_transitive(a: Seq<Thunk>, b: Seq<Thunk>, c: Seq<Thunk>)
    requires
        refines(a, b),
        refines(b, c),
    ensures
        refines(a, c),
{
    assert forall|j: int| 0 <= j < a.len() implies #[trigger] c[j] == a[j] || {
        &&& a[j] is UThunk
        &&& c[j] is EThunk
        &&& cell_value(a, j) == Ok::<Node, Fault>(c[j]->EThunk_0)
    } by {
        if c[j] != b[j] {
            lemma_cell_value_stable(a, b, j);
        }
    }
}

/// Forcing a node only fills in cells, each with what it stood for.
pub proof fn lemma_after_refines(cells: Seq<Thunk>, node: Node)
    ensures
        refines(cells, after(cells, node)),
    decreases node.rank(), 0nat, 0nat,
{
    match node {
        Node::Int(_) => {},
        Node::ThunkRef(i) => {
            if i < cells.len() {
                match cells[i as int] {
                    Thunk::EThunk(_) => {},
                    Thunk::UThunk(c) => {
                        let forced_ops = after_all(cells, c.operands(), i as nat);
                        lemma_after_all_refines(cells, c.operands(), i as nat);
                        lemma_after_all_frame(cells, c.operands(), i as nat);
                        match handed_back(cells, i as int) {
                            Err(_) => {},
                            Ok(v) => {
                                if v.below(i as int) {
                                    let followed = after(forced_ops, v);
                                    lemma_after_refines(forced_ops, v);
                                    lemma_after_frame(forced_ops, v);
                                    lemma_refines_transitive(cells, forced_ops, followed);
                                }
                            },
                        }
                    },
                }
            }
        },
    }
}

/// Forcing operands only fills in cells, each with what it stood for.
pub proof fn lemma_after_all_refines(cells: Seq<Thunk>, ops: Seq<Node>, bound: nat)
    ensures
        refines(cells, after_all(cells, ops, bound)),
    decreases bound, 1nat, ops.len(),
{
    if ops.len() > 0 {
        let before = after_all(cells, ops.drop_last(), bound);
        lemma_after_all_refines(cells, ops.drop_last(), bound);
        if values(cells, ops.drop_last(), bound) is Ok && ops.last().below(bound as int) {
            lemma_after_refines(before, ops.last());
            lemma_refines_transitive(cells, before, after(before, ops.last()));
        }
    }
}

/// `later` is `earlier` with cells added at the end.
pub open spec fn extends(earlier: Seq<Thunk>, later: Seq<Thunk>) -> bool {
    &&& earlier.len() <= later.len()
    &&& forall|j: int| 0 <= j < earlier.len() ==> later[j] == earlier[j]
}

/// Adding cells changes what no node of the earlier cells stands for.
pub proof fn lemma_value_extends(earlier: Seq<Thunk>, later: Seq<Thunk>, node: Node)
    requires
        extends(earlier, later),
        node.below(earlier.len() as int),
    ensures
        value(later, node) == value(earlier, node),
    decreases node.rank(), 0nat, 0nat,
{
    match node {
        Node::Int(_) => {},
        Node::ThunkRef(i) => {
            lemma_cell_value_extends(earlier, later, i as int);
        },
    }
}

/// Adding cells changes what no earlier cell stands for.
pub proof fn lemma_cell_value_extends(earlier: Seq<Thunk>, later: Seq<Thunk>, i: int)
    requires
        extends(earlier, later),
        0 <= i < earlier.len(),
    ensures
        cell_value(later, i) == cell_value(earlier, i),
    decreases i, 3nat, 0nat,
{
    match earlier[i] {
        Thunk::EThunk(_) => {},
        Thunk::UThunk(c) => {
            lemma_values_extends(earlier, later, c.operands(), i as nat);
            match handed_back(earlier, i) {
                Err(_) => {},
                Ok(v) => {
                    if v.below(i) {
                        lemma_value_extends(earlier, later, v);
                    }
                },
            }
        },
    }
}

/// Adding cells changes the values of no operands among the earlier cells.
pub proof fn lemma_values_extends(earlier: Seq<Thunk>, later: Seq<Thunk>, ops: Seq<Node>, bound: nat)
    requires
        extends(earlier, later),
        bound <= earlier.len(),
    ensures
        values(later, ops, bound) == values(earlier, ops, bound),
    decreases bound, 1nat, ops.len(),
{
    if ops.len() > 0 {
        lemma_values_extends(earlier, later, ops.drop_last(), bound);
        if ops.last().below(bound as int) {
            lemma_value_extends(earlier, later, ops.last());
        }
    }
}

/// The values of two operands, for a cell that lies behind both or
/// behind all cells: the left one is asked first, and its fault hides
/// whatever the right one would give.
pub proof fn lemma_values_pair(cells: Seq<Thunk>, nl: Node, nr: Node, bound: nat)
    requires
        cells.len() <= bound || (nl.below(bound as int) && nr.below(bound as int)),
    ensures
        values(cells, seq![nl, nr], bound) == match value(cells, nl) {
            Err(fault) => Err::<Seq<Node>, Fault>(fault),
            Ok(vl) => match value(cells, nr) {
                Err(fault) => Err(fault),
                Ok(vr) => Ok(seq![vl, vr]),
            },
        },
{
    let both = seq![nl, nr];
    let first = seq![nl];
    let none = Seq::<Node>::empty();
    assert(both.drop_last() =~= first);
    assert(first.drop_last() =~= none);
    assert(values(cells, none, bound) == Ok::<Seq<Node>, Fault>(none));
    assert(values(cells, first, bound) == match value(cells, nl) {
        Err(fault) => Err::<Seq<Node>, Fault>(fault),
        Ok(vl) => Ok(none.push(vl)),
    });
    match value(cells, nl) {
        Err(_) => {},
        Ok(vl) => {
            assert(none.push(vl) =~= seq![vl]);
            match value(cells, nr) {
                Err(_) => {},
                Ok(vr) => {
                    assert(seq![vl].push(vr) =~= seq![vl, vr]);
                },
            }
        },
    }
}

/// A node that was forced successfully is settled from then on, and
/// shows the integer that it stood for.
pub proof fn lemma_forced_is_settled(cells: Seq<Thunk>, node: Node)
    requires
        value(cells, node) is Ok,
    ensures
        settled(after(cells, node), node),
        value(cells, node) matches Ok(Node::Int(k)) && terminal(after(cells, node), node) == Some(k),
{
    lemma_value_is_int(cells, node);
    match node {
        Node::Int(_) => {},
        Node::ThunkRef(i) => {
            match cells[i as int] {
                Thunk::EThunk(_) => {},
                Thunk::UThunk(c) => {
                    let forced_ops = after_all(cells, c.operands(), i as nat);
                    lemma_after_all_frame(cells, c.operands(), i as nat);
                    let v = handed_back(cells, i as int)->Ok_0;
                    lemma_after_frame(forced_ops, v);
                },
            }
        },
    }
}

/// Filling in cells leaves settled nodes settled.
pub proof fn lemma_settled_stays(earlier: Seq<Thunk>, later: Seq<Thunk>, node: Node)
    requires
        refines(earlier, later),
        settled(earlier, node),
    ensures
        settled(later, node),
{
}

/// There is one value for each operand.
pub proof fn lemma_values_len(cells: Seq<Thunk>, ops: Seq<Node>, bound: nat)
    ensures
        values(cells, ops, bound) matches Ok(forced) ==> forced.len() == ops.len(),
    decreases ops.len(),
{
    if ops.len() > 0 {
        lemma_values_len(cells, ops.drop_last(), bound);
    }
}

/// Once an operand has faulted, the operands after it play no part: they
/// are not forced, and the fault stands.
pub proof fn lemma_fault_cuts(cells: Seq<Thunk>, ops: Seq<Node>, bound: nat, n: int)
    requires
        0 <= n <= ops.len(),
        values(cells, ops.take(n), bound) is Err,
    ensures
        values(cells, ops, bound) == values(cells, ops.take(n), bound),
        after_all(cells, ops, bound) == after_all(cells, ops.take(n), bound),
    decreases ops.len() - n,
{
    if n < ops.len() {
        assert(ops.take(n + 1).drop_last() =~= ops.take(n));
        lemma_fault_cuts(cells, ops, bound, n + 1);
    } else {
        assert(ops.take(n) =~= ops);
    }
}

} // verus!

//! What call-by-need promises, proved of the model: a cell is computed at
//! most once, every holder of a reference sees the one result, and the
//! operands of an operation are forced left to right.

use crate::fault::Fault;
use crate::node::{Node, Thunk};
use crate::semantics::{
    after, after_all, cell_value, follow, handed_back, lemma_after_all_frame,
    lemma_after_all_refines, lemma_after_frame, lemma_after_refines, lemma_cell_value_stable,
    lemma_forced_is_settled, lemma_refines_transitive, lemma_settled_stays, lemma_value_is_int,
    lemma_value_stable, lemma_values_pair, lemma_values_stable, refines, settled, terminal,
    value, values,
};
use vstd::prelude::*;

verus! {

/// Once a node has been forced, forcing it again changes nothing, however
/// many other cells have been filled in since.
pub proof fn lemma_forcing_again(cells: Seq<Thunk>, node: Node, later: Seq<Thunk>)
    requires
        refines(after(cells, node), later),
    ensures
        after(later, node) == later,
    decreases node.rank(), 0nat, 0nat,
{
    match node {
        Node::Int(_) => {},
        Node::ThunkRef(i) => {
            if i < cells.len() {
                match cells[i as int] {
                    Thunk::EThunk(_) => {},
                    Thunk::UThunk(c) => {
                        let done = after(cells, node);
                        let forced_ops = after_all(cells, c.operands(), i as nat);
                        lemma_after_frame(cells, node);
                        lemma_after_refines(cells, node);
                        lemma_after_all_frame(cells, c.operands(), i as nat);
                        lemma_after_all_refines(cells, c.operands(), i as nat);
                        if value(cells, node) is Ok {
                            lemma_forced_is_settled(cells, node);
                        } else {
                            let handed = handed_back(cells, i as int);
                            let follows = handed is Ok && handed->Ok_0.below(i as int);
                            if follows {
                                lemma_after_refines(forced_ops, handed->Ok_0);
                            }
                            // The cell is pending in `done`, and stays so in `later`.
                            lemma_cell_value_stable(cells, done, i as int);
                            assert(later[i as int] == cells[i as int]);
                            lemma_refines_transitive(cells, done, later);
                            lemma_refines_transitive(forced_ops, done, later);
                            lemma_forcing_operands_again(cells, c.operands(), i as nat, later);
                            lemma_values_stable(cells, later, c.operands(), i as nat);
                            assert(handed_back(later, i as int) == handed);
                            if follows {
                                lemma_value_stable(cells, later, handed->Ok_0);
                                lemma_forcing_again(forced_ops, handed->Ok_0, later);
                            }
                        }
                    },
                }
            }
        },
    }
}

/// Once operands have been forced, forcing them again changes nothing,
/// however many other cells have been filled in since.
pub proof fn lemma_forcing_operands_again(
    cells: Seq<Thunk>,
    ops: Seq<Node>,
    bound: nat,
    later: Seq<Thunk>,
)
    requires
        refines(after_all(cells, ops, bound), later),
    ensures
        after_all(later, ops, bound) == later,
    decreases bound, 1nat, ops.len(),
{
    if ops.len() > 0 {
        let before = after_all(cells, ops.drop_last(), bound);
        let done = after_all(cells, ops, bound);
        let goes_on = values(cells, ops.drop_last(), bound) is Ok && ops.last().below(
            bound as int,
        );
        if goes_on {
            lemma_after_refines(before, ops.last());
        }
        lemma_refines_transitive(before, done, later);
        lemma_forcing_operands_again(cells, ops.drop_last(), bound, later);
        lemma_after_all_refines(cells, ops, bound);
        lemma_refines_transitive(cells, done, later);
        lemma_values_stable(cells, later, ops.drop_last(), bound);
        if goes_on {
            lemma_forcing_again(before, ops.last(), later);
        }
    }
}

/// Forcing a node twice gives the same value both times, and the second
/// time finds the store as the first left it: a node that was forced
/// successfully is settled, so that its stored result is read.
pub proof fn lemma_eval_idempotent(cells: Seq<Thunk>, node: Node)
    ensures
        value(after(cells, node), node) == value(cells, node),
        after(after(cells, node), node) == after(cells, node),
        value(cells, node) is Ok ==> settled(after(cells, node), node),
{
    lemma_after_refines(cells, node);
    lemma_value_stable(cells, after(cells, node), node);
    lemma_forcing_again(cells, node, after(cells, node));
    if value(cells, node) is Ok {
        lemma_forced_is_settled(cells, node);
    }
}

/// Forcing through one reference is seen through every other: whatever
/// `other` stood for it still stands for, and where `other` refers to the
/// cell that was forced, its result is there to be read, without the
/// computation running again.
pub proof fn lemma_shared_result(cells: Seq<Thunk>, forced: Node, other: Node)
    ensures
        value(after(cells, forced), other) == value(cells, other),
        other == forced && value(cells, forced) is Ok ==> {
            &&& settled(after(cells, forced), other)
            &&& after(after(cells, forced), other) == after(cells, forced)
        },
{
    lemma_after_refines(cells, forced);
    lemma_value_stable(cells, after(cells, forced), other);
    lemma_eval_idempotent(cells, forced);
}

/// Operands whose values are all there are all settled once they have
/// been forced.
pub proof fn lemma_forced_operands_settled(cells: Seq<Thunk>, ops: Seq<Node>, bound: nat, k: int)
    requires
        values(cells, ops, bound) is Ok,
        0 <= k < ops.len(),
    ensures
        ops[k].below(bound as int),
        settled(after_all(cells, ops, bound), ops[k]),
    decreases ops.len(),
{
    let before = after_all(cells, ops.drop_last(), bound);
    lemma_after_refines(before, ops.last());
    if k < ops.len() - 1 {
        lemma_forced_operands_settled(cells, ops.drop_last(), bound, k);
        lemma_settled_stays(before, after(before, ops.last()), ops[k]);
    } else {
        lemma_after_all_refines(cells, ops.drop_last(), bound);
        lemma_value_stable(cells, before, ops.last());
        lemma_forced_is_settled(before, ops.last());
    }
}

/// Forcing a cell successfully forces everything it depends on: each of
/// its operands is settled afterwards, so that another cell that shares
/// an operand finds the result there.
pub proof fn lemma_operands_are_forced(cells: Seq<Thunk>, i: usize, k: int)
    requires
        i < cells.len(),
        cells[i as int] is UThunk,
        value(cells, Node::ThunkRef(i)) is Ok,
        0 <= k < cells[i as int]->UThunk_0.operands().len(),
    ensures
        settled(after(cells, Node::ThunkRef(i)), cells[i as int]->UThunk_0.operands()[k]),
{
    let ops = cells[i as int]->UThunk_0.operands();
    let forced_ops = after_all(cells, ops, i as nat);
    let further = handed_back(cells, i as int)->Ok_0;
    lemma_forced_operands_settled(cells, ops, i as nat, k);
    lemma_after_all_frame(cells, ops, i as nat);
    lemma_after_refines(forced_ops, further);
    lemma_settled_stays(forced_ops, after(forced_ops, further), ops[k]);
}

/// A node that was forced successfully shows the integer that it stood
/// for, so that its user-facing form is there. And a node that shows an
/// integer stands for it: forcing it gives that integer and changes
/// nothing.
pub proof fn lemma_forced_is_shown(cells: Seq<Thunk>, node: Node)
    ensures
        value(cells, node) matches Ok(v) ==> v is Int && terminal(after(cells, node), node)
            == Some(v->Int_0),
        terminal(cells, node) matches Some(k) ==> {
            &&& value(cells, node) == Ok::<Node, Fault>(Node::Int(k))
            &&& after(cells, node) == cells
        },
{
    lemma_value_is_int(cells, node);
    if value(cells, node) is Ok {
        lemma_forced_is_settled(cells, node);
    }
}

/// A cell that holds a result holds it for good: forcing any node leaves
/// it as it is.
pub proof fn lemma_result_is_permanent(cells: Seq<Thunk>, node: Node, j: int)
    requires
        0 <= j < cells.len(),
        cells[j] is EThunk,
    ensures
        after(cells, node).len() == cells.len(),
        after(cells, node)[j] == cells[j],
{
    lemma_after_refines(cells, node);
}

/// A cell is filled in only with what it stood for.
pub proof fn lemma_result_is_value(cells: Seq<Thunk>, node: Node, j: int)
    requires
        0 <= j < cells.len(),
        cells[j] is UThunk,
        after(cells, node)[j] is EThunk,
    ensures
        cell_value(cells, j) == Ok::<Node, Fault>(after(cells, node)[j]->EThunk_0),
{
    lemma_after_refines(cells, node);
}

/// The operands of a binary operation are forced left to right. The right
/// one is forced in the store that forcing the left one has left behind.
/// If the left one faults, that fault is the result and the right one is
/// not forced at all; the same holds of the right one and the operation
/// itself. Only when both have their values does the operation run, and
/// an integer that it hands back is stored.
pub proof fn lemma_left_operand_first(cells: Seq<Thunk>, i: usize, nl: Node, nr: Node)
    requires
        i < cells.len(),
        cells[i as int] is UThunk,
        cells[i as int]->UThunk_0.operands() == seq![nl, nr],
        nl.below(i as int),
        nr.below(i as int),
    ensures
        ({
            let node = Node::ThunkRef(i);
            let left_forced = after(cells, nl);
            let both_forced = after(left_forced, nr);
            match value(cells, nl) {
                Err(fault) => {
                    &&& value(cells, node) == Err::<Node, Fault>(fault)
                    &&& after(cells, node) == left_forced
                },
                Ok(vl) => match value(cells, nr) {
                    Err(fault) => {
                        &&& value(cells, node) == Err::<Node, Fault>(fault)
                        &&& after(cells, node) == both_forced
                    },
                    Ok(vr) => {
                        &&& handed_back(cells, i as int) == cells[i as int]->UThunk_0.outcome(
                            seq![vl, vr],
                        )
                        &&& match handed_back(cells, i as int) {
                            Err(fault) => {
                                &&& value(cells, node) == Err::<Node, Fault>(fault)
                                &&& after(cells, node) == both_forced
                            },
                            Ok(Node::Int(k)) => {
                                &&& value(cells, node) == Ok::<Node, Fault>(Node::Int(k))
                                &&& after(cells, node) == both_forced.update(
                                    i as int,
                                    Thunk::EThunk(Node::Int(k)),
                                )
                            },
                            Ok(further) => value(cells, node) == follow(
                                cells,
                                i as nat,
                                Ok(further),
                            ),
                        }
                    },
                },
            }
        }),
{
    let both = seq![nl, nr];
    let first = seq![nl];
    let none = Seq::<Node>::empty();
    let bound = i as nat;
    lemma_values_pair(cells, nl, nr, bound);
    assert(both.drop_last() =~= first);
    assert(first.drop_last() =~= none);
    assert(values(cells, none, bound) == Ok::<Seq<Node>, Fault>(none));
    assert(after_all(cells, none, bound) == cells);
    assert(after_all(cells, first, bound) == after(cells, nl));
    assert(values(cells, first, bound) is Ok <==> value(cells, nl) is Ok);
    let node = Node::ThunkRef(i);
    let both_forced = after(after(cells, nl), nr);
    if value(cells, nl) is Err {
        assert(after_all(cells, both, bound) == after(cells, nl));
        assert(handed_back(cells, i as int) is Err);
    } else if value(cells, nr) is Err {
        assert(after_all(cells, both, bound) == both_forced);
        assert(handed_back(cells, i as int) is Err);
    } else {
        assert(after_all(cells, both, bound) == both_forced);
        match handed_back(cells, i as int) {
            Err(_) => {},
            Ok(further) => {
                assert(value(cells, node) == follow(cells, bound, Ok(further)));
                match further {
                    Node::Int(_) => {
                        assert(after(both_forced, further) == both_forced);
                        assert(value(cells, further) == Ok::<Node, Fault>(further));
                    },
                    Node::ThunkRef(_) => {},
                }
            },
        }
    }
}

} // verus!

//! Constructors for nodes, and the four arithmetic operations as deferred
//! computations.

use crate::fault::{ArithmeticFault, Fault, Side};
use crate::node::{Node, Thunk, ThunkEval};
use crate::semantics::{
    follow, handed_back, lemma_value_extends, lemma_values_extends, lemma_values_pair, value, values, wf,
};
use crate::store::Store;
use vstd::prelude::*;

verus! {

/// The integers of two operands. An operand that is not an integer is a
/// type mismatch; the left one is looked at first.
pub open spec fn int_operands(vl: Node, vr: Node) -> Result<(i64, i64), Fault> {
    match vl {
        Node::Int(l) => match vr {
            Node::Int(r) => Ok((l, r)),
            Node::ThunkRef(_) => Err(Fault::TypeMismatch { side: Side::Right, observed: vr }),
        },
        Node::ThunkRef(_) => Err(Fault::TypeMismatch { side: Side::Left, observed: vl }),
    }
}

/// The integer node of `x`, or an overflow where `x` is not an `i64`.
pub open spec fn int_node(x: int) -> Result<Node, Fault> {
    if i64::MIN <= x <= i64::MAX {
        Ok(Node::Int(x as i64))
    } else {
        Err(Fault::Arithmetic(ArithmeticFault::Overflow))
    }
}

/// The quotient of `l` by `r`, rounded toward zero.
pub open spec fn truncated_quotient(l: int, r: int) -> int
    recommends
        r != 0,
{
    if l >= 0 {
        if r > 0 {
            l / r
        } else {
            -(l / (-r))
        }
    } else {
        if r > 0 {
            -((-l) / r)
        } else {
            (-l) / (-r)
        }
    }
}

/// The sum of two operands.
pub open spec fn sum(vl: Node, vr: Node) -> Result<Node, Fault> {
    match int_operands(vl, vr) {
        Ok((l, r)) => int_node(l + r),
        Err(fault) => Err(fault),
    }
}

/// The difference of two operands.
pub open spec fn difference(vl: Node, vr: Node) -> Result<Node, Fault> {
    match int_operands(vl, vr) {
        Ok((l, r)) => int_node(l - r),
        Err(fault) => Err(fault),
    }
}

/// The product of two operands.
pub open spec fn product(vl: Node, vr: Node) -> Result<Node, Fault> {
    match int_operands(vl, vr) {
        Ok((l, r)) => int_node(l * r),
        Err(fault) => Err(fault),
    }
}

/// The quotient of two operands, rounded toward zero.
pub open spec fn quotient(vl: Node, vr: Node) -> Result<Node, Fault> {
    match int_operands(vl, vr) {
        Ok((l, r)) => if r == 0 {
            Err(Fault::Arithmetic(ArithmeticFault::DivisionByZero))
        } else {
            int_node(truncated_quotient(l as int, r as int))
        },
        Err(fault) => Err(fault),
    }
}

/// Tells the integers of two operands, or which one is none.
fn bin_arith(vl: Node, vr: Node) -> (r: Result<(i64, i64), Fault>)
    ensures
        r == int_operands(vl, vr),
{
    if let Node::Int(l) = vl {
        if let Node::Int(r) = vr {
            Ok((l, r))
        } else {
            Err(Fault::TypeMismatch { side: Side::Right, observed: vr })
        }
    } else {
        Err(Fault::TypeMismatch { side: Side::Left, observed: vl })
    }
}

/// Adds two operands. Each has to be an integer; a reference is a type
/// mismatch, whatever its cell holds.
pub fn eval_add(vl: Node, vr: Node) -> (r: Result<Node, Fault>)
    ensures
        r == sum(vl, vr),
{
    let (l, r) = match bin_arith(vl, vr) {
        Ok(pair) => pair,
        Err(fault) => {
            return Err(fault);
        },
    };
    match l.checked_add(r) {
        Some(x) => Ok(Node::Int(x)),
        None => Err(Fault::Arithmetic(ArithmeticFault::Overflow)),
    }
}

/// Subtracts the right operand from the left one. Each has to be an
/// integer; a reference is a type mismatch, whatever its cell holds.
pub fn eval_sub(vl: Node, vr: Node) -> (r: Result<Node, Fault>)
    ensures
        r == difference(vl, vr),
{
    let (l, r) = match bin_arith(vl, vr) {
        Ok(pair) => pair,
        Err(fault) => {
            return Err(fault);
        },
    };
    match l.checked_sub(r) {
        Some(x) => Ok(Node::Int(x)),
        None => Err(Fault::Arithmetic(ArithmeticFault::Overflow)),
    }
}

/// Multiplies two operands. Each has to be an integer; a reference is a
/// type mismatch, whatever its cell holds.
pub fn eval_mul(vl: Node, vr: Node) -> (r: Result<Node, Fault>)
    ensures
        r == product(vl, vr),
{
    let (l, r) = match bin_arith(vl, vr) {
        Ok(pair) => pair,
        Err(fault) => {
            return Err(fault);
        },
    };
    match l.checked_mul(r) {
        Some(x) => Ok(Node::Int(x)),
        None => Err(Fault::Arithmetic(ArithmeticFault::Overflow)),
    }
}

/// Divides the left operand by the right one, rounding toward zero. Each
/// has to be an integer; a reference is a type mismatch, whatever its
/// cell holds.
pub fn eval_div(vl: Node, vr: Node) -> (r: Result<Node, Fault>)
    ensures
        r == quotient(vl, vr),
{
    let (l, r) = match bin_arith(vl, vr) {
        Ok(pair) => pair,
        Err(fault) => {
            return Err(fault);
        },
    };
    if r == 0 {
        return Err(Fault::Arithmetic(ArithmeticFault::DivisionByZero));
    }
    match l.checked_div(r) {
        Some(x) => Ok(Node::Int(x)),
        None => Err(Fault::Arithmetic(ArithmeticFault::Overflow)),
    }
}

/// What a binary operation on `nl` and `nr` stands for: the left operand
/// is forced first, then the right one, then `op` is applied to the two
/// results. The first fault on that way is the result.
pub open spec fn binary(
    cells: Seq<Thunk>,
    nl: Node,
    nr: Node,
    op: spec_fn(Node, Node) -> Result<Node, Fault>,
) -> Result<Node, Fault> {
    match value(cells, nl) {
        Err(fault) => Err(fault),
        Ok(vl) => match value(cells, nr) {
            Err(fault) => Err(fault),
            Ok(vr) => op(vl, vr),
        },
    }
}

/// The two operands of a binary operation, left one first.
fn pair(nl: Node, nr: Node) -> (ops: Vec<Node>)
    ensures
        ops@ == seq![nl, nr],
{
    let mut ops: Vec<Node> = Vec::new();
    ops.push(nl);
    ops.push(nr);
    assert(ops@ =~= seq![nl, nr]);
    ops
}

/// A pending addition.
struct AddThunk {
    nl: Node,
    nr: Node,
}

impl ThunkEval for AddThunk {
    closed spec fn operands(&self) -> Seq<Node> {
        seq![self.nl, self.nr]
    }

    closed spec fn outcome(&self, forced: Seq<Node>) -> Result<Node, Fault> {
        sum(forced[0], forced[1])
    }

    fn needs(&self) -> (ops: Vec<Node>) {
        pair(self.nl, self.nr)
    }

    fn eval(&self, forced: &Vec<Node>) -> (r: Result<Node, Fault>) {
        eval_add(forced[0], forced[1])
    }
}

/// A pending subtraction.
struct SubThunk {
    nl: Node,
    nr: Node,
}

impl ThunkEval for SubThunk {
    closed spec fn operands(&self) -> Seq<Node> {
        seq![self.nl, self.nr]
    }

    closed spec fn outcome(&self, forced: Seq<Node>) -> Result<Node, Fault> {
        difference(forced[0], forced[1])
    }

    fn needs(&self) -> (ops: Vec<Node>) {
        pair(self.nl, self.nr)
    }

    fn eval(&self, forced: &Vec<Node>) -> (r: Result<Node, Fault>) {
        eval_sub(forced[0], forced[1])
    }
}

/// A pending division.
struct DivThunk {
    nl: Node,
    nr: Node,
}

impl ThunkEval for DivThunk {
    closed spec fn operands(&self) -> Seq<Node> {
        seq![self.nl, self.nr]
    }

    closed spec fn outcome(&self, forced: Seq<Node>) -> Result<Node, Fault> {
        quotient(forced[0], forced[1])
    }

    fn needs(&self) -> (ops: Vec<Node>) {
        pair(self.nl, self.nr)
    }

    fn eval(&self, forced: &Vec<Node>) -> (r: Result<Node, Fault>) {
        eval_div(forced[0], forced[1])
    }
}

/// A pending multiplication.
struct MulThunk {
    nl: Node,
    nr: Node,
}

impl ThunkEval for MulThunk {
    closed spec fn operands(&self) -> Seq<Node> {
        seq![self.nl, self.nr]
    }

    closed spec fn outcome(&self, forced: Seq<Node>) -> Result<Node, Fault> {
        product(forced[0], forced[1])
    }

    fn needs(&self) -> (ops: Vec<Node>) {
        pair(self.nl, self.nr)
    }

    fn eval(&self, forced: &Vec<Node>) -> (r: Result<Node, Fault>) {
        eval_mul(forced[0], forced[1])
    }
}

/// An integer node.
pub fn make_int(int_val: i64) -> (node: Node)
    ensures
        node == Node::Int(int_val),
{
    Node::Int(int_val)
}

/// `later` is `earlier` with one pending cell added at the end, and `node`
/// refers to that cell. No other cell differs, and every node of `earlier`
/// stands for what it stood for.
pub open spec fn adds_pending(earlier: Seq<Thunk>, later: Seq<Thunk>, node: Node) -> bool {
    &&& later.len() == earlier.len() + 1
    &&& later.drop_last() == earlier
    &&& later.last() is UThunk
    &&& node is ThunkRef
    &&& node->ThunkRef_0 == earlier.len()
    &&& forall|other: Node|
        other.below(earlier.len() as int) ==> #[trigger] value(later, other) == value(
            earlier,
            other,
        )
}

/// Puts a deferred computation into a new cell and returns the reference
/// to it. The computation is not run, and no other cell is touched.
pub fn thunk(boxed_t: Box<dyn ThunkEval>, store: &mut Store) -> (node: Node)
    ensures
        wf(final(store)@),
        adds_pending(old(store)@, final(store)@, node),
        final(store)@.last()->UThunk_0 == boxed_t,
        value(final(store)@, node) == follow(
            old(store)@,
            old(store)@.len(),
            match values(old(store)@, boxed_t.operands(), old(store)@.len()) {
                Ok(forced) => boxed_t.outcome(forced),
                Err(fault) => Err(fault),
            },
        ),
{
    let cell = Thunk::UThunk(boxed_t);
    let at = store.push_cell(cell);
    proof {
        let before = old(store)@;
        let now = store@;
        assert(now.drop_last() =~= before);
        lemma_values_extends(before, now, boxed_t.operands(), before.len());
        match handed_back(now, before.len() as int) {
            Err(_) => {},
            Ok(v) => {
                if v.below(before.len() as int) {
                    lemma_value_extends(before, now, v);
                }
            },
        }
        assert forall|other: Node| other.below(before.len() as int) implies #[trigger] value(
            now,
            other,
        ) == value(before, other) by {
            lemma_value_extends(before, now, other);
        }
    }
    Node::ThunkRef(at)
}

/// A node that stands for the sum of `nl` and `nr`.
/// Nothing is computed until the node is forced.
pub fn add(nl: Node, nr: Node, store: &mut Store) -> (node: Node)
    ensures
        wf(final(store)@),
        adds_pending(old(store)@, final(store)@, node),
        final(store)@.last()->UThunk_0.operands() == seq![nl, nr],
        forall|forced: Seq<Node>| #[trigger]
            final(store)@.last()->UThunk_0.outcome(forced) == sum(forced[0], forced[1]),
        value(final(store)@, node) == binary(
            old(store)@,
            nl,
            nr,
            |vl: Node, vr: Node| sum(vl, vr),
        ),
{
    proof {
        lemma_values_pair(old(store)@, nl, nr, old(store)@.len());
    }
    thunk(Box::new(AddThunk { nl, nr }), store)
}

/// A node that stands for the difference of `nl` and `nr`.
/// Nothing is computed until the node is forced.
pub fn sub(nl: Node, nr: Node, store: &mut Store) -> (node: Node)
    ensures
        wf(final(store)@),
        adds_pending(old(store)@, final(store)@, node),
        final(store)@.last()->UThunk_0.operands() == seq![nl, nr],
        forall|forced: Seq<Node>| #[trigger]
            final(store)@.last()->UThunk_0.outcome(forced) == difference(forced[0], forced[1]),
        value(final(store)@, node) == binary(
            old(store)@,
            nl,
            nr,
            |vl: Node, vr: Node| difference(vl, vr),
        ),
{
    proof {
        lemma_values_pair(old(store)@, nl, nr, old(store)@.len());
    }
    thunk(Box::new(SubThunk { nl, nr }), store)
}

/// A node that stands for the quotient of `nl` by `nr`, rounded toward zero.
/// Nothing is computed until the node is forced.
pub fn div(nl: Node, nr: Node, store: &mut Store) -> (node: Node)
    ensures
        wf(final(store)@),
        adds_pending(old(store)@, final(store)@, node),
        final(store)@.last()->UThunk_0.operands() == seq![nl, nr],
        forall|forced: Seq<Node>| #[trigger]
            final(store)@.last()->UThunk_0.outcome(forced) == quotient(forced[0], forced[1]),
        value(final(store)@, node) == binary(
            old(store)@,
            nl,
            nr,
            |vl: Node, vr: Node| quotient(vl, vr),
        ),
{
    proof {
        lemma_values_pair(old(store)@, nl, nr, old(store)@.len());
    }
    thunk(Box::new(DivThunk { nl, nr }), store)
}

/// A node that stands for the product of `nl` and `nr`.
/// Nothing is computed until the node is forced.
pub fn mul(nl: Node, nr: Node, store: &mut Store) -> (node: Node)
    ensures
        wf(final(store)@),
        adds_pending(old(store)@, final(store)@, node),
        final(store)@.last()->UThunk_0.operands() == seq![nl, nr],
        forall|forced: Seq<Node>| #[trigger]
            final(store)@.last()->UThunk_0.outcome(forced) == product(forced[0], forced[1]),
        value(final(store)@, node) == binary(
            old(store)@,
            nl,
            nr,
            |vl: Node, vr: Node| product(vl, vr),
        ),
{
    proof {
        lemma_values_pair(old(store)@, nl, nr, old(store)@.len());
    }
    thunk(Box::new(MulThunk { nl, nr }), store)
}

} // verus!

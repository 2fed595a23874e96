use lazy_eval::builtins;
use lazy_eval::builtins::make_int;
use lazy_eval::fault::{ArithmeticFault, Fault};
use lazy_eval::node::{Node, Thunk, ThunkEval};
use lazy_eval::store::Store;

/// A computation that depends on one node and yields a fixed integer.
struct After {
    operand: Node,
}

impl ThunkEval for After {
    // The two ghost methods exist for the verifier only and are never called.
    fn operands(&self) -> vstd::seq::Seq<Node> {
        panic!()
    }

    fn outcome(&self, _forced: vstd::seq::Seq<Node>) -> Result<Node, Fault> {
        panic!()
    }

    fn needs(&self) -> Vec<Node> {
        vec![self.operand]
    }

    fn eval(&self, _forced: &Vec<Node>) -> Result<Node, Fault> {
        Ok(Node::Int(1))
    }
}

/// A computation without operands that hands back a further reference.
struct Defer {
    further: Node,
}

impl ThunkEval for Defer {
    // The two ghost methods exist for the verifier only and are never called.
    fn operands(&self) -> vstd::seq::Seq<Node> {
        panic!()
    }

    fn outcome(&self, _forced: vstd::seq::Seq<Node>) -> Result<Node, Fault> {
        panic!()
    }

    fn needs(&self) -> Vec<Node> {
        Vec::new()
    }

    fn eval(&self, _forced: &Vec<Node>) -> Result<Node, Fault> {
        Ok(self.further)
    }
}

#[test]
fn further_reference_to_an_older_cell_is_forced_in_turn() {
    let mut store = Store::new();
    let early = builtins::add(make_int(1), make_int(2), &mut store);
    let late = builtins::thunk(Box::new(Defer { further: early }), &mut store);
    assert_eq!(late.eval(&mut store), Ok(Node::Int(3)));
    assert!(matches!(store.cell(0), Some(Thunk::EThunk(Node::Int(3)))));
    assert!(matches!(store.cell(1), Some(Thunk::EThunk(Node::Int(3)))));
}

#[test]
fn further_reference_to_its_own_cell() {
    let mut store = Store::new();
    let node = builtins::thunk(Box::new(Defer { further: Node::ThunkRef(0) }), &mut store);
    assert_eq!(node.eval(&mut store), Err(Fault::InvariantViolation));
    assert!(matches!(store.cell(0), Some(Thunk::UThunk(_))));
}

#[test]
fn further_reference_to_a_later_cell() {
    let mut store = Store::new();
    let early = builtins::thunk(Box::new(Defer { further: Node::ThunkRef(1) }), &mut store);
    let late = builtins::add(make_int(1), make_int(2), &mut store);
    assert_eq!(early.eval(&mut store), Err(Fault::InvariantViolation));
    assert!(matches!(store.cell(1), Some(Thunk::UThunk(_))));
    assert_eq!(late.eval(&mut store), Ok(Node::Int(3)));
}

#[test]
fn further_reference_to_no_cell() {
    let mut store = Store::new();
    let node = builtins::thunk(Box::new(Defer { further: Node::ThunkRef(9) }), &mut store);
    assert_eq!(node.eval(&mut store), Err(Fault::InvariantViolation));
}

#[test]
fn fault_of_a_further_reference_is_the_fault_of_the_cell() {
    let mut store = Store::new();
    let bad = builtins::div(make_int(1), make_int(0), &mut store);
    let node = builtins::thunk(Box::new(Defer { further: bad }), &mut store);
    assert_eq!(
        node.eval(&mut store),
        Err(Fault::Arithmetic(ArithmeticFault::DivisionByZero))
    );
    assert!(matches!(store.cell(1), Some(Thunk::UThunk(_))));
}

#[test]
fn reference_to_no_cell_is_an_invariant_violation() {
    let mut store = Store::new();
    assert_eq!(Node::ThunkRef(0).eval(&mut store), Err(Fault::InvariantViolation));
    assert_eq!(Node::ThunkRef(7).reduce(&mut store), Err(Fault::InvariantViolation));
    assert_eq!(store.len(), 0);
}

#[test]
fn operand_that_refers_to_no_cell() {
    let mut store = Store::new();
    let node = builtins::add(make_int(1), Node::ThunkRef(5), &mut store);
    assert_eq!(node, Node::ThunkRef(0));
    assert_eq!(node.eval(&mut store), Err(Fault::InvariantViolation));
    assert!(matches!(store.cell(0), Some(Thunk::UThunk(_))));
}

#[test]
fn left_fault_comes_before_a_missing_right_operand() {
    let mut store = Store::new();
    let bad = builtins::div(make_int(1), make_int(0), &mut store);
    let node = builtins::add(bad, Node::ThunkRef(9), &mut store);
    assert!(matches!(node.eval(&mut store), Err(Fault::Arithmetic(_))));
}

#[test]
fn computation_that_depends_on_its_own_cell() {
    let mut store = Store::new();
    let node = builtins::thunk(Box::new(After { operand: Node::ThunkRef(0) }), &mut store);
    assert_eq!(node, Node::ThunkRef(0));
    assert_eq!(node.eval(&mut store), Err(Fault::InvariantViolation));
}

#[test]
fn computation_that_depends_on_a_later_cell() {
    let mut store = Store::new();
    let early = builtins::thunk(Box::new(After { operand: Node::ThunkRef(1) }), &mut store);
    let late = builtins::add(make_int(1), make_int(2), &mut store);
    assert_eq!(early.eval(&mut store), Err(Fault::InvariantViolation));
    assert!(matches!(store.cell(1), Some(Thunk::UThunk(_))));
    assert_eq!(late.eval(&mut store), Ok(Node::Int(3)));
}

#[test]
fn computation_that_depends_on_an_earlier_cell() {
    let mut store = Store::new();
    let early = builtins::add(make_int(1), make_int(2), &mut store);
    let late = builtins::thunk(Box::new(After { operand: early }), &mut store);
    assert_eq!(late.eval(&mut store), Ok(Node::Int(1)));
    assert!(matches!(store.cell(0), Some(Thunk::EThunk(Node::Int(3)))));
}

#[test]
fn debug_of_a_reference_to_no_cell() {
    let store = Store::new();
    assert_eq!(Node::ThunkRef(3).debug(&store), "#[UNEVALED]");
    assert_eq!(store.debug_cell(3), "#[UNEVALED]");
    assert_eq!(Node::ThunkRef(3).display(&store), Err(Fault::PrematureDisplay));
}

#[test]
fn older_than_compares_positions() {
    assert!(Node::Int(9).older_than(0));
    assert!(Node::ThunkRef(0).older_than(1));
    assert!(!Node::ThunkRef(1).older_than(1));
    assert!(!Node::ThunkRef(2).older_than(1));
}

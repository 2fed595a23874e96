use lazy_eval::builtins;
use lazy_eval::builtins::{eval_add, eval_div, eval_mul, eval_sub, make_int};
use lazy_eval::fault::{ArithmeticFault, Fault, Side};
use lazy_eval::node::{Node, ThunkEval};
use lazy_eval::store::Store;

/// A computation without operands that hands back a further reference.
struct Alias {
    target: Node,
}

impl ThunkEval for Alias {
    // The two ghost methods exist for the verifier only and are never called.
    fn operands(&self) -> vstd::seq::Seq<Node> {
        panic!()
    }

    fn outcome(&self, _forced: vstd::seq::Seq<Node>) -> Result<Node, Fault> {
        panic!()
    }

    fn needs(&self) -> Vec<Node> {
        Vec::new()
    }

    fn eval(&self, _forced: &Vec<Node>) -> Result<Node, Fault> {
        Ok(self.target)
    }
}

/// A computation that hands its operands to an operator as they come and
/// records what it was given.
struct Given {
    operands: Vec<Node>,
    seen: std::rc::Rc<std::cell::RefCell<Vec<Node>>>,
}

impl ThunkEval for Given {
    // The two ghost methods exist for the verifier only and are never called.
    fn operands(&self) -> vstd::seq::Seq<Node> {
        panic!()
    }

    fn outcome(&self, _forced: vstd::seq::Seq<Node>) -> Result<Node, Fault> {
        panic!()
    }

    fn needs(&self) -> Vec<Node> {
        self.operands.clone()
    }

    fn eval(&self, forced: &Vec<Node>) -> Result<Node, Fault> {
        *self.seen.borrow_mut() = forced.clone();
        eval_add(forced[0], forced[1])
    }
}

fn overflow() -> Result<Node, Fault> {
    Err(Fault::Arithmetic(ArithmeticFault::Overflow))
}

fn division_by_zero() -> Result<Node, Fault> {
    Err(Fault::Arithmetic(ArithmeticFault::DivisionByZero))
}

#[test]
fn make_int_is_the_integer_node() {
    assert_eq!(make_int(7), Node::Int(7));
    assert_eq!(make_int(i64::MIN), Node::Int(i64::MIN));
}

#[test]
fn integer_evaluates_to_itself() {
    let mut store = Store::new();
    assert_eq!(make_int(42).eval(&mut store), Ok(Node::Int(42)));
    assert_eq!(store.len(), 0);
}

#[test]
fn add_two_and_three() {
    let mut store = Store::new();
    let node = builtins::add(make_int(2), make_int(3), &mut store);
    assert_eq!(node.eval(&mut store), Ok(Node::Int(5)));
}

#[test]
fn nested_add_then_mul() {
    let mut store = Store::new();
    let sum = builtins::add(make_int(2), make_int(3), &mut store);
    let node = builtins::mul(sum, make_int(4), &mut store);
    assert_eq!(node.eval(&mut store), Ok(Node::Int(20)));
}

#[test]
fn sub_and_mul_results() {
    let mut store = Store::new();
    let difference = builtins::sub(make_int(2), make_int(5), &mut store);
    assert_eq!(difference.eval(&mut store), Ok(Node::Int(-3)));
    let product = builtins::mul(make_int(-6), make_int(7), &mut store);
    assert_eq!(product.eval(&mut store), Ok(Node::Int(-42)));
}

#[test]
fn div_truncates_toward_zero() {
    let mut store = Store::new();
    let cases = [(7, 2, 3), (-7, 2, -3), (7, -2, -3), (-7, -2, 3), (0, 5, 0), (6, 3, 2)];
    for (l, r, expected) in cases {
        let node = builtins::div(make_int(l), make_int(r), &mut store);
        assert_eq!(node.eval(&mut store), Ok(Node::Int(expected)));
    }
}

#[test]
fn div_by_zero_is_an_arithmetic_fault() {
    let mut store = Store::new();
    let node = builtins::div(make_int(5), make_int(0), &mut store);
    assert_eq!(node.eval(&mut store), division_by_zero());
}

#[test]
fn overflow_is_an_arithmetic_fault() {
    let mut store = Store::new();
    let node = builtins::add(make_int(i64::MAX), make_int(1), &mut store);
    assert_eq!(node.eval(&mut store), overflow());
    let node = builtins::sub(make_int(i64::MIN), make_int(1), &mut store);
    assert_eq!(node.eval(&mut store), overflow());
    let node = builtins::mul(make_int(i64::MAX), make_int(2), &mut store);
    assert_eq!(node.eval(&mut store), overflow());
    let node = builtins::div(make_int(i64::MIN), make_int(-1), &mut store);
    assert_eq!(node.eval(&mut store), overflow());
}

#[test]
fn extremes_that_fit() {
    let mut store = Store::new();
    let node = builtins::add(make_int(i64::MAX), make_int(0), &mut store);
    assert_eq!(node.eval(&mut store), Ok(Node::Int(i64::MAX)));
    let node = builtins::sub(make_int(i64::MIN), make_int(0), &mut store);
    assert_eq!(node.eval(&mut store), Ok(Node::Int(i64::MIN)));
    let node = builtins::add(make_int(i64::MIN), make_int(i64::MAX), &mut store);
    assert_eq!(node.eval(&mut store), Ok(Node::Int(-1)));
    let node = builtins::div(make_int(i64::MIN), make_int(1), &mut store);
    assert_eq!(node.eval(&mut store), Ok(Node::Int(i64::MIN)));
    let node = builtins::mul(make_int(i64::MIN), make_int(1), &mut store);
    assert_eq!(node.eval(&mut store), Ok(Node::Int(i64::MIN)));
}

#[test]
fn right_operand_not_an_integer() {
    let reference = Node::ThunkRef(3);
    assert_eq!(
        eval_add(make_int(1), reference),
        Err(Fault::TypeMismatch { side: Side::Right, observed: reference })
    );
}

#[test]
fn left_operand_not_an_integer() {
    let reference = Node::ThunkRef(3);
    assert_eq!(
        eval_mul(reference, make_int(1)),
        Err(Fault::TypeMismatch { side: Side::Left, observed: reference })
    );
}

#[test]
fn left_mismatch_is_reported_before_right() {
    let first = Node::ThunkRef(0);
    let second = Node::ThunkRef(1);
    assert_eq!(
        eval_sub(first, second),
        Err(Fault::TypeMismatch { side: Side::Left, observed: first })
    );
}

#[test]
fn evaluation_gives_an_integer_never_a_reference() {
    let mut store = Store::new();
    let inner = builtins::add(make_int(2), make_int(3), &mut store);
    let alias = builtins::thunk(Box::new(Alias { target: inner }), &mut store);
    let twice = builtins::thunk(Box::new(Alias { target: alias }), &mut store);
    assert_eq!(twice.eval(&mut store), Ok(Node::Int(5)));
    assert_eq!(alias.eval(&mut store), Ok(Node::Int(5)));
    assert_eq!(inner.eval(&mut store), Ok(Node::Int(5)));
}

#[test]
fn further_reference_is_a_good_operand() {
    let mut store = Store::new();
    let inner = builtins::add(make_int(2), make_int(3), &mut store);
    let alias = builtins::thunk(Box::new(Alias { target: inner }), &mut store);
    let node = builtins::add(make_int(1), alias, &mut store);
    assert_eq!(node.eval(&mut store), Ok(Node::Int(6)));
    let node = builtins::mul(alias, alias, &mut store);
    assert_eq!(node.eval(&mut store), Ok(Node::Int(25)));
}

#[test]
fn computation_is_given_integers() {
    let seen = std::rc::Rc::new(std::cell::RefCell::new(Vec::new()));
    let mut store = Store::new();
    let inner = builtins::add(make_int(2), make_int(3), &mut store);
    let alias = builtins::thunk(Box::new(Alias { target: inner }), &mut store);
    let given = Given { operands: vec![alias, inner], seen: seen.clone() };
    let node = builtins::thunk(Box::new(given), &mut store);
    assert_eq!(node.eval(&mut store), Ok(Node::Int(10)));
    assert_eq!(*seen.borrow(), vec![Node::Int(5), Node::Int(5)]);
}

#[test]
fn operators_on_forced_operands() {
    assert_eq!(eval_add(Node::Int(2), Node::Int(3)), Ok(Node::Int(5)));
    assert_eq!(eval_sub(Node::Int(2), Node::Int(3)), Ok(Node::Int(-1)));
    assert_eq!(eval_mul(Node::Int(2), Node::Int(3)), Ok(Node::Int(6)));
    assert_eq!(eval_div(Node::Int(7), Node::Int(2)), Ok(Node::Int(3)));
    assert_eq!(eval_div(Node::Int(7), Node::Int(0)), division_by_zero());
    assert_eq!(eval_add(Node::Int(i64::MAX), Node::Int(1)), overflow());
}

#[test]
fn operators_reject_references() {
    let reference = Node::ThunkRef(0);
    let left = Err(Fault::TypeMismatch { side: Side::Left, observed: reference });
    let right = Err(Fault::TypeMismatch { side: Side::Right, observed: reference });
    assert_eq!(eval_add(reference, Node::Int(1)), left);
    assert_eq!(eval_add(Node::Int(1), reference), right);
    assert_eq!(eval_sub(reference, reference), left);
    assert_eq!(eval_mul(Node::Int(0), reference), right);
    assert_eq!(eval_div(reference, Node::Int(0)), left);
    assert_eq!(eval_div(Node::Int(1), reference), right);
}

#[test]
fn fault_of_an_operand_is_the_fault_of_the_operation() {
    let mut store = Store::new();
    let bad = builtins::div(make_int(1), make_int(0), &mut store);
    let outer = builtins::add(make_int(1), bad, &mut store);
    let outermost = builtins::mul(outer, make_int(2), &mut store);
    assert_eq!(outermost.eval(&mut store), division_by_zero());
}

#[test]
fn deep_chain_of_additions() {
    let mut store = Store::new();
    let mut node = make_int(0);
    for _ in 0..500 {
        node = builtins::add(node, make_int(1), &mut store);
    }
    assert_eq!(store.len(), 500);
    assert_eq!(node.eval(&mut store), Ok(Node::Int(500)));
}

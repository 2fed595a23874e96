//! The two textual forms of a node.
//!
//! The user-facing form is that of an integer: a node has to be forced
//! before it is shown. The diagnostic form exists for every node and shows
//! the state of its cell. Neither forces anything.

use crate::fault::Fault;
use crate::node::{Node, Thunk};
use crate::semantics::terminal;
use crate::store::Store;
use vstd::prelude::*;
use vstd::string::StringExecFns;

verus! {

/// The character of a decimal digit.
pub open spec fn digit(d: int) -> char
    recommends
        0 <= d < 10,
{
    seq!['0', '1', '2', '3', '4', '5', '6', '7', '8', '9'][d]
}

/// The decimal digits of a natural number, without leading zeros.
pub open spec fn decimal_digits(n: nat) -> Seq<char>
    decreases n,
{
    if n < 10 {
        seq![digit(n as int)]
    } else {
        decimal_digits(n / 10).push(digit((n % 10) as int))
    }
}

/// The decimal form of an integer: a minus sign if it is negative, then
/// the digits of its magnitude.
pub open spec fn decimal(i: int) -> Seq<char> {
    if i < 0 {
        seq!['-'] + decimal_digits((-i) as nat)
    } else {
        decimal_digits(i as nat)
    }
}

/// The diagnostic form of an integer: `Int(..)` around its decimal form.
pub open spec fn int_text(i: int) -> Seq<char> {
    "Int("@ + decimal(i) + ")"@
}

/// The diagnostic form of a node: that of an integer, and the form of its
/// cell for a reference.
pub open spec fn debug_text(cells: Seq<Thunk>, node: Node) -> Seq<char> {
    match node {
        Node::Int(i) => int_text(i as int),
        Node::ThunkRef(i) => cell_text(cells, i as int),
    }
}

/// The diagnostic form of the cell at position `i`: `#[..]` around the
/// form of the integer it holds once it was forced, and a fixed marker as
/// long as there is no result. (A store never holds a result that is no
/// integer; it would show as `#[]`.)
pub open spec fn cell_text(cells: Seq<Thunk>, i: int) -> Seq<char> {
    if 0 <= i < cells.len() && cells[i] is EThunk {
        match cells[i]->EThunk_0 {
            Node::Int(k) => "#["@ + int_text(k as int) + "]"@,
            Node::ThunkRef(_) => "#[]"@,
        }
    } else {
        "#[UNEVALED]"@
    }
}

/// The text of one decimal digit.
fn digit_str(d: u64) -> (s: &'static str)
    requires
        d < 10,
    ensures
        s@ == seq![digit(d as int)],
{
    proof {
        reveal_strlit("0");
        reveal_strlit("1");
        reveal_strlit("2");
        reveal_strlit("3");
        reveal_strlit("4");
        reveal_strlit("5");
        reveal_strlit("6");
        reveal_strlit("7");
        reveal_strlit("8");
        reveal_strlit("9");
    }
    let s = if d == 0 {
        "0"
    } else if d == 1 {
        "1"
    } else if d == 2 {
        "2"
    } else if d == 3 {
        "3"
    } else if d == 4 {
        "4"
    } else if d == 5 {
        "5"
    } else if d == 6 {
        "6"
    } else if d == 7 {
        "7"
    } else if d == 8 {
        "8"
    } else {
        "9"
    };
    assert(s@ =~= seq![digit(d as int)]);
    s
}

/// Appends the decimal digits of `n` to `out`.
fn push_digits(n: u64, out: &mut String)
    ensures
        final(out)@ == old(out)@ + decimal_digits(n as nat),
    decreases n,
{
    if n >= 10 {
        push_digits(n / 10, out);
    }
    out.append(digit_str(n % 10));
    assert(out@ =~= old(out)@ + decimal_digits(n as nat));
}

/// Appends the decimal form of `i` to `out`.
fn push_decimal(i: i64, out: &mut String)
    ensures
        final(out)@ == old(out)@ + decimal(i as int),
{
    if i < 0 {
        proof {
            reveal_strlit("-");
        }
        out.append("-");
        let magnitude: u64 = if i == i64::MIN {
            9223372036854775808u64
        } else {
            (-i) as u64
        };
        push_digits(magnitude, out);
        assert(out@ =~= old(out)@ + decimal(i as int));
    } else {
        push_digits(i as u64, out);
    }
}

/// Appends the diagnostic form of the integer `i` to `out`.
fn push_int_text(i: i64, out: &mut String)
    ensures
        final(out)@ == old(out)@ + int_text(i as int),
{
    out.append("Int(");
    push_decimal(i, out);
    out.append(")");
    assert(out@ =~= old(out)@ + int_text(i as int));
}

impl Node {
    /// The user-facing form: the decimal form of the integer that the node
    /// shows. A node shows its integer once it was forced; a reference to
    /// a pending cell, or to no cell, shows none, and asking for it is a
    /// fault. Nothing is forced either way.
    pub fn display(&self, store: &Store) -> (r: Result<String, Fault>)
        ensures
            match terminal(store@, *self) {
                Some(i) => r matches Ok(text) && text@ == decimal(i as int),
                None => r == Err::<String, Fault>(Fault::PrematureDisplay),
            },
    {
        let shown = match *self {
            Node::Int(i) => Some(i),
            Node::ThunkRef(at) => match store.cell(at) {
                Some(Thunk::EThunk(Node::Int(i))) => Some(*i),
                _ => None,
            },
        };
        match shown {
            Some(i) => {
                let mut text = String::new();
                push_decimal(i, &mut text);
                assert(text@ =~= decimal(i as int));
                Ok(text)
            },
            None => Err(Fault::PrematureDisplay),
        }
    }

    /// The diagnostic form. It is there for every node, and asking for it
    /// forces nothing.
    pub fn debug(&self, store: &Store) -> (text: String)
        ensures
            text@ == debug_text(store@, *self),
    {
        match *self {
            Node::Int(i) => {
                let mut text = String::new();
                push_int_text(i, &mut text);
                assert(text@ =~= int_text(i as int));
                text
            },
            Node::ThunkRef(i) => store.debug_cell(i),
        }
    }
}

impl Store {
    /// The diagnostic form of the cell at position `i`.
    pub fn debug_cell(&self, i: usize) -> (text: String)
        ensures
            text@ == cell_text(self@, i as int),
    {
        match self.cell(i) {
            Some(Thunk::EThunk(Node::Int(k))) => {
                let mut text = String::from_str("#[");
                push_int_text(*k, &mut text);
                text.append("]");
                text
            },
            Some(Thunk::EThunk(Node::ThunkRef(_))) => String::from_str("#[]"),
            _ => String::from_str("#[UNEVALED]"),
        }
    }
}

} // verus!

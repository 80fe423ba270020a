use vstd::prelude::*;

verus! {

/// The operation a node performs. `Input` nodes carry a name and hold the
/// externally bound scalar; `Pow` carries the bit pattern of its fixed
/// exponent. Scalars everywhere are opaque 32-bit patterns.
pub enum Operation {
    Input(String),
    Add,
    Mul,
    Sin,
    Pow(u32),
}

/// Ghost counterpart of [`Operation`], with the input name as a sequence of
/// characters.
#[verifier::ext_equal]
pub ghost enum OpView {
    Input(Seq<char>),
    Add,
    Mul,
    Sin,
    Pow(u32),
}

impl View for Operation {
    type V = OpView;

    open spec fn view(&self) -> OpView {
        match self {
            Operation::Input(name) => OpView::Input(name@),
            Operation::Add => OpView::Add,
            Operation::Mul => OpView::Mul,
            Operation::Sin => OpView::Sin,
            Operation::Pow(e) => OpView::Pow(*e),
        }
    }
}

/// The number of operands each operation takes.
pub open spec fn arity(op: OpView) -> nat {
    match op {
        OpView::Input(_) => 0,
        OpView::Sin => 1,
        OpView::Pow(_) => 1,
        OpView::Add => 2,
        OpView::Mul => 2,
    }
}

/// One arithmetic step the evaluator needs from its driver: an operation
/// applied to already-resolved operand values, all as bit patterns. For
/// `Pow`, the second component is the node's fixed exponent.
#[derive(Clone, Copy, Debug, PartialEq, Eq)]
pub enum Request {
    Add(u32, u32),
    Mul(u32, u32),
    Sin(u32),
    Pow(u32, u32),
}

} // verus!

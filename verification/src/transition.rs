//! States and transitions of the finite state machine.

use vstd::prelude::*;

verus! {

/// Dense, zero-based index of a state of the machine, assigned during
/// derivation. Independent of node ids: erased nodes get no state.
#[derive(Debug, Clone, Copy, PartialEq, Eq, Hash, Structural)]
pub struct StateId(pub usize);

/// One condition-labelled transition between two states; immutable.
#[derive(Debug)]
pub struct Transition {
    from: StateId,
    to: StateId,
    condition: Option<String>,
}

/// Mathematical image of a transition.
pub ghost struct TransView {
    pub from: int,
    pub to: int,
    pub cond: Option<Seq<char>>,
}

impl View for Transition {
    type V = TransView;

    closed spec fn view(&self) -> TransView {
        TransView {
            from: self.from.0 as int,
            to: self.to.0 as int,
            cond: match self.condition {
                Option::Some(c) => Option::Some(c@),
                Option::None => Option::None,
            },
        }
    }
}

impl Transition {
    pub fn new(from: StateId, to: StateId, condition: Option<String>) -> (r: Transition)
        ensures
            r@ == (TransView {
                from: from.0 as int,
                to: to.0 as int,
                cond: match condition {
                    Option::Some(c) => Option::Some(c@),
                    Option::None => Option::None,
                },
            }),
    {
        Transition { from, to, condition }
    }

    /// The source state.
    pub fn from(&self) -> (r: StateId)
        ensures
            r.0 as int == self@.from,
    {
        self.from
    }

    /// The target state.
    pub fn to(&self) -> (r: StateId)
        ensures
            r.0 as int == self@.to,
    {
        self.to
    }

    /// The condition under which the transition is taken, if any.
    pub fn condition(&self) -> (r: &Option<String>)
        ensures
            match r {
                Option::Some(c) => self@.cond == Option::Some(c@),
                Option::None => self@.cond is None,
            },
    {
        &self.condition
    }
}

} // verus!

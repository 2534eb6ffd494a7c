//! The resolved machine: a dense table of states, each with one rule per
//! symbol, and the index of the state in which a run begins.

use vstd::prelude::*;

verus! {

/// Number of reserved terminal states; they occupy the indices below it.
pub const RESERVED: usize = 5;

/// Head movement after a transition.
#[derive(Clone, Copy, Debug, PartialEq, Eq, Structural)]
pub enum Direction {
    L,
    R,
    Stay,
}

/// The tape alphabet. `A` is the blank that fills cells never written.
#[derive(Clone, Copy, Debug, PartialEq, Eq, Structural)]
pub enum Symbol {
    A,
    B,
}

/// What happens when one symbol is read in one state.
#[derive(Clone, Copy, Debug, PartialEq, Eq, Structural)]
pub struct Transition {
    pub next: usize,
    pub mov: Direction,
    pub write: Symbol,
}

/// The two rules of a state, by the symbol under the head.
#[derive(Clone, Copy, Debug, PartialEq, Eq, Structural)]
pub struct State {
    pub on_a: Transition,
    pub on_b: Transition,
}

/// A machine: states addressed by index, and the start index.
#[derive(Debug, PartialEq, Eq)]
pub struct Tm {
    pub states: Vec<State>,
    pub start_state: Option<usize>,
}

/// The table entry of the reserved state `i`: it stays where it is, writes
/// back what it read and does not move.
pub open spec fn reserved_state(i: int) -> State {
    State {
        on_a: Transition { next: i as usize, mov: Direction::Stay, write: Symbol::A },
        on_b: Transition { next: i as usize, mov: Direction::Stay, write: Symbol::B },
    }
}

/// Every rule of the table leads to a state of the table.
pub open spec fn table_closed(table: Seq<State>) -> bool {
    forall|i: int|
        0 <= i < table.len() ==> (#[trigger] table[i]).on_a.next < table.len()
            && table[i].on_b.next < table.len()
}

/// The rule that `table` holds for `state` reading `sym`.
pub open spec fn rule_of(table: Seq<State>, state: int, sym: Symbol) -> Transition {
    if sym == Symbol::A {
        table[state].on_a
    } else {
        table[state].on_b
    }
}

impl Tm {
    /// A machine as the builder leaves it: closed, with the reserved states
    /// in front and a start state behind them.
    pub open spec fn wf(&self) -> bool {
        &&& self.states@.len() >= RESERVED
        &&& table_closed(self.states@)
        &&& forall|i: int| 0 <= i < RESERVED ==> self.states@[i] == reserved_state(i)
        &&& self.start_state matches Some(s) && RESERVED <= s < self.states@.len()
    }

    /// The rule for `state` reading `sym`.
    pub fn rule(&self, state: usize, sym: Symbol) -> (t: Transition)
        requires
            state < self.states@.len(),
        ensures
            t == rule_of(self.states@, state as int, sym),
    {
        match sym {
            Symbol::A => self.states[state].on_a,
            Symbol::B => self.states[state].on_b,
        }
    }
}

impl Default for Tm {
    fn default() -> (tm: Tm)
        ensures
            tm.states@.len() == 0,
            tm.start_state is None,
    {
        Tm { states: Vec::new(), start_state: None }
    }
}

/// Whether `state` is one of the reserved terminal states.
pub fn is_terminal(state: usize) -> (t: bool)
    ensures
        t == (state < RESERVED),
{
    state < RESERVED
}

} // verus!

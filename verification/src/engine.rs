//! The execution engine: a tape that grows to the right as the head gets
//! there, the head, the current state and the step counter, moved on one
//! transition at a time.

use vstd::prelude::*;
use crate::counter::{digits_value, StepCounter};
use crate::machine::{
    reserved_state, rule_of, table_closed, Direction, State, Symbol, Tm, Transition, RESERVED,
};

verus! {

/// Where the head stands when a run begins. Being off the left end, it
/// leaves a little room to move left.
pub const FIRST_HEAD: usize = 2;

/// The symbol in cell `i` of a tape: what was written there, or the blank
/// where the tape has not got to yet.
pub open spec fn cell(tape: Seq<Symbol>, i: int) -> Symbol {
    if 0 <= i < tape.len() {
        tape[i]
    } else {
        Symbol::A
    }
}

/// The length of a tape once the head at `head` is on it: as it is where
/// the head is on it already, else twice the head's index.
pub open spec fn grown_len(len: int, head: int) -> int {
    if head < len {
        len
    } else if head == 0 {
        1
    } else {
        2 * head
    }
}

/// The tape once the head at `head` is on it, its new cells blank.
pub open spec fn grown(tape: Seq<Symbol>, head: int) -> Seq<Symbol> {
    Seq::new(grown_len(tape.len() as int, head) as nat, |i: int| cell(tape, i))
}

/// The tape after `sym` was written under the head at `head`.
pub open spec fn written(tape: Seq<Symbol>, head: int, sym: Symbol) -> Seq<Symbol> {
    grown(tape, head).update(head, sym)
}

/// The head's index after a move.
pub open spec fn moved(head: int, mov: Direction) -> int {
    match mov {
        Direction::L => head - 1,
        Direction::R => head + 1,
        Direction::Stay => head,
    }
}

/// A run at one moment: the tape, the head, the current state, and the
/// steps counted, those folded and those still pending.
pub struct Config {
    pub tape: Seq<Symbol>,
    pub head: nat,
    pub state: nat,
    pub folded: nat,
    pub pending: nat,
}

/// The steps that `c` has counted.
pub open spec fn steps_of(c: Config) -> nat {
    c.folded + c.pending
}

/// Whether the step that follows `c` folds the pending count.
pub open spec fn folds(threshold: nat, verbose: bool, c: Config) -> bool {
    verbose || c.pending + 1 == threshold
}

/// The rule that applies in `c`.
pub open spec fn rule_in(table: Seq<State>, c: Config) -> Transition {
    rule_of(table, c.state as int, cell(c.tape, c.head as int))
}

/// One step from `c`. The step is counted, and the count folded where it
/// is due. The symbol under the head is read, the rule for it is looked up,
/// its symbol is written and its state entered. Only where that state is
/// not a reserved one does the head move. There is no step where the head
/// would leave the tape on the left.
pub open spec fn successor(table: Seq<State>, threshold: nat, verbose: bool, c: Config) -> Option<
    Config,
> {
    let rule = rule_in(table, c);
    let halts = rule.next < RESERVED;
    if !halts && rule.mov == Direction::L && c.head == 0 {
        None
    } else {
        Some(
            Config {
                tape: written(c.tape, c.head as int, rule.write),
                head: if halts {
                    c.head
                } else {
                    moved(c.head as int, rule.mov) as nat
                },
                state: rule.next as nat,
                folded: if folds(threshold, verbose, c) {
                    c.folded + c.pending + 1
                } else {
                    c.folded
                },
                pending: if folds(threshold, verbose, c) {
                    0
                } else {
                    c.pending + 1
                },
            },
        )
    }
}

/// `k` steps from `c`, one after the other, whether or not a reserved
/// state is reached on the way.
pub open spec fn after(table: Seq<State>, threshold: nat, verbose: bool, c: Config, k: nat) -> Option<
    Config,
>
    decreases k,
{
    if k == 0 {
        Some(c)
    } else {
        match after(table, threshold, verbose, c, (k - 1) as nat) {
            Some(before) => successor(table, threshold, verbose, before),
            None => None,
        }
    }
}

/// The head of `c` is at the end of the tape or behind it, and twice its
/// index is more than a machine word holds.
pub open spec fn tape_limit(c: Config) -> bool {
    c.head >= c.tape.len() && 2 * c.head > usize::MAX
}

/// Whether a run goes on.
#[derive(Clone, Copy, Debug, PartialEq, Eq, Structural)]
pub enum Status {
    Running,
    Halted,
}

/// Why a step could not be made.
#[derive(Clone, Copy, Debug, PartialEq, Eq, Structural)]
pub enum Fault {
    /// The head is at the left end of the tape and the rule moves it left.
    LeftOfTape,
    /// The head is at the end of the tape, and twice its index is more than
    /// a machine word holds.
    TapeLimit,
}

/// What a trace line shows: a step count, as base 2^32 digits with the
/// least significant first, and a state.
#[derive(Debug, PartialEq, Eq)]
pub struct TraceLine {
    pub total: Vec<u32>,
    pub state: usize,
}

/// What a step hands back: the trace line that is due with it, if any, and
/// whether the run goes on.
#[derive(Debug, PartialEq, Eq)]
pub struct StepReport {
    pub trace: Option<TraceLine>,
    pub status: Status,
}

/// A run of a machine.
#[derive(Debug)]
pub struct Simulation {
    pub tape: Vec<Symbol>,
    pub head: usize,
    pub state: usize,
    pub steps: StepCounter,
    /// With it every step folds the count and has its trace line.
    pub verbose: bool,
}

impl View for Simulation {
    type V = Config;

    open spec fn view(&self) -> Config {
        Config {
            tape: self.tape@,
            head: self.head as nat,
            state: self.state as nat,
            folded: digits_value(self.steps.folded@),
            pending: self.steps.pending as nat,
        }
    }
}

/// The symbol under the head at `head`.
pub fn read_cell(tape: &Vec<Symbol>, head: usize) -> (sym: Symbol)
    ensures
        sym == cell(tape@, head as int),
{
    if head < tape.len() {
        tape[head]
    } else {
        Symbol::A
    }
}

/// Writes `sym` under the head at `head`, after the tape has grown as far
/// as the head asks for.
pub fn write_cell(tape: &mut Vec<Symbol>, head: usize, sym: Symbol)
    requires
        head < old(tape)@.len() || 2 * head <= usize::MAX,
    ensures
        final(tape)@ == written(old(tape)@, head as int, sym),
{
    if head >= tape.len() {
        let ghost before = tape@;
        let len: usize = if head == 0 {
            1
        } else {
            2 * head
        };
        tape.resize(len, Symbol::A);
        assert(tape@ =~= grown(before, head as int)) by {
            assert(tape@.len() == len);
            assert forall|i: int| 0 <= i < len implies tape@[i] == cell(before, i) by {
                if i < before.len() {
                    assert(tape@.subrange(0, before.len() as int)[i] == before[i]);
                }
            }
        }
    } else {
        assert(tape@ =~= grown(tape@, head as int));
    }
    tape.set(head, sym);
}

impl Simulation {
    /// What `step` needs: the current state is one of the machine, and the
    /// pending count is below the threshold.
    pub open spec fn wf(&self, tm: &Tm) -> bool {
        self.state < tm.states@.len() && self.steps.wf()
    }

    /// A run about to begin in the state `start`: nothing on the tape, and
    /// no step counted.
    pub fn new(start: usize, verbose: bool, threshold: usize) -> (sim: Simulation)
        requires
            threshold >= 1,
        ensures
            sim@ == (Config {
                tape: Seq::empty(),
                head: FIRST_HEAD as nat,
                state: start as nat,
                folded: 0,
                pending: 0,
            }),
            sim.verbose == verbose,
            sim.steps.threshold == threshold,
            sim.steps.wf(),
    {
        Simulation {
            tape: Vec::new(),
            head: FIRST_HEAD,
            state: start,
            steps: StepCounter::new(threshold),
            verbose,
        }
    }

    /// The line that opens the trace: no step, and the current state.
    pub fn first_line(&self) -> (line: TraceLine)
        ensures
            line.total@ == Seq::<u32>::empty(),
            line.state == self.state,
    {
        TraceLine { total: Vec::new(), state: self.state }
    }

    /// The line that closes the trace: every step counted, and the current
    /// state.
    pub fn last_line(&self) -> (line: TraceLine)
        ensures
            digits_value(line.total@) == steps_of(self@),
            line.state == self.state,
    {
        TraceLine { total: self.steps.total_digits(), state: self.state }
    }

    /// Makes one step. Where the step cannot be made the fault is returned
    /// and the run is left as it was.
    pub fn step(&mut self, tm: &Tm) -> (r: Result<StepReport, Fault>)
        requires
            table_closed(tm.states@),
            old(self).wf(tm),
        ensures
            final(self).verbose == old(self).verbose,
            final(self).steps.threshold == old(self).steps.threshold,
            final(self).wf(tm),
            match r {
                Ok(report) => {
                    &&& !tape_limit(old(self)@)
                    &&& successor(
                        tm.states@,
                        old(self).steps.threshold as nat,
                        old(self).verbose,
                        old(self)@,
                    ) == Some(final(self)@)
                    &&& report.status == if final(self).state < RESERVED {
                        Status::Halted
                    } else {
                        Status::Running
                    }
                    &&& match report.trace {
                        Some(line) => {
                            &&& folds(
                                old(self).steps.threshold as nat,
                                old(self).verbose,
                                old(self)@,
                            )
                            &&& digits_value(line.total@) == steps_of(final(self)@)
                            &&& line.state == old(self).state
                        },
                        None => !folds(
                            old(self).steps.threshold as nat,
                            old(self).verbose,
                            old(self)@,
                        ),
                    }
                },
                Err(fault) => {
                    &&& *final(self) == *old(self)
                    &&& fault == if tape_limit(old(self)@) {
                        Fault::TapeLimit
                    } else {
                        Fault::LeftOfTape
                    }
                    &&& tape_limit(old(self)@) || successor(
                        tm.states@,
                        old(self).steps.threshold as nat,
                        old(self).verbose,
                        old(self)@,
                    ) is None
                },
            },
    {
        if self.head >= self.tape.len() && self.head > usize::MAX / 2 {
            return Err(Fault::TapeLimit);
        }
        let sym = read_cell(&self.tape, self.head);
        let rule = tm.rule(self.state, sym);
        let halts = rule.next < RESERVED;
        if !halts && self.head == 0 {
            match rule.mov {
                Direction::L => {
                    return Err(Fault::LeftOfTape);
                },
                _ => {},
            }
        }
        let was = self.state;
        let running = self.steps.tick(self.verbose);
        write_cell(&mut self.tape, self.head, rule.write);
        self.state = rule.next;
        if !halts {
            match rule.mov {
                Direction::L => {
                    self.head = self.head - 1;
                },
                Direction::R => {
                    self.head = self.head + 1;
                },
                Direction::Stay => {},
            }
        }
        let trace = match running {
            Some(total) => Some(TraceLine { total, state: was }),
            None => None,
        };
        Ok(
            StepReport {
                trace,
                status: if halts {
                    Status::Halted
                } else {
                    Status::Running
                },
            },
        )
    }
}

/// Writing under the head changes the cell under the head and no other:
/// where the tape grows for it, every cell written before keeps its symbol.
pub proof fn lemma_cells_kept(tape: Seq<Symbol>, head: nat, sym: Symbol)
    ensures
        cell(written(tape, head as int, sym), head as int) == sym,
        forall|i: int| i != head ==> cell(written(tape, head as int, sym), i) == cell(tape, i),
        written(tape, head as int, sym).len() >= tape.len(),
        written(tape, head as int, sym).len() > head,
{
}

/// Every step is counted once, whether the count is folded on the way or
/// not: after `k` steps the count is `k` more than before.
pub proof fn lemma_steps_counted(
    table: Seq<State>,
    threshold: nat,
    verbose: bool,
    c: Config,
    k: nat,
)
    requires
        after(table, threshold, verbose, c, k) is Some,
    ensures
        steps_of(after(table, threshold, verbose, c, k)->Some_0) == steps_of(c) + k,
    decreases k,
{
    if k > 0 {
        lemma_steps_counted(table, threshold, verbose, c, (k - 1) as nat);
    }
}

/// A reserved state is never left: where the table holds the reserved
/// entries, steps made from a reserved state, however many, change neither
/// the state nor the head nor the symbol in any cell.
pub proof fn lemma_reserved_absorbs(
    table: Seq<State>,
    threshold: nat,
    verbose: bool,
    c: Config,
    k: nat,
)
    requires
        table.len() >= RESERVED,
        forall|i: int| 0 <= i < RESERVED ==> table[i] == reserved_state(i),
        c.state < RESERVED,
    ensures
        ({
            &&& after(table, threshold, verbose, c, k) matches Some(d)
            &&& d.state == c.state
            &&& d.head == c.head
            &&& forall|i: int| cell(d.tape, i) == cell(c.tape, i)
        }),
    decreases k,
{
    if k > 0 {
        lemma_reserved_absorbs(table, threshold, verbose, c, (k - 1) as nat);
        let before = after(table, threshold, verbose, c, (k - 1) as nat)->Some_0;
        let rule = rule_in(table, before);
        assert(table[before.state as int] == reserved_state(before.state as int));
        assert(rule.write == cell(before.tape, before.head as int));
        lemma_cells_kept(before.tape, before.head, rule.write);
    }
}

} // verus!

//! The table builder: it gives every state block an index, in the order of
//! the text and behind the reserved states, turns the targets of the rules
//! from names into indices, and sees to it that one state, and only one, is
//! marked as the start.

use vstd::prelude::*;
use vstd::string::*;
use vstd::utf8::*;
use std::collections::HashMap;
use crate::grammar::{block_at, header_at, BlockText, RuleText};
use crate::machine::{
    reserved_state, table_closed, Direction, State, Symbol, Tm, Transition, RESERVED,
};
use crate::parser::{name_bytes, parse_header, parse_state, StateInfo, TransitionInfo};

verus! {

/// Why a description gives no machine.
#[derive(Clone, Copy, Debug, PartialEq, Eq, Structural)]
pub enum BuildError {
    /// The header or a state block is not what the grammar asks for.
    Syntax,
    /// The text ends before the declared number of blocks has been read.
    CountMismatch,
    /// A second block is marked as the start.
    DuplicateStart,
    /// A rule names a state that is neither declared nor reserved.
    UnknownTarget,
    /// No block is marked as the start.
    MissingStart,
}

/// The name of the reserved state `i`: `HALT`, `ERROR`, `REJECT`, `OUT`,
/// `ACCEPT`.
pub open spec fn reserved_name(i: int) -> Seq<u8> {
    if i == 0 {
        seq![72u8, 65u8, 76u8, 84u8]
    } else if i == 1 {
        seq![69u8, 82u8, 82u8, 79u8, 82u8]
    } else if i == 2 {
        seq![82u8, 69u8, 74u8, 69u8, 67u8, 84u8]
    } else if i == 3 {
        seq![79u8, 85u8, 84u8]
    } else {
        seq![65u8, 67u8, 67u8, 69u8, 80u8, 84u8]
    }
}

/// The index of the reserved state that `name` names.
pub open spec fn reserved_index(name: Seq<u8>) -> Option<nat> {
    if name == reserved_name(0) {
        Some(0)
    } else if name == reserved_name(1) {
        Some(1)
    } else if name == reserved_name(2) {
        Some(2)
    } else if name == reserved_name(3) {
        Some(3)
    } else if name == reserved_name(4) {
        Some(4)
    } else {
        None
    }
}

/// The index of the last of `blocks` that is named `name`. Block `i` has
/// the index `RESERVED + i`.
pub open spec fn declared_index(blocks: Seq<BlockText>, name: Seq<u8>) -> Option<nat>
    decreases blocks.len(),
{
    if blocks.len() == 0 {
        None
    } else if blocks.last().name == name {
        Some((RESERVED + blocks.len() - 1) as nat)
    } else {
        declared_index(blocks.drop_last(), name)
    }
}

/// The index that `name` stands for: that of the last block of this name
/// or, where no block has it, that of the reserved state of this name.
pub open spec fn resolve(blocks: Seq<BlockText>, name: Seq<u8>) -> Option<nat> {
    match declared_index(blocks, name) {
        Some(i) => Some(i),
        None => reserved_index(name),
    }
}

/// The rule with its target as an index, where the target resolves.
pub open spec fn resolved_rule(blocks: Seq<BlockText>, rule: RuleText) -> Option<Transition> {
    match resolve(blocks, rule.target) {
        Some(i) => Some(Transition { next: i as usize, mov: rule.mov, write: rule.write }),
        None => None,
    }
}

/// The table entry of a block, where both its targets resolve.
pub open spec fn resolved_state(blocks: Seq<BlockText>, block: BlockText) -> Option<State> {
    match (resolved_rule(blocks, block.on_a), resolved_rule(blocks, block.on_b)) {
        (Some(on_a), Some(on_b)) => Some(State { on_a, on_b }),
        _ => None,
    }
}

/// Every target in `blocks` resolves.
pub open spec fn all_resolve(blocks: Seq<BlockText>) -> bool {
    forall|i: int|
        0 <= i < blocks.len() ==> resolved_state(blocks, #[trigger] blocks[i]) is Some
}

/// The table: the reserved states, then the blocks in their order.
pub open spec fn table_of(blocks: Seq<BlockText>) -> Seq<State> {
    Seq::new(
        (RESERVED + blocks.len()) as nat,
        |i: int|
            if i < RESERVED {
                reserved_state(i)
            } else {
                resolved_state(blocks, blocks[i - RESERVED]).unwrap()
            },
    )
}

/// The name of each index: the reserved names, then those of the blocks.
pub open spec fn names_of(blocks: Seq<BlockText>) -> Seq<Seq<u8>> {
    Seq::new(
        (RESERVED + blocks.len()) as nat,
        |i: int|
            if i < RESERVED {
                reserved_name(i)
            } else {
                blocks[i - RESERVED].name
            },
    )
}

/// What has been read once some blocks are through: the blocks, the offset
/// at which the next one begins, and the index of the start state if one
/// of them was marked.
pub struct Progress {
    pub blocks: Seq<BlockText>,
    pub at: int,
    pub start: Option<nat>,
}

/// Reading `k` blocks of `s` from offset `first` on. The first thing to go
/// wrong decides the error: the text is at its end, a block is malformed,
/// or a block is marked as the start after another was.
pub open spec fn blocks_after(s: Seq<u8>, first: int, k: nat) -> Result<Progress, BuildError>
    decreases k,
{
    if k == 0 {
        Ok(Progress { blocks: Seq::empty(), at: first, start: None })
    } else {
        match blocks_after(s, first, (k - 1) as nat) {
            Err(e) => Err(e),
            Ok(before) => if before.at >= s.len() {
                Err(BuildError::CountMismatch)
            } else {
                match block_at(s, before.at) {
                    None => Err(BuildError::Syntax),
                    Some((block, end)) => if block.start && before.start is Some {
                        Err(BuildError::DuplicateStart)
                    } else {
                        Ok(
                            Progress {
                                blocks: before.blocks.push(block),
                                at: end,
                                start: if block.start {
                                    Some((RESERVED + k - 1) as nat)
                                } else {
                                    before.start
                                },
                            },
                        )
                    },
                }
            },
        }
    }
}

/// A machine as a description gives it.
pub struct Built {
    pub table: Seq<State>,
    pub start: nat,
    pub names: Seq<Seq<u8>>,
}

/// What the description `s` gives: the machine, or the first error. The
/// header is read, then as many blocks as it declares, and what follows
/// them is not read; then every target is resolved, so that a rule may
/// name a state that is declared further down; at last a start state must
/// have been marked.
pub open spec fn build(s: Seq<u8>) -> Result<Built, BuildError> {
    match header_at(s) {
        None => Err(BuildError::Syntax),
        Some((count, first)) => match blocks_after(s, first, count) {
            Err(e) => Err(e),
            Ok(read) => if !all_resolve(read.blocks) {
                Err(BuildError::UnknownTarget)
            } else {
                match read.start {
                    None => Err(BuildError::MissingStart),
                    Some(start) => Ok(
                        Built {
                            table: table_of(read.blocks),
                            start,
                            names: names_of(read.blocks),
                        },
                    ),
                }
            },
        },
    }
}

/// The blocks that `infos` stand for.
pub open spec fn blocks_of(infos: Seq<StateInfo>) -> Seq<BlockText> {
    Seq::new(infos.len(), |i: int| infos[i]@)
}

/// An error stays whatever comes after it.
proof fn lemma_error_stays(s: Seq<u8>, first: int, k: nat, n: nat)
    requires
        k <= n,
        blocks_after(s, first, k) is Err,
    ensures
        blocks_after(s, first, n) == blocks_after(s, first, k),
    decreases n - k,
{
    if k < n {
        lemma_error_stays(s, first, k, (n - 1) as nat);
    }
}

fn same_bytes(a: &[u8], b: &[u8]) -> (r: bool)
    ensures
        r == (a@ == b@),
{
    if a.len() != b.len() {
        return false;
    }
    let mut i: usize = 0;
    while i < a.len()
        invariant
            a@.len() == b@.len(),
            i <= a@.len(),
            forall|j: int| 0 <= j < i ==> a@[j] == b@[j],
        decreases a@.len() - i,
    {
        if a[i] != b[i] {
            return false;
        }
        i = i + 1;
    }
    assert(a@ =~= b@);
    true
}

fn reserved_number(name: &String) -> (r: Option<usize>)
    ensures
        match r {
            Some(i) => reserved_index(name_bytes(name)) == Some(i as nat),
            None => reserved_index(name_bytes(name)) is None,
        },
{
    let bytes = name.as_str().as_bytes();
    let halt: Vec<u8> = vec![72u8, 65u8, 76u8, 84u8];
    let error: Vec<u8> = vec![69u8, 82u8, 82u8, 79u8, 82u8];
    let reject: Vec<u8> = vec![82u8, 69u8, 74u8, 69u8, 67u8, 84u8];
    let out: Vec<u8> = vec![79u8, 85u8, 84u8];
    let accept: Vec<u8> = vec![65u8, 67u8, 67u8, 69u8, 80u8, 84u8];
    assert(halt@ =~= reserved_name(0));
    assert(error@ =~= reserved_name(1));
    assert(reject@ =~= reserved_name(2));
    assert(out@ =~= reserved_name(3));
    assert(accept@ =~= reserved_name(4));
    if same_bytes(bytes, halt.as_slice()) {
        Some(0)
    } else if same_bytes(bytes, error.as_slice()) {
        Some(1)
    } else if same_bytes(bytes, reject.as_slice()) {
        Some(2)
    } else if same_bytes(bytes, out.as_slice()) {
        Some(3)
    } else if same_bytes(bytes, accept.as_slice()) {
        Some(4)
    } else {
        None
    }
}

fn declared_number(infos: &Vec<StateInfo>, name: &String) -> (r: Option<usize>)
    requires
        RESERVED + infos@.len() <= usize::MAX,
    ensures
        match r {
            Some(i) => declared_index(blocks_of(infos@), name_bytes(name)) == Some(i as nat),
            None => declared_index(blocks_of(infos@), name_bytes(name)) is None,
        },
{
    let wanted = name.as_str().as_bytes();
    let mut k: usize = infos.len();
    assert(blocks_of(infos@).take(k as int) =~= blocks_of(infos@));
    while k > 0
        invariant
            k <= infos@.len(),
            RESERVED + infos@.len() <= usize::MAX,
            wanted@ == name_bytes(name),
            declared_index(blocks_of(infos@), name_bytes(name)) == declared_index(
                blocks_of(infos@).take(k as int),
                name_bytes(name),
            ),
        decreases k,
    {
        let ghost front = blocks_of(infos@).take(k as int);
        assert(front.last() == infos@[k - 1]@);
        assert(front.drop_last() =~= blocks_of(infos@).take(k - 1));
        if same_bytes(infos[k - 1].name.as_str().as_bytes(), wanted) {
            return Some(RESERVED + (k - 1));
        }
        k = k - 1;
    }
    None
}

fn resolve_name(infos: &Vec<StateInfo>, name: &String) -> (r: Option<usize>)
    requires
        RESERVED + infos@.len() <= usize::MAX,
    ensures
        match r {
            Some(i) => resolve(blocks_of(infos@), name_bytes(name)) == Some(i as nat),
            None => resolve(blocks_of(infos@), name_bytes(name)) is None,
        },
{
    match declared_number(infos, name) {
        Some(i) => Some(i),
        None => reserved_number(name),
    }
}

fn resolve_rule(infos: &Vec<StateInfo>, rule: &TransitionInfo) -> (r: Option<Transition>)
    requires
        RESERVED + infos@.len() <= usize::MAX,
    ensures
        r == resolved_rule(blocks_of(infos@), rule@),
{
    match resolve_name(infos, &rule.next) {
        Some(next) => Some(Transition { next, mov: rule.mov, write: rule.write }),
        None => None,
    }
}

/// What is known of the blocks read so far.
proof fn lemma_progress_shape(s: Seq<u8>, first: int, k: nat)
    requires
        blocks_after(s, first, k) is Ok,
    ensures
        ({
            let read = blocks_after(s, first, k)->Ok_0;
            &&& read.blocks.len() == k
            &&& match read.start {
                Some(start) => {
                    &&& RESERVED <= start < RESERVED + k
                    &&& forall|j: int|
                        0 <= j < k ==> ((#[trigger] read.blocks[j]).start <==> j == start
                            - RESERVED)
                },
                None => forall|j: int| 0 <= j < k ==> !(#[trigger] read.blocks[j]).start,
            }
        }),
    decreases k,
{
    if k > 0 {
        lemma_progress_shape(s, first, (k - 1) as nat);
    }
}

/// A declared name resolves to the index of a block.
proof fn lemma_declared_in_range(blocks: Seq<BlockText>, name: Seq<u8>)
    ensures
        match declared_index(blocks, name) {
            Some(i) => RESERVED <= i < RESERVED + blocks.len() && blocks[i - RESERVED].name
                == name,
            None => forall|j: int| 0 <= j < blocks.len() ==> (#[trigger] blocks[j]).name != name,
        },
    decreases blocks.len(),
{
    if blocks.len() > 0 {
        let front = blocks.drop_last();
        lemma_declared_in_range(front, name);
        assert(forall|j: int| 0 <= j < front.len() ==> front[j] == blocks[j]);
    }
}

/// Reads `count` blocks of `buf` from offset `first` on: the blocks and
/// the index of the one marked as the start.
pub fn read_blocks(buf: &str, count: usize, first: usize) -> (r: Result<
    (Vec<StateInfo>, Option<usize>),
    BuildError,
>)
    requires
        first <= buf.spec_bytes().len(),
    ensures
        match r {
            Ok((infos, start)) => {
                &&& blocks_after(buf.spec_bytes(), first as int, count as nat) matches Ok(read)
                &&& read.blocks == blocks_of(infos@)
                &&& infos@.len() == count
                &&& RESERVED + count <= usize::MAX
                &&& match start {
                    Some(i) => read.start == Some(i as nat),
                    None => read.start is None,
                }
            },
            Err(e) => blocks_after(buf.spec_bytes(), first as int, count as nat) == Err::<
                Progress,
                BuildError,
            >(e),
        },
{
    let ghost s = buf.spec_bytes();
    let len = buf.as_bytes().len();
    let mut infos: Vec<StateInfo> = Vec::new();
    let mut start: Option<usize> = None;
    let mut at: usize = first;
    let mut i: usize = 0;
    assert(blocks_of(infos@) =~= Seq::<BlockText>::empty());
    while i < count
        invariant
            s == buf.spec_bytes(),
            len == s.len(),
            i <= count,
            at <= len,
            6 * i <= at,
            infos@.len() == i,
            blocks_after(s, first as int, i as nat) == Ok::<Progress, BuildError>(
                Progress {
                    blocks: blocks_of(infos@),
                    at: at as int,
                    start: match start {
                        Some(k) => Some(k as nat),
                        None => None,
                    },
                },
            ),
        decreases count - i,
    {
        if at >= len {
            proof {
                lemma_error_stays(s, first as int, (i + 1) as nat, count as nat);
            }
            return Err(BuildError::CountMismatch);
        }
        match parse_state(buf, at) {
            None => {
                proof {
                    lemma_error_stays(s, first as int, (i + 1) as nat, count as nat);
                }
                return Err(BuildError::Syntax);
            },
            Some((info, end)) => {
                if info.start {
                    if start.is_some() {
                        proof {
                            lemma_error_stays(s, first as int, (i + 1) as nat, count as nat);
                        }
                        return Err(BuildError::DuplicateStart);
                    }
                    start = Some(RESERVED + i);
                }
                proof {
                    assert(blocks_of(infos@.push(info)) =~= blocks_of(infos@).push(info@));
                }
                infos.push(info);
                at = end;
                i = i + 1;
            },
        }
    }
    Ok((infos, start))
}

/// The table entries of `infos`, behind the reserved ones, where every
/// target resolves.
pub fn resolve_states(infos: &Vec<StateInfo>) -> (r: Option<Vec<State>>)
    requires
        RESERVED + infos@.len() <= usize::MAX,
    ensures
        match r {
            Some(states) => all_resolve(blocks_of(infos@)) && states@ == table_of(
                blocks_of(infos@),
            ),
            None => !all_resolve(blocks_of(infos@)),
        },
{
    let ghost blocks = blocks_of(infos@);
    let mut states: Vec<State> = Vec::new();
    let mut r: usize = 0;
    while r < RESERVED
        invariant
            r <= RESERVED,
            states@.len() == r,
            forall|j: int| 0 <= j < r ==> states@[j] == reserved_state(j),
        decreases RESERVED - r,
    {
        states.push(
            State {
                on_a: Transition { next: r, mov: Direction::Stay, write: Symbol::A },
                on_b: Transition { next: r, mov: Direction::Stay, write: Symbol::B },
            },
        );
        r = r + 1;
    }
    let mut i: usize = 0;
    while i < infos.len()
        invariant
            i <= infos@.len(),
            RESERVED + infos@.len() <= usize::MAX,
            blocks == blocks_of(infos@),
            states@.len() == RESERVED + i,
            forall|j: int| 0 <= j < RESERVED ==> states@[j] == reserved_state(j),
            forall|j: int|
                0 <= j < i ==> resolved_state(blocks, #[trigger] blocks[j]) == Some(
                    states@[RESERVED + j],
                ),
        decreases infos@.len() - i,
    {
        let on_a = resolve_rule(infos, &infos[i].on_a);
        let on_b = resolve_rule(infos, &infos[i].on_b);
        match (on_a, on_b) {
            (Some(on_a), Some(on_b)) => {
                states.push(State { on_a, on_b });
            },
            _ => {
                assert(resolved_state(blocks, blocks[i as int]) is None);
                return None;
            },
        }
        i = i + 1;
    }
    assert(states@ =~= table_of(blocks));
    Some(states)
}

/// The names in `table` are those of `names`, index by index.
pub open spec fn names_match(table: Map<usize, String>, names: Seq<Seq<u8>>) -> bool {
    &&& forall|i: usize| table.dom().contains(i) <==> i < names.len()
    &&& forall|i: usize| i < names.len() ==> name_bytes(&#[trigger] table[i]) == names[i as int]
}

/// The name of every index: the reserved names, then those of `infos`.
pub fn name_table(infos: &Vec<StateInfo>) -> (table: HashMap<usize, String>)
    requires
        RESERVED + infos@.len() <= usize::MAX,
    ensures
        names_match(table@, names_of(blocks_of(infos@))),
{
    broadcast use vstd::std_specs::hash::group_hash_axioms;

    let ghost blocks = blocks_of(infos@);
    let mut table: HashMap<usize, String> = HashMap::new();
    let halt = String::from_str("HALT");
    let error = String::from_str("ERROR");
    let reject = String::from_str("REJECT");
    let out = String::from_str("OUT");
    let accept = String::from_str("ACCEPT");
    proof {
        reveal_strlit("HALT");
        reveal_strlit("ERROR");
        reveal_strlit("REJECT");
        reveal_strlit("OUT");
        reveal_strlit("ACCEPT");
        lemma_ascii_bytes(halt@);
        lemma_ascii_bytes(error@);
        lemma_ascii_bytes(reject@);
        lemma_ascii_bytes(out@);
        lemma_ascii_bytes(accept@);
        assert(name_bytes(&halt) =~= reserved_name(0));
        assert(name_bytes(&error) =~= reserved_name(1));
        assert(name_bytes(&reject) =~= reserved_name(2));
        assert(name_bytes(&out) =~= reserved_name(3));
        assert(name_bytes(&accept) =~= reserved_name(4));
    }
    table.insert(0, halt);
    table.insert(1, error);
    table.insert(2, reject);
    table.insert(3, out);
    table.insert(4, accept);
    let mut i: usize = 0;
    while i < infos.len()
        invariant
            i <= infos@.len(),
            RESERVED + infos@.len() <= usize::MAX,
            blocks == blocks_of(infos@),
            forall|j: usize| table@.dom().contains(j) <==> j < RESERVED + i,
            forall|j: usize|
                j < RESERVED + i ==> name_bytes(&#[trigger] table@[j]) == names_of(blocks)[j as int],
        decreases infos@.len() - i,
    {
        let name = infos[i].name.clone();
        table.insert(RESERVED + i, name);
        i = i + 1;
    }
    table
}

/// A text of ASCII characters is encoded byte for character.
proof fn lemma_ascii_bytes(chars: Seq<char>)
    requires
        is_ascii_chars(chars),
    ensures
        encode_utf8(chars) =~= Seq::new(chars.len(), |i: int| chars[i] as u8),
{
    is_ascii_chars_encode_utf8(chars);
}

/// Builds the machine that the description `buf` gives, and the table of
/// the names of its states.
pub fn make_tm(buf: &str) -> (r: Result<(Tm, HashMap<usize, String>), BuildError>)
    ensures
        match r {
            Ok((tm, names)) => {
                &&& build(buf.spec_bytes()) matches Ok(built)
                &&& tm.states@ == built.table
                &&& tm.start_state == Some(built.start as usize)
                &&& names_match(names@, built.names)
                &&& tm.wf()
            },
            Err(e) => build(buf.spec_bytes()) == Err::<Built, BuildError>(e),
        },
{
    let (count, first) = match parse_header(buf) {
        Some(header) => header,
        None => {
            return Err(BuildError::Syntax);
        },
    };
    let (infos, start) = match read_blocks(buf, count, first) {
        Ok(read) => read,
        Err(e) => {
            return Err(e);
        },
    };
    let states = match resolve_states(&infos) {
        Some(states) => states,
        None => {
            return Err(BuildError::UnknownTarget);
        },
    };
    let start = match start {
        Some(start) => start,
        None => {
            return Err(BuildError::MissingStart);
        },
    };
    let names = name_table(&infos);
    proof {
        lemma_progress_shape(buf.spec_bytes(), first as int, count as nat);
        lemma_table_closed(blocks_of(infos@));
    }
    Ok((Tm { states, start_state: Some(start) }, names))
}

/// The table of blocks whose targets all resolve is closed.
proof fn lemma_table_closed(blocks: Seq<BlockText>)
    requires
        all_resolve(blocks),
        RESERVED + blocks.len() <= usize::MAX,
    ensures
        table_closed(table_of(blocks)),
{
    let table = table_of(blocks);
    assert forall|i: int| 0 <= i < table.len() implies (#[trigger] table[i]).on_a.next
        < table.len() && table[i].on_b.next < table.len() by {
        if i >= RESERVED {
            let block = blocks[i - RESERVED];
            assert(resolved_state(blocks, block) is Some);
            lemma_declared_in_range(blocks, block.on_a.target);
            lemma_declared_in_range(blocks, block.on_b.target);
        }
    }
}

/// The blocks read first stay as they are when more are read.
proof fn lemma_blocks_prefix(s: Seq<u8>, first: int, j: nat, k: nat)
    requires
        j <= k,
        blocks_after(s, first, k) is Ok,
    ensures
        blocks_after(s, first, j) is Ok,
        (blocks_after(s, first, j)->Ok_0).blocks =~= (blocks_after(s, first, k)->Ok_0).blocks.take(
            j as int,
        ),
    decreases k - j,
{
    lemma_progress_shape(s, first, k);
    if j < k {
        lemma_blocks_prefix(s, first, (j + 1) as nat, k);
        lemma_progress_shape(s, first, (j + 1) as nat);
    }
}

/// A description that gives a machine gives one of the declared number of
/// states and the reserved ones; one of its blocks, and no other, is marked
/// as the start, and the start index is that block's; and the first block
/// of the text has the first index behind the reserved ones.
pub proof fn lemma_built_shape(s: Seq<u8>)
    requires
        build(s) is Ok,
    ensures
        ({
            let (count, first) = header_at(s)->Some_0;
            let read = blocks_after(s, first, count)->Ok_0;
            let built = build(s)->Ok_0;
            &&& built.table.len() == RESERVED + count
            &&& built.names.len() == RESERVED + count
            &&& RESERVED <= built.start < RESERVED + count
            &&& read.blocks.len() == count
            &&& forall|j: int|
                0 <= j < count ==> ((#[trigger] read.blocks[j]).start <==> RESERVED + j
                    == built.start)
            &&& count >= 1 ==> {
                &&& block_at(s, first) matches Some((block, _))
                &&& read.blocks[0] == block
                &&& built.names[RESERVED as int] == block.name
                &&& Some(built.table[RESERVED as int]) == resolved_state(read.blocks, block)
            }
        }),
{
    let (count, first) = header_at(s)->Some_0;
    lemma_progress_shape(s, first, count);
    if count >= 1 {
        let read = blocks_after(s, first, count)->Ok_0;
        lemma_blocks_prefix(s, first, 1, count);
        let one = blocks_after(s, first, 1)->Ok_0;
        assert(blocks_after(s, first, 0) == Ok::<Progress, BuildError>(
            Progress { blocks: Seq::empty(), at: first, start: None },
        ));
        let block = block_at(s, first)->Some_0.0;
        assert(one.blocks == Seq::<BlockText>::empty().push(block));
        assert(one.blocks[0] == block);
        assert(read.blocks.take(1)[0] == read.blocks[0]);
        assert(resolved_state(read.blocks, read.blocks[0]) is Some);
    }
}

/// Where a block marked as the start follows one that was marked already,
/// there is no machine: the description fails with `DuplicateStart`.
pub proof fn lemma_second_start_fails(s: Seq<u8>, k: nat)
    requires
        ({
            &&& header_at(s) matches Some((count, first))
            &&& k < count
            &&& blocks_after(s, first, k) matches Ok(read)
            &&& read.start is Some
            &&& read.at < s.len()
            &&& block_at(s, read.at) matches Some((block, _))
            &&& block.start
        }),
    ensures
        build(s) == Err::<Built, BuildError>(BuildError::DuplicateStart),
{
    let (count, first) = header_at(s)->Some_0;
    lemma_error_stays(s, first, k + 1, count);
}

/// A name resolves to nothing just where no block has it and it is none
/// of the reserved names.
pub proof fn lemma_unresolved(blocks: Seq<BlockText>, name: Seq<u8>)
    ensures
        resolve(blocks, name) is None <==> (forall|j: int|
            0 <= j < blocks.len() ==> (#[trigger] blocks[j]).name != name) && (forall|i: int|
            0 <= i < RESERVED ==> #[trigger] reserved_name(i) != name),
{
    lemma_declared_in_range(blocks, name);
    if reserved_index(name) is None {
        assert forall|i: int| 0 <= i < RESERVED implies #[trigger] reserved_name(i) != name by {
            if i == 0 {
            } else if i == 1 {
            } else if i == 2 {
            } else if i == 3 {
            } else {
                assert(i == 4);
            }
        }
    } else {
        let i = reserved_index(name)->Some_0 as int;
        assert(reserved_name(i) == name);
    }
}

/// Where all blocks are read and a rule of one of them names a state that
/// resolves to nothing, there is no machine: the description fails with
/// `UnknownTarget`.
pub proof fn lemma_unknown_target_fails(s: Seq<u8>, i: int)
    requires
        ({
            &&& header_at(s) matches Some((count, first))
            &&& blocks_after(s, first, count) matches Ok(read)
            &&& 0 <= i < count
            &&& resolve(read.blocks, read.blocks[i].on_a.target) is None || resolve(
                read.blocks,
                read.blocks[i].on_b.target,
            ) is None
        }),
    ensures
        build(s) == Err::<Built, BuildError>(BuildError::UnknownTarget),
{
    let (count, first) = header_at(s)->Some_0;
    let read = blocks_after(s, first, count)->Ok_0;
    lemma_progress_shape(s, first, count);
    assert(resolved_state(read.blocks, read.blocks[i]) is None);
}

/// Where all blocks are read, every target resolves and no block is marked
/// as the start, there is no machine: the description fails with
/// `MissingStart`.
pub proof fn lemma_no_start_fails(s: Seq<u8>)
    requires
        ({
            &&& header_at(s) matches Some((count, first))
            &&& blocks_after(s, first, count) matches Ok(read)
            &&& all_resolve(read.blocks)
            &&& forall|j: int| 0 <= j < count ==> !(#[trigger] read.blocks[j]).start
        }),
    ensures
        build(s) == Err::<Built, BuildError>(BuildError::MissingStart),
{
    let (count, first) = header_at(s)->Some_0;
    let read = blocks_after(s, first, count)->Ok_0;
    lemma_progress_shape(s, first, count);
    if read.start is Some {
        let j = read.start->Some_0 - RESERVED;
        assert(read.blocks[j].start);
    }
}

} // verus!

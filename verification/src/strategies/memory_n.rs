use vstd::prelude::*;
use crate::action::{Action, Round};
use crate::game::Chance;
use crate::rng::thread_happens;
use crate::strategy::Strategy;
use crate::text::{decimal_chars, push_decimal};
use vstd::slice::slice_subrange;

verus! {

/// Whether two round sequences are equal.
pub fn same_rounds(a: &[Round], b: &[Round]) -> (r: bool)
    ensures
        r == (a@ == b@),
{
    if a.len() != b.len() {
        return false;
    }
    let n = a.len();
    for i in 0..n
        invariant
            n == a@.len(),
            n == b@.len(),
            forall|k: int| 0 <= k < i ==> a@[k] == b@[k],
    {
        if a[i].0 != b[i].0 || a[i].1 != b[i].1 {
            return false;
        }
    }
    assert(a@ =~= b@);
    true
}

/// The response that the entries give to `key`: that of the last entry
/// whose key it is.
pub open spec fn lookup(entries: Seq<(Vec<Round>, Action)>, key: Seq<Round>) -> Option<Action>
    decreases entries.len(),
{
    if entries.len() == 0 {
        None
    } else if entries.last().0@ == key {
        Some(entries.last().1)
    } else {
        lookup(entries.drop_last(), key)
    }
}

/// The map that a list of entries stands for: each key answered as its
/// last entry says.
pub open spec fn entries_map(entries: Seq<(Vec<Round>, Action)>) -> Map<Seq<Round>, Action> {
    Map::new(
        |k: Seq<Round>| lookup(entries, k) is Some,
        |k: Seq<Round>| lookup(entries, k)->0,
    )
}

/// Returns a copy of the rounds.
fn copy_rounds(v: &Vec<Round>) -> (r: Vec<Round>)
    ensures
        r@ == v@,
{
    let mut out: Vec<Round> = Vec::new();
    for i in 0..v.len()
        invariant
            out@ == v@.take(i as int),
    {
        out.push(v[i]);
        assert(out@ =~= v@.take(i + 1));
    }
    assert(v@.take(v@.len() as int) =~= v@);
    out
}

/// A table from recent histories to the move to answer them with.
#[derive(Clone, Debug)]
pub struct ResponseTable {
    entries: Vec<(Vec<Round>, Action)>,
}

impl View for ResponseTable {
    type V = Map<Seq<Round>, Action>;

    closed spec fn view(&self) -> Map<Seq<Round>, Action> {
        entries_map(self.entries@)
    }
}

impl ResponseTable {
    /// An empty table.
    pub fn new() -> (r: ResponseTable)
        ensures
            r@ == Map::<Seq<Round>, Action>::empty(),
    {
        let r = ResponseTable { entries: Vec::new() };
        assert(r@ =~= Map::<Seq<Round>, Action>::empty());
        r
    }

    /// Sets the response to `key`, replacing any earlier one.
    pub fn insert(&mut self, key: Vec<Round>, response: Action)
        ensures
            final(self)@ == old(self)@.insert(key@, response),
    {
        let ghost k = key@;
        self.entries.push((key, response));
        assert(self.entries@.drop_last() =~= old(self).entries@);
        assert(self@ =~= old(self)@.insert(k, response));
    }

    /// A copy of the table, with the same responses.
    pub fn duplicate(&self) -> (r: ResponseTable)
        ensures
            r@ == self@,
    {
        let mut t = ResponseTable::new();
        let n = self.entries.len();
        assert(t@ =~= entries_map(self.entries@.take(0)));
        for i in 0..n
            invariant
                n == self.entries@.len(),
                t@ == entries_map(self.entries@.take(i as int)),
        {
            let key = copy_rounds(&self.entries[i].0);
            let ghost before = self.entries@.take(i as int);
            t.insert(key, self.entries[i].1);
            proof {
                let after = self.entries@.take(i + 1);
                assert(after.drop_last() =~= before);
                assert(entries_map(after) =~= entries_map(before).insert(
                    self.entries@[i as int].0@,
                    self.entries@[i as int].1,
                ));
            }
        }
        assert(self.entries@.take(n as int) =~= self.entries@);
        t
    }

    /// The response to `key`, if the table has one.
    pub fn get(&self, key: &[Round]) -> (r: Option<Action>)
        ensures
            r == (if self@.contains_key(key@) { Some(self@[key@]) } else { None::<Action> }),
    {
        let mut i = self.entries.len();
        assert(self.entries@.subrange(0, i as int) =~= self.entries@);
        while i > 0
            invariant
                i <= self.entries@.len(),
                lookup(self.entries@, key@) == lookup(self.entries@.subrange(0, i as int), key@),
            decreases i,
        {
            let ghost prefix = self.entries@.subrange(0, i as int);
            assert(prefix.drop_last() =~= self.entries@.subrange(0, i - 1));
            if same_rounds(self.entries[i - 1].0.as_slice(), key) {
                return Some(self.entries[i - 1].1);
            }
            i = i - 1;
        }
        None
    }
}

/// A deterministic strategy that answers the last `memory` rounds by a table.
#[derive(Clone, Debug)]
pub struct MemoryN {
    pub name: String,
    pub memory: usize,
    pub table: ResponseTable,
    pub initial_move: Action,
}

/// The rounds that a memory of the given length looks at.
pub open spec fn recent_rounds(memory: nat, h: Seq<Round>) -> Seq<Round> {
    let start = if h.len() >= memory { h.len() - memory } else { 0 };
    h.subrange(start as int, h.len() as int)
}

/// The move a memory strategy makes after the given history: its initial
/// move first, then the table's response to the recent rounds, or Cooperate
/// when the table has none.
pub open spec fn memory_move(
    memory: nat,
    table: Map<Seq<Round>, Action>,
    initial: Action,
    h: Seq<Round>,
) -> Action {
    if h.len() == 0 {
        initial
    } else if table.contains_key(recent_rounds(memory, h)) {
        table[recent_rounds(memory, h)]
    } else {
        Action::Cooperate
    }
}

fn single_round(mine: Action, theirs: Action) -> (r: Vec<Round>)
    ensures
        r@ == seq![(mine, theirs)],
{
    let mut v: Vec<Round> = Vec::new();
    v.push((mine, theirs));
    assert(v@ =~= seq![(mine, theirs)]);
    v
}

impl MemoryN {
    /// A memory strategy named after its memory length ("Memory-3").
    pub fn new(memory: usize, initial_move: Action, table: ResponseTable) -> (r: MemoryN)
        ensures
            r.name@ == "Memory-"@ + decimal_chars(memory as nat),
            r.memory == memory,
            r.table@ == table@,
            r.initial_move == initial_move,
    {
        let mut name = String::from_str("Memory-");
        push_decimal(&mut name, memory);
        MemoryN { name, memory, table, initial_move }
    }

    /// A memory-one strategy with the given responses to each outcome of the
    /// last round (own move first).
    pub fn memory_1_from_responses(
        after_cc: Action,
        after_cd: Action,
        after_dc: Action,
        after_dd: Action,
        initial_move: Action,
        name: String,
    ) -> (r: MemoryN)
        ensures
            r.name == name,
            r.memory == 1,
            r.initial_move == initial_move,
            r.table@ == map![
                seq![(Action::Cooperate, Action::Cooperate)] => after_cc,
                seq![(Action::Cooperate, Action::Defect)] => after_cd,
                seq![(Action::Defect, Action::Cooperate)] => after_dc,
                seq![(Action::Defect, Action::Defect)] => after_dd,
            ],
    {
        let mut table = ResponseTable::new();
        table.insert(single_round(Action::Cooperate, Action::Cooperate), after_cc);
        table.insert(single_round(Action::Cooperate, Action::Defect), after_cd);
        table.insert(single_round(Action::Defect, Action::Cooperate), after_dc);
        table.insert(single_round(Action::Defect, Action::Defect), after_dd);
        let r = MemoryN { name, memory: 1, table, initial_move };
        assert(r.table@ =~= map![
            seq![(Action::Cooperate, Action::Cooperate)] => after_cc,
            seq![(Action::Cooperate, Action::Defect)] => after_cd,
            seq![(Action::Defect, Action::Cooperate)] => after_dc,
            seq![(Action::Defect, Action::Defect)] => after_dd,
        ]);
        r
    }
}

/// The response that cooperates with the given chance, drawn by the
/// thread's generator: Cooperate when the draw happens, else Defect.
fn respond_with(p: Chance) -> (r: Action)
    requires
        p.valid(),
    ensures
        p.never() ==> r == Action::Defect,
        p.certain() ==> r == Action::Cooperate,
{
    if thread_happens(p.numerator, p.denominator) {
        Action::Cooperate
    } else {
        Action::Defect
    }
}

/// The response that a memory-one table gives after a round.
pub open spec fn response_after(table: Map<Seq<Round>, Action>, mine: Action, theirs: Action) -> Action {
    table[seq![(mine, theirs)]]
}

/// The response `a` to an outcome whose chance of cooperation is `p`:
/// Defect when it is zero, Cooperate when it is certain.
pub open spec fn drawn_response(p: Chance, a: Action) -> bool {
    &&& p.never() ==> a == Action::Defect
    &&& p.certain() ==> a == Action::Cooperate
}

impl MemoryN {
    /// A memory-one strategy whose response to each outcome of the last
    /// round (own move first) is drawn once, by the thread's generator:
    /// Cooperate with the given chance, else Defect.
    pub fn memory_1(
        p_cc: Chance,
        p_cd: Chance,
        p_dc: Chance,
        p_dd: Chance,
        initial_move: Action,
        name: String,
    ) -> (r: MemoryN)
        requires
            p_cc.valid(),
            p_cd.valid(),
            p_dc.valid(),
            p_dd.valid(),
        ensures
            r.name == name,
            r.memory == 1,
            r.initial_move == initial_move,
            r.table@.dom() == set![
                seq![(Action::Cooperate, Action::Cooperate)],
                seq![(Action::Cooperate, Action::Defect)],
                seq![(Action::Defect, Action::Cooperate)],
                seq![(Action::Defect, Action::Defect)],
            ],
            drawn_response(p_cc, response_after(r.table@, Action::Cooperate, Action::Cooperate)),
            drawn_response(p_cd, response_after(r.table@, Action::Cooperate, Action::Defect)),
            drawn_response(p_dc, response_after(r.table@, Action::Defect, Action::Cooperate)),
            drawn_response(p_dd, response_after(r.table@, Action::Defect, Action::Defect)),
    {
        let after_cc = respond_with(p_cc);
        let after_cd = respond_with(p_cd);
        let after_dc = respond_with(p_dc);
        let after_dd = respond_with(p_dd);
        let r = MemoryN::memory_1_from_responses(after_cc, after_cd, after_dc, after_dd, initial_move, name);
        proof {
            let cc = seq![(Action::Cooperate, Action::Cooperate)];
            let cd = seq![(Action::Cooperate, Action::Defect)];
            let dc = seq![(Action::Defect, Action::Cooperate)];
            let dd = seq![(Action::Defect, Action::Defect)];
            assert(cc[0] != cd[0] && cc[0] != dc[0] && cc[0] != dd[0]);
            assert(cd[0] != dc[0] && cd[0] != dd[0] && dc[0] != dd[0]);
            assert(cc != cd && cc != dc && cc != dd && cd != dc && cd != dd && dc != dd);
            assert(r.table@[cc] == after_cc);
            assert(r.table@[cd] == after_cd);
            assert(r.table@[dc] == after_dc);
            assert(r.table@[dd] == after_dd);
        }
        assert(r.table@.dom() =~= set![
            seq![(Action::Cooperate, Action::Cooperate)],
            seq![(Action::Cooperate, Action::Defect)],
            seq![(Action::Defect, Action::Cooperate)],
            seq![(Action::Defect, Action::Defect)],
        ]);
        r
    }
}

impl Strategy for MemoryN {
    open spec fn label(&self) -> Seq<char> {
        self.name@
    }

    open spec fn is_reactive() -> bool {
        true
    }

    open spec fn reply(&self, history: Seq<Round>) -> Action {
        memory_move(self.memory as nat, self.table@, self.initial_move, history)
    }

    fn name(&self) -> (r: &str) {
        self.name.as_str()
    }

    fn next_move(&mut self, history: &[Round]) -> (r: Action)
        ensures
            r == memory_move(old(self).memory as nat, old(self).table@, old(self).initial_move, history@),
            *final(self) == *old(self),
    {
        let len = history.len();
        if len == 0 {
            return self.initial_move;
        }
        let start = if len >= self.memory { len - self.memory } else { 0 };
        let state = slice_subrange(history, start, len);
        match self.table.get(state) {
            Some(a) => a,
            None => Action::Cooperate,
        }
    }

    fn clone_box(&self) -> (r: Self) {
        MemoryN {
            name: self.name.clone(),
            memory: self.memory,
            table: self.table.duplicate(),
            initial_move: self.initial_move,
        }
    }
}

/// A memory strategy looks no further back than its memory: two non-empty
/// histories that end with the same rounds get the same move.
pub proof fn lemma_memory_window(
    memory: nat,
    table: Map<Seq<Round>, Action>,
    initial: Action,
    h1: Seq<Round>,
    h2: Seq<Round>,
)
    requires
        h1.len() > 0,
        h2.len() > 0,
        recent_rounds(memory, h1) == recent_rounds(memory, h2),
    ensures
        memory_move(memory, table, initial, h1) == memory_move(memory, table, initial, h2),
{
}

} // verus!

//! Memory: a store of words by name, and the two memory subsystems built on
//! it, one without and one with per-thread write buffers.
use vstd::prelude::*;
use vstd::string::*;
use std::collections::{HashMap, VecDeque};
use crate::instruction::WriteOperation;
use vstd::relations::{sorted_by, total_ordering};
use crate::text::{
    decimal, decimal_string, lemma_lex_asymmetric, lemma_lex_connected, lemma_lex_transitive,
    lex_less, str_eq, str_less,
};

verus! {

broadcast use vstd::std_specs::hash::group_hash_axioms;

/// The word most recently written to `addr` in a sequence of writes, oldest
/// first.
pub open spec fn latest(writes: Seq<(Seq<char>, usize)>, addr: Seq<char>) -> Option<usize>
    decreases writes.len(),
{
    if writes.len() == 0 {
        None
    } else if writes.last().0 == addr {
        Some(writes.last().1)
    } else {
        latest(writes.drop_last(), addr)
    }
}

/// A write that replaces the latest write to its address changes what is
/// latest at that address only.
pub proof fn lemma_latest_update(
    writes: Seq<(Seq<char>, usize)>,
    i: int,
    value: usize,
    addr: Seq<char>,
)
    requires
        0 <= i < writes.len(),
        forall|j: int| i < j < writes.len() ==> writes[j].0 != writes[i].0,
    ensures
        latest(writes.update(i, (writes[i].0, value)), addr) == if addr == writes[i].0 {
            Some(value)
        } else {
            latest(writes, addr)
        },
    decreases writes.len(),
{
    let updated = writes.update(i, (writes[i].0, value));
    if i == writes.len() - 1 {
        assert(updated.drop_last() == writes.drop_last());
    } else {
        assert(updated.drop_last() == writes.drop_last().update(i, (writes[i].0, value)));
        lemma_latest_update(writes.drop_last(), i, value, addr);
    }
}

/// Where no write is to `addr`, nothing is latest there.
pub proof fn lemma_latest_none(writes: Seq<(Seq<char>, usize)>, addr: Seq<char>)
    requires
        forall|j: int| 0 <= j < writes.len() ==> writes[j].0 != addr,
    ensures
        latest(writes, addr) is None,
    decreases writes.len(),
{
    if writes.len() > 0 {
        lemma_latest_none(writes.drop_last(), addr);
    }
}

/// The latest write to `addr` is the last one in the sequence that is to it.
pub proof fn lemma_latest_at(writes: Seq<(Seq<char>, usize)>, i: int, addr: Seq<char>)
    requires
        0 <= i < writes.len(),
        writes[i].0 == addr,
        forall|j: int| i < j < writes.len() ==> writes[j].0 != addr,
    ensures
        latest(writes, addr) == Some(writes[i].1),
    decreases writes.len(),
{
    if i < writes.len() - 1 {
        lemma_latest_at(writes.drop_last(), i, addr);
    }
}

/// Without its oldest write, a sequence has the same latest write to each
/// address, but where the oldest was the only one to its address.
pub proof fn lemma_latest_skip(writes: Seq<(Seq<char>, usize)>, addr: Seq<char>)
    requires
        writes.len() > 0,
    ensures
        latest(writes, addr) == match latest(writes.skip(1), addr) {
            Some(v) => Some(v),
            None => if writes[0].0 == addr {
                Some(writes[0].1)
            } else {
                None
            },
        },
    decreases writes.len(),
{
    if writes.len() == 1 {
        assert(writes.skip(1).len() == 0);
        assert(writes.drop_last().len() == 0);
    } else {
        assert(writes.skip(1).drop_last() == writes.drop_last().skip(1));
        assert(writes.skip(1).last() == writes.last());
        lemma_latest_skip(writes.drop_last(), addr);
    }
}

/// A store of words by name. A name that was never written holds 0.
pub struct Memory {
    /// The names written so far, each once, with the word it holds.
    pub data: Vec<(String, usize)>,
}

impl Memory {
    /// The entries as mathematical pairs.
    pub open spec fn entries(&self) -> Seq<(Seq<char>, usize)> {
        Seq::new(self.data@.len(), |i: int| (self.data@[i].0@, self.data@[i].1))
    }

    /// The invariant: no name occurs twice.
    pub open spec fn wf(&self) -> bool {
        forall|i: int, j: int|
            0 <= i < j < self.data@.len() ==> self.data@[i].0@ != self.data@[j].0@
    }

    /// The word at a name: what was last stored there, or 0.
    pub open spec fn value_at(&self, addr: Seq<char>) -> usize {
        match latest(self.entries(), addr) {
            Some(v) => v,
            None => 0,
        }
    }

    pub fn new() -> (m: Self)
        ensures
            m.wf(),
            m@ == Map::<Seq<char>, usize>::empty(),
            forall|addr: Seq<char>| #[trigger] m.value_at(addr) == 0,
    {
        let m = Self { data: Vec::new() };
        assert(m@ =~= Map::<Seq<char>, usize>::empty());
        m
    }

    /// The index of the entry for `addr`, if there is one: the last, should
    /// the name occur more than once.
    fn position(&self, addr: &str) -> (r: Option<usize>)
        ensures
            match r {
                Some(i) => i < self.data@.len() && self.data@[i as int].0@ == addr@
                    && forall|j: int| i < j < self.data@.len() ==> self.data@[j].0@ != addr@,
                None => forall|j: int| 0 <= j < self.data@.len() ==> self.data@[j].0@ != addr@,
            },
    {
        let mut i: usize = self.data.len();
        while i > 0
            invariant
                i <= self.data@.len(),
                forall|j: int| i <= j < self.data@.len() ==> self.data@[j].0@ != addr@,
            decreases i,
        {
            i = i - 1;
            if str_eq(self.data[i].0.as_str(), addr) {
                return Some(i);
            }
        }
        None
    }

    /// Reads the word at a name.
    pub fn load(&self, addr: &str) -> (r: usize)
        ensures
            r == self.value_at(addr@),
    {
        match self.position(addr) {
            Some(i) => {
                proof {
                    lemma_latest_at(self.entries(), i as int, addr@);
                }
                self.data[i].1
            },
            None => {
                proof {
                    lemma_latest_none(self.entries(), addr@);
                }
                0
            },
        }
    }

    /// Writes a word at a name.
    pub fn store(&mut self, addr: &str, value: usize)
        ensures
            final(self)@ == old(self)@.insert(addr@, value),
            forall|a: Seq<char>|
                #[trigger] final(self).value_at(a) == if a == addr@ {
                    value
                } else {
                    old(self).value_at(a)
                },
            old(self).wf() ==> final(self).wf(),
    {
        let ghost before = self.entries();
        match self.position(addr) {
            Some(i) => {
                self.data.set(i, (addr.to_owned(), value));
                assert(self.entries() == before.update(i as int, (before[i as int].0, value)));
                assert forall|a: Seq<char>|
                    latest(self.entries(), a) == if a == addr@ {
                        Some(value)
                    } else {
                        latest(before, a)
                    } by {
                    lemma_latest_update(before, i as int, value, a);
                }
            },
            None => {
                self.data.push((addr.to_owned(), value));
                assert(self.entries() == before.push((addr@, value)));
                assert(self.entries().drop_last() == before);
            },
        }
        assert(final(self)@ =~= old(self)@.insert(addr@, value));
    }
}

impl View for Memory {
    type V = Map<Seq<char>, usize>;

    /// The names written so far, each with the word it holds.
    open spec fn view(&self) -> Map<Seq<char>, usize> {
        Map::new(
            |addr: Seq<char>| latest(self.entries(), addr) is Some,
            |addr: Seq<char>| latest(self.entries(), addr)->0,
        )
    }
}

/// The order in which entries are listed: by name in the order of strings,
/// and by word where the names are the same.
pub open spec fn entry_leq(a: (Seq<char>, usize), b: (Seq<char>, usize)) -> bool {
    lex_less(a.0, b.0) || (a.0 == b.0 && a.1 <= b.1)
}

/// The order of entries as a relation.
pub open spec fn entry_order() -> spec_fn((Seq<char>, usize), (Seq<char>, usize)) -> bool {
    |a: (Seq<char>, usize), b: (Seq<char>, usize)| entry_leq(a, b)
}

/// The order of entries is a total order.
pub proof fn lemma_entry_order_total()
    ensures
        total_ordering(entry_order()),
{
    let r = entry_order();
    assert forall|x: (Seq<char>, usize), y: (Seq<char>, usize)| #[trigger]
        r(x, y) && #[trigger] r(y, x) implies x == y by {
        lemma_lex_asymmetric(x.0, y.0);
        lemma_lex_asymmetric(x.0, x.0);
    }
    assert forall|x: (Seq<char>, usize), y: (Seq<char>, usize), z: (Seq<char>, usize)| #[trigger]
        r(x, y) && #[trigger] r(y, z) implies r(x, z) by {
        if lex_less(x.0, y.0) && lex_less(y.0, z.0) {
            lemma_lex_transitive(x.0, y.0, z.0);
        }
    }
    assert forall|x: (Seq<char>, usize), y: (Seq<char>, usize)| #[trigger]
        r(x, y) || #[trigger] r(y, x) by {
        lemma_lex_connected(x.0, y.0);
    }
}

/// The line of an entry: the name, a colon and a space, the word, a line
/// feed.
pub open spec fn entry_line(entry: (Seq<char>, usize)) -> Seq<char> {
    entry.0 + ": "@ + decimal(entry.1 as nat) + "\n"@
}

/// The lines of the entries, one after the other.
pub open spec fn entries_text(entries: Seq<(Seq<char>, usize)>) -> Seq<char>
    decreases entries.len(),
{
    if entries.len() == 0 {
        Seq::empty()
    } else {
        entries_text(entries.drop_last()) + entry_line(entries.last())
    }
}

/// Entries as mathematical pairs.
pub open spec fn pairs(entries: Seq<(String, usize)>) -> Seq<(Seq<char>, usize)> {
    Seq::new(entries.len(), |i: int| (entries[i].0@, entries[i].1))
}

impl Memory {
    /// The rendering of the memory: one line per name, the names in the
    /// order of strings.
    pub open spec fn text(&self) -> Seq<char> {
        entries_text(self.entries().sort_by(entry_order()))
    }

    /// The entries in the order in which they are listed.
    pub fn sorted_entries(&self) -> (out: Vec<(String, usize)>)
        ensures
            pairs(out@) == self.entries().sort_by(entry_order()),
    {
        broadcast use vstd::seq_lib::group_to_multiset_ensures;

        let ghost all = self.entries();
        let mut out: Vec<(String, usize)> = Vec::new();
        let mut i: usize = 0;
        proof {
            lemma_entry_order_total();
            assert(pairs(out@) =~= all.take(0));
        }
        while i < self.data.len()
            invariant
                i <= self.data@.len(),
                all == self.entries(),
                total_ordering(entry_order()),
                sorted_by(pairs(out@), entry_order()),
                pairs(out@).to_multiset() == all.take(i as int).to_multiset(),
            decreases self.data@.len() - i,
        {
            let name = &self.data[i].0;
            let value = self.data[i].1;
            let ghost entry = (name@, value);
            let ghost before = pairs(out@);
            let mut p: usize = 0;
            let mut found = false;
            while p < out.len() && !found
                invariant
                    p <= out@.len(),
                    before == pairs(out@),
                    entry == (name@, value),
                    forall|k: int| 0 <= k < p ==> entry_leq(before[k], entry),
                    found ==> p < out@.len() && !entry_leq(before[p as int], entry),
                decreases out@.len() - p + if found {
                    0int
                } else {
                    1int
                },
            {
                let earlier = str_less(out[p].0.as_str(), name.as_str()) || (str_eq(
                    out[p].0.as_str(),
                    name.as_str(),
                ) && out[p].1 <= value);
                if earlier {
                    p = p + 1;
                } else {
                    found = true;
                }
            }
            out.insert(p, (name.clone(), value));
            proof {
                let after = pairs(out@);
                let r = entry_order();
                assert(after == before.insert(p as int, entry));
                assert(all.take(i + 1) == all.take(i as int).push(entry));
                vstd::seq_lib::to_multiset_insert(before, p as int, entry);
                vstd::seq_lib::to_multiset_build(all.take(i as int), entry);
                assert forall|a: int, b: int| 0 <= a < b < after.len() implies #[trigger] r(
                    after[a],
                    after[b],
                ) by {
                    if b < p {
                        assert(r(before[a], before[b]));
                    } else if b == p {
                        assert(entry_leq(before[a], entry));
                    } else if a < p {
                        assert(r(before[a], before[b - 1]));
                    } else if a == p {
                        assert(found);
                        assert(!entry_leq(before[p as int], entry));
                        assert(r(before[p as int], entry) || r(entry, before[p as int]));
                        if b - 1 > p {
                            assert(r(before[p as int], before[b - 1]));
                            assert(r(entry, before[p as int]) && r(before[p as int], before[b - 1])
                                ==> r(entry, before[b - 1]));
                        }
                    } else {
                        assert(r(before[a - 1], before[b - 1]));
                    }
                }
            }
            i = i + 1;
        }
        proof {
            assert(all.take(i as int) == all);
            all.lemma_sort_by_ensures(entry_order());
            vstd::seq_lib::lemma_sorted_unique(
                pairs(out@),
                all.sort_by(entry_order()),
                entry_order(),
            );
        }
        out
    }

    /// Renders the memory.
    pub fn to_string(&self) -> (s: String)
        ensures
            s@ == self.text(),
    {
        let sorted = self.sorted_entries();
        let ghost all = pairs(sorted@);
        let mut s = String::new();
        let mut i: usize = 0;
        while i < sorted.len()
            invariant
                i <= sorted@.len(),
                all == pairs(sorted@),
                s@ == entries_text(all.take(i as int)),
            decreases sorted@.len() - i,
        {
            let ghost before = s@;
            assert(all.take(i + 1).drop_last() == all.take(i as int));
            assert(all.take(i + 1).last() == all[i as int]);
            s.append(sorted[i].0.as_str());
            s.append(": ");
            s.append(decimal_string(sorted[i].1).as_str());
            s.append("\n");
            assert(s@ == before + entry_line(all[i as int]));
            i = i + 1;
        }
        assert(all.take(i as int) == all);
        s
    }
}

/// A word that is latest at an address was written there.
pub proof fn lemma_latest_written(writes: Seq<(Seq<char>, usize)>, addr: Seq<char>)
    requires
        latest(writes, addr) is Some,
    ensures
        writes.contains((addr, latest(writes, addr)->0)),
    decreases writes.len(),
{
    if writes.last().0 == addr {
        assert(writes[writes.len() - 1] == (addr, latest(writes, addr)->0));
    } else {
        lemma_latest_written(writes.drop_last(), addr);
        let k = choose|k: int|
            0 <= k < writes.drop_last().len() && writes.drop_last()[k] == (
                addr,
                latest(writes, addr)->0,
            );
        assert(writes[k] == (addr, latest(writes, addr)->0));
    }
}

impl Memory {
    /// Where no name occurs twice, the entries are the pairs of the view.
    pub proof fn lemma_entries(&self, addr: Seq<char>, value: usize)
        requires
            self.wf(),
        ensures
            self.entries().contains((addr, value)) <==> self@.contains_key(addr) && self@[addr]
                == value,
            self.entries().no_duplicates(),
    {
        let entries = self.entries();
        if entries.contains((addr, value)) {
            let i = choose|i: int| 0 <= i < entries.len() && entries[i] == (addr, value);
            assert forall|j: int| i < j < entries.len() implies entries[j].0 != addr by {
                assert(self.data@[i].0@ != self.data@[j].0@);
            }
            lemma_latest_at(entries, i, addr);
        }
        if self@.contains_key(addr) && self@[addr] == value {
            lemma_latest_written(entries, addr);
        }
        assert forall|i: int, j: int| 0 <= i < entries.len() && 0 <= j < entries.len() && i
            != j implies entries[i] != entries[j] by {
            if i < j {
                assert(self.data@[i].0@ != self.data@[j].0@);
            } else {
                assert(self.data@[j].0@ != self.data@[i].0@);
            }
        }
    }

    /// The rendering of a memory is that of its view: memories in which
    /// no name occurs twice, and which hold the same words at the same
    /// names, render alike.
    pub proof fn lemma_text_of_view(&self, other: &Memory)
        requires
            self.wf(),
            other.wf(),
            self@ == other@,
        ensures
            self.text() == other.text(),
    {
        broadcast use vstd::seq_lib::group_to_multiset_ensures;

        let a = self.entries();
        let b = other.entries();
        assert forall|e: (Seq<char>, usize)| a.to_multiset().count(e) == b.to_multiset().count(
            e,
        ) by {
            self.lemma_entries(e.0, e.1);
            other.lemma_entries(e.0, e.1);
            a.lemma_multiset_has_no_duplicates();
            b.lemma_multiset_has_no_duplicates();
            assert(a.contains(e) <==> b.contains(e));
            assert(a.contains(e) <==> a.to_multiset().count(e) > 0);
            assert(b.contains(e) <==> b.to_multiset().count(e) > 0);
            if a.contains(e) {
                assert(a.to_multiset().contains(e));
                assert(b.to_multiset().contains(e));
            }
        }
        assert(a.to_multiset() =~= b.to_multiset());
        lemma_entry_order_total();
        a.lemma_sort_by_ensures(entry_order());
        b.lemma_sort_by_ensures(entry_order());
        vstd::seq_lib::lemma_sorted_unique(
            a.sort_by(entry_order()),
            b.sort_by(entry_order()),
            entry_order(),
        );
    }
}

/// What the execution engines ask of a memory: stores and loads on behalf
/// of a thread, and the propagation of a thread's pending writes.
pub trait MemorySubsystem {
    /// The word that a load of `addr` on behalf of `thread_id` returns.
    spec fn visible(&self, addr: Seq<char>, thread_id: usize) -> usize;

    /// Whether `propagate` may be called for `thread_id`.
    spec fn can_propagate(&self, thread_id: usize) -> bool;

    /// Stores a word. The storing thread then reads it back, and no other
    /// address changes for any thread.
    fn store(&mut self, addr: &str, value: usize, thread_id: usize)
        ensures
            final(self).visible(addr@, thread_id) == value,
            forall|a: Seq<char>, t: usize|
                a != addr@ ==> #[trigger] final(self).visible(a, t) == old(self).visible(a, t),
    ;

    /// Loads a word.
    fn load(&self, addr: &str, thread_id: usize) -> (r: usize)
        ensures
            r == self.visible(addr@, thread_id),
    ;

    /// Makes the oldest pending write of a thread, if it has one, visible
    /// to all threads. What the thread itself reads does not change.
    fn propagate(&mut self, thread_id: usize)
        requires
            old(self).can_propagate(thread_id),
        ensures
            forall|a: Seq<char>|
                #[trigger] final(self).visible(a, thread_id) == old(self).visible(a, thread_id),
    ;
}

/// Memory under sequential consistency: every store is visible to every
/// thread at once.
pub struct SCMemorySubsystem {
    pub memory: Memory,
}

impl SCMemorySubsystem {
    pub fn new() -> (m: Self)
        ensures
            m.memory.wf(),
            m.memory@ == Map::<Seq<char>, usize>::empty(),
            forall|addr: Seq<char>| #[trigger] m.memory.value_at(addr) == 0,
            forall|addr: Seq<char>, t: usize| #[trigger] m.visible(addr, t) == 0,
    {
        Self { memory: Memory::new() }
    }
}

impl MemorySubsystem for SCMemorySubsystem {
    open spec fn visible(&self, addr: Seq<char>, thread_id: usize) -> usize {
        self.memory.value_at(addr)
    }

    open spec fn can_propagate(&self, thread_id: usize) -> bool {
        true
    }

    fn store(&mut self, addr: &str, value: usize, thread_id: usize)
        ensures
            final(self).memory@ == old(self).memory@.insert(addr@, value),
            forall|a: Seq<char>|
                #[trigger] final(self).memory.value_at(a) == if a == addr@ {
                    value
                } else {
                    old(self).memory.value_at(a)
                },
            old(self).memory.wf() ==> final(self).memory.wf(),
    {
        self.memory.store(addr, value);
    }

    fn load(&self, addr: &str, thread_id: usize) -> (r: usize) {
        self.memory.load(addr)
    }

    fn propagate(&mut self, thread_id: usize)
        ensures
            *final(self) == *old(self),
    {
    }
}

/// The pending writes of one thread, oldest first.
pub struct Buffer {
    pub operations: VecDeque<WriteOperation>,
}

impl View for Buffer {
    type V = Seq<(Seq<char>, usize)>;

    /// The pending writes as pairs of address and word, oldest first.
    open spec fn view(&self) -> Seq<(Seq<char>, usize)> {
        Seq::new(
            self.operations@.len(),
            |i: int| (self.operations@[i].addr@, self.operations@[i].value),
        )
    }
}

impl Buffer {
    pub fn new() -> (b: Self)
        ensures
            b@ == Seq::<(Seq<char>, usize)>::empty(),
    {
        let b = Self { operations: VecDeque::new() };
        assert(b@ =~= Seq::<(Seq<char>, usize)>::empty());
        b
    }

    /// The word most recently written to `addr`, if any write to it is
    /// pending.
    pub fn load(&self, addr: &str) -> (r: Option<usize>)
        ensures
            r == latest(self@, addr@),
    {
        let mut i: usize = self.operations.len();
        while i > 0
            invariant
                i <= self.operations@.len(),
                forall|j: int| i <= j < self.operations@.len() ==> self@[j].0 != addr@,
            decreases i,
        {
            i = i - 1;
            if str_eq(self.operations[i].addr.as_str(), addr) {
                proof {
                    lemma_latest_at(self@, i as int, addr@);
                }
                return Some(self.operations[i].value);
            }
        }
        proof {
            lemma_latest_none(self@, addr@);
        }
        None
    }

    /// Appends a write.
    pub fn push(&mut self, operation: WriteOperation)
        ensures
            final(self)@ == old(self)@.push((operation.addr@, operation.value)),
    {
        self.operations.push_back(operation);
        assert(final(self)@ =~= old(self)@.push((operation.addr@, operation.value)));
    }

    /// Takes the oldest write out, if there is one.
    pub fn propagate(&mut self) -> (r: Option<WriteOperation>)
        ensures
            match r {
                Some(write) => old(self)@.len() > 0 && (write.addr@, write.value) == old(self)@[0]
                    && final(self)@ == old(self)@.skip(1),
                None => old(self)@.len() == 0 && final(self)@ == old(self)@,
            },
    {
        let r = self.operations.pop_front();
        assert(r is Some ==> final(self)@ =~= old(self)@.skip(1));
        assert(r is None ==> final(self)@ =~= old(self)@);
        r
    }
}

/// Memory under total or partial store order: each thread's stores wait in
/// its own buffer until they are propagated, and only that thread sees them
/// meanwhile.
pub struct TSOMemorySubsystem {
    pub memory: Memory,
    pub buffers: HashMap<usize, Buffer>,
}

impl TSOMemorySubsystem {
    /// The pending writes of a thread, oldest first; none for a thread that
    /// has had no buffer yet.
    pub open spec fn pending(&self, thread_id: usize) -> Seq<(Seq<char>, usize)> {
        if self.buffers@.contains_key(thread_id) {
            self.buffers@[thread_id]@
        } else {
            Seq::empty()
        }
    }

    pub fn new() -> (m: Self)
        ensures
            m.memory.wf(),
            m.memory@ == Map::<Seq<char>, usize>::empty(),
            m.buffers@ == Map::<usize, Buffer>::empty(),
            forall|addr: Seq<char>| #[trigger] m.memory.value_at(addr) == 0,
            forall|addr: Seq<char>, t: usize| #[trigger] m.visible(addr, t) == 0,
    {
        Self { memory: Memory::new(), buffers: HashMap::new() }
    }
}

impl MemorySubsystem for TSOMemorySubsystem {
    open spec fn visible(&self, addr: Seq<char>, thread_id: usize) -> usize {
        match latest(self.pending(thread_id), addr) {
            Some(v) => v,
            None => self.memory.value_at(addr),
        }
    }

    open spec fn can_propagate(&self, thread_id: usize) -> bool {
        self.buffers@.contains_key(thread_id)
    }

    fn store(&mut self, addr: &str, value: usize, thread_id: usize)
        ensures
            final(self).memory == old(self).memory,
            final(self).pending(thread_id) == old(self).pending(thread_id).push((addr@, value)),
            final(self).buffers@.dom() == old(self).buffers@.dom().insert(thread_id),
            forall|t: usize|
                t != thread_id && old(self).buffers@.contains_key(t) ==> final(self).buffers@[t]
                    == old(self).buffers@[t],
    {
        let mut buffer = match self.buffers.remove(&thread_id) {
            Some(b) => b,
            None => Buffer::new(),
        };
        assert(buffer@ == old(self).pending(thread_id));
        buffer.push(WriteOperation::new(addr.to_owned(), value));
        self.buffers.insert(thread_id, buffer);
        assert(final(self).buffers@.dom() =~= old(self).buffers@.dom().insert(thread_id));
        assert(final(self).pending(thread_id).drop_last() == old(self).pending(thread_id));
        assert forall|a: Seq<char>, t: usize| a != addr@ implies #[trigger] final(self).visible(
            a,
            t,
        ) == old(self).visible(a, t) by {
            if t != thread_id {
                assert(final(self).pending(t) == old(self).pending(t));
            }
        }
    }

    fn load(&self, addr: &str, thread_id: usize) -> (r: usize) {
        match self.buffers.get(&thread_id) {
            Some(buffer) => match buffer.load(addr) {
                Some(v) => v,
                None => self.memory.load(addr),
            },
            None => self.memory.load(addr),
        }
    }

    fn propagate(&mut self, thread_id: usize)
        ensures
            final(self).buffers@.dom() == old(self).buffers@.dom(),
            forall|t: usize|
                t != thread_id && old(self).buffers@.contains_key(t) ==> final(self).buffers@[t]
                    == old(self).buffers@[t],
            old(self).pending(thread_id).len() == 0 ==> final(self).memory == old(self).memory
                && final(self).pending(thread_id) == old(self).pending(thread_id),
            old(self).pending(thread_id).len() > 0 ==> {
                let head = old(self).pending(thread_id)[0];
                &&& final(self).pending(thread_id) == old(self).pending(thread_id).skip(1)
                &&& final(self).memory@ == old(self).memory@.insert(head.0, head.1)
                &&& forall|a: Seq<char>|
                    final(self).memory.value_at(a) == if a == head.0 {
                        head.1
                    } else {
                        old(self).memory.value_at(a)
                    }
            },
            old(self).memory.wf() ==> final(self).memory.wf(),
    {
        let removed = self.buffers.remove(&thread_id);
        let mut buffer = match removed {
            Some(b) => b,
            None => Buffer::new(),
        };
        let ghost before = buffer@;
        assert(before == old(self).pending(thread_id));
        let write = buffer.propagate();
        self.buffers.insert(thread_id, buffer);
        assert(self.buffers@.dom() =~= old(self).buffers@.dom());
        match write {
            Some(w) => {
                self.memory.store(w.addr.as_str(), w.value);
                assert forall|a: Seq<char>| #[trigger]
                    self.visible(a, thread_id) == old(self).visible(a, thread_id) by {
                    lemma_latest_skip(before, a);
                }
            },
            None => {},
        }
    }
}

} // verus!

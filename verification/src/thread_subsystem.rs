//! The register file and the two execution engines: one for sequential
//! consistency, driven by program counters, and one for total and partial
//! store order, driven by the leaves of the dependency graph.
use vstd::prelude::*;
use vstd::string::*;
use std::collections::HashMap;
use crate::dependency_graph::{propagate_key, DependencyGraph, NodeType};
use crate::graph_model::{GraphView, NodeId, NodeTypeView, PropagateView};
use crate::instruction::{
    Instruction, InstructionView, LabeledInstruction, Reference, ReferenceView,
};
use crate::memory_subsystem::{
    Buffer, Memory, MemorySubsystem, SCMemorySubsystem, TSOMemorySubsystem,
};
use crate::text::{decimal, decimal_string, str_eq};

verus! {

broadcast use vstd::std_specs::hash::group_hash_axioms;

/// The registers of every thread: one bank of words by name per thread.
pub struct Registers {
    pub registers: HashMap<usize, Memory>,
}

impl Registers {
    /// Whether the thread has a bank.
    pub open spec fn has_bank(&self, thread_id: usize) -> bool {
        self.registers@.contains_key(thread_id)
    }

    /// The word in a register of a thread: what was last stored there, or 0.
    pub open spec fn value(&self, reg: Seq<char>, thread_id: usize) -> usize {
        self.registers@[thread_id].value_at(reg)
    }

    /// The invariant: no bank holds a name twice.
    pub open spec fn wf(&self) -> bool {
        forall|t: usize| #[trigger] self.has_bank(t) ==> self.registers@[t].wf()
    }

    /// Whether the banks are those of the first `threads` threads, and
    /// nothing was written to any of them.
    pub open spec fn fresh(&self, threads: nat) -> bool {
        &&& forall|t: usize| #[trigger] self.has_bank(t) <==> t < threads
        &&& forall|t: usize|
            #[trigger] self.has_bank(t) ==> self.registers@[t]@ == Map::<Seq<char>, usize>::empty()
    }

    pub fn new() -> (r: Self)
        ensures
            forall|t: usize| !r.has_bank(t),
            r.wf(),
    {
        Self { registers: HashMap::new() }
    }

    /// Gives a thread a bank in which every register holds 0. The banks of
    /// the other threads stay as they are.
    pub fn add_bank(&mut self, thread_id: usize)
        ensures
            forall|t: usize|
                #[trigger] final(self).has_bank(t) <==> old(self).has_bank(t) || t == thread_id,
            forall|t: usize|
                old(self).has_bank(t) && t != thread_id ==> #[trigger] final(self).registers@[t]
                    == old(self).registers@[t],
            final(self).registers@[thread_id]@ == Map::<Seq<char>, usize>::empty(),
            forall|reg: Seq<char>| #[trigger] final(self).value(reg, thread_id) == 0,
            forall|reg: Seq<char>, t: usize|
                t != thread_id && old(self).has_bank(t) ==> #[trigger] final(self).value(reg, t)
                    == old(self).value(reg, t),
            old(self).wf() ==> final(self).wf(),
    {
        self.registers.insert(thread_id, Memory::new());
        proof {
            if old(self).wf() {
                assert forall|t: usize| #[trigger]
                    self.has_bank(t) implies self.registers@[t].wf() by {
                    if t != thread_id {
                        assert(old(self).has_bank(t));
                    }
                }
            }
        }
    }

    /// Reads a register of a thread that has a bank.
    pub fn load(&self, addr: &str, thread_id: usize) -> (r: usize)
        requires
            self.has_bank(thread_id),
        ensures
            r == self.value(addr@, thread_id),
    {
        match self.registers.get(&thread_id) {
            Some(bank) => bank.load(addr),
            None => 0,
        }
    }

    /// Writes a register of a thread that has a bank. The other banks stay
    /// as they are.
    pub fn store(&mut self, addr: &str, value: usize, thread_id: usize)
        requires
            old(self).has_bank(thread_id),
        ensures
            forall|t: usize| #[trigger] final(self).has_bank(t) == old(self).has_bank(t),
            forall|t: usize|
                old(self).has_bank(t) && t != thread_id ==> #[trigger] final(self).registers@[t]
                    == old(self).registers@[t],
            final(self).registers@[thread_id]@ == old(self).registers@[thread_id]@.insert(
                addr@,
                value,
            ),
            forall|reg: Seq<char>|
                #[trigger] final(self).value(reg, thread_id) == if reg == addr@ {
                    value
                } else {
                    old(self).value(reg, thread_id)
                },
            old(self).wf() ==> final(self).wf(),
    {
        match self.registers.remove(&thread_id) {
            Some(bank) => {
                let mut bank = bank;
                bank.store(addr, value);
                self.registers.insert(thread_id, bank);
            },
            None => {},
        }
        proof {
            if old(self).wf() {
                assert(old(self).has_bank(thread_id));
                assert forall|t: usize| #[trigger]
                    self.has_bank(t) implies self.registers@[t].wf() by {
                    assert(old(self).has_bank(t));
                }
            }
        }
    }
}

/// Whether a sequence of threads rises strictly.
pub open spec fn increasing(order: Seq<usize>) -> bool {
    forall|i: int, j: int| 0 <= i < j < order.len() ==> order[i] < order[j]
}

impl Registers {
    /// The rendering of the banks of the given threads, one after the
    /// other: a line that names the thread, the bank's registers, and an
    /// empty line.
    pub open spec fn banks_text(&self, order: Seq<usize>) -> Seq<char>
        decreases order.len(),
    {
        if order.len() == 0 {
            Seq::empty()
        } else {
            self.banks_text(order.drop_last()) + "Thread "@ + decimal(
                order.last() as nat,
            ) + "\n"@ + self.registers@[order.last()].text() + "\n"@
        }
    }

    /// Whether a text is the rendering of the registers: that of the banks
    /// of all threads, in rising order of the threads.
    pub open spec fn is_text(&self, text: Seq<char>) -> bool {
        exists|order: Seq<usize>|
            increasing(order) && (forall|t: usize| order.contains(t) <==> self.has_bank(t))
                && #[trigger] self.banks_text(order) == text
    }

    /// The threads that have a bank, in rising order.
    pub fn threads(&self) -> (out: Vec<usize>)
        ensures
            increasing(out@),
            forall|t: usize| out@.contains(t) <==> self.has_bank(t),
    {
        let ghost all = vstd::std_specs::iter::IteratorSpec::remaining(
            &vstd::std_specs::hash::spec_keys_iter(&self.registers),
        );
        let mut out: Vec<usize> = Vec::new();
        for key in it: self.registers.keys()
            invariant
                it.seq() == all,
                all.unref().no_duplicates(),
                increasing(out@),
                forall|t: usize|
                    out@.contains(t) <==> all.take(it.index() as int).unref().contains(t),
        {
            let thread_id = *key;
            let ghost before = out@;
            let ghost seen = all.take(it.index() as int).unref();
            let mut p: usize = 0;
            while p < out.len() && out[p] < thread_id
                invariant
                    p <= out@.len(),
                    before == out@,
                    forall|k: int| 0 <= k < p ==> before[k] < thread_id,
                decreases out@.len() - p,
            {
                p = p + 1;
            }
            proof {
                assert(!seen.contains(thread_id)) by {
                    if seen.contains(thread_id) {
                        let m = choose|m: int| 0 <= m < seen.len() && seen[m] == thread_id;
                        assert(all.unref()[m] == all.unref()[it.index() as int]);
                    }
                }
                assert(!before.contains(thread_id));
                if p < before.len() {
                    assert(before.contains(before[p as int]));
                }
            }
            out.insert(p, thread_id);
            proof {
                let after = out@;
                let next = all.take(it.index() + 1).unref();
                assert(next == seen.push(thread_id));
                assert forall|t: usize| after.contains(t) <==> next.contains(t) by {
                    if after.contains(t) {
                        let m = choose|m: int| 0 <= m < after.len() && after[m] == t;
                        if m < p {
                            assert(before[m] == t);
                            assert(before.contains(t));
                        } else if m > p {
                            assert(before[m - 1] == t);
                            assert(before.contains(t));
                        }
                        if t == thread_id {
                            assert(next[seen.len() as int] == t);
                        } else {
                            assert(before.contains(t) <==> seen.contains(t));
                            let k = choose|k: int| 0 <= k < seen.len() && seen[k] == t;
                            assert(next[k] == t);
                        }
                    }
                    if next.contains(t) {
                        let k = choose|k: int| 0 <= k < next.len() && next[k] == t;
                        if k == seen.len() {
                            assert(after[p as int] == t);
                        } else {
                            assert(seen[k] == t);
                            assert(seen.contains(t));
                            assert(before.contains(t) <==> seen.contains(t));
                            let m = choose|m: int| 0 <= m < before.len() && before[m] == t;
                            if m < p {
                                assert(after[m] == t);
                            } else {
                                assert(after[m + 1] == t);
                            }
                        }
                    }
                }
                assert forall|i: int, j: int| 0 <= i < j < after.len() implies after[i]
                    < after[j] by {
                    if j < p {
                    } else if j == p {
                    } else if i < p {
                        assert(before[i] < before[j - 1]);
                    } else if i == p {
                        assert(before[p as int] <= before[j - 1]);
                    } else {
                        assert(before[i - 1] < before[j - 1]);
                    }
                }
            }
        }
        proof {
            assert(all.take(all.len() as int) == all);
            assert forall|t: usize| out@.contains(t) <==> self.has_bank(t) by {
                assert(all.unref().to_set().contains(t) <==> all.unref().contains(t));
            }
        }
        out
    }

    /// Renders the registers.
    pub fn to_string(&self) -> (s: String)
        ensures
            self.is_text(s@),
    {
        let threads = self.threads();
        let mut s = String::new();
        let mut i: usize = 0;
        while i < threads.len()
            invariant
                i <= threads@.len(),
                forall|t: usize| threads@.contains(t) <==> self.has_bank(t),
                s@ == self.banks_text(threads@.take(i as int)),
            decreases threads@.len() - i,
        {
            let ghost before = s@;
            assert(threads@.take(i + 1).drop_last() == threads@.take(i as int));
            assert(threads@.take(i + 1).last() == threads@[i as int]);
            assert(threads@.contains(threads@[i as int]));
            assert(self.has_bank(threads@[i as int]));
            s.append("Thread ");
            s.append(decimal_string(threads[i]).as_str());
            s.append("\n");
            match self.registers.get(&threads[i]) {
                Some(bank) => {
                    assert(*bank == self.registers@[threads@[i as int]]);
                    s.append(bank.to_string().as_str());
                },
                None => {
                    assert(false);
                },
            }
            s.append("\n");
            assert(s@ == before + "Thread "@ + decimal(threads@[i as int] as nat)
                + "\n"@ + self.registers@[threads@[i as int]].text() + "\n"@);
            i = i + 1;
        }
        assert(threads@.take(i as int) == threads@);
        assert(self.banks_text(threads@) == s@);
        s
    }
}

/// What one instruction does: the register it writes, the memory write it
/// makes, and the label it jumps to.
pub struct Effect {
    pub register: Option<(Seq<char>, usize)>,
    pub memory: Option<(Seq<char>, usize)>,
    pub jump: Option<Seq<char>>,
}

/// The effect of an instruction for a thread that reads its registers by
/// `reg` and memory by `mem`; `None` where the operands have the wrong
/// shape, or where the arithmetic has no result that is a machine word.
pub open spec fn effect(
    instruction: InstructionView,
    reg: spec_fn(Seq<char>) -> usize,
    mem: spec_fn(Seq<char>) -> usize,
) -> Option<Effect> {
    match instruction {
        InstructionView::AssignConst(ReferenceView::Register(dest), n) => Some(
            Effect { register: Some((dest, n)), memory: None, jump: None },
        ),
        InstructionView::AssignOperation(
            ReferenceView::Register(dest),
            ReferenceView::Register(lhs),
            op,
            ReferenceView::Register(rhs),
        ) => if op.defined(reg(lhs), reg(rhs)) {
            Some(
                Effect {
                    register: Some((dest, op.result(reg(lhs) as int, reg(rhs) as int) as usize)),
                    memory: None,
                    jump: None,
                },
            )
        } else {
            None
        },
        InstructionView::ConditionalJump(ReferenceView::Register(cond), label) => Some(
            Effect {
                register: None,
                memory: None,
                jump: if reg(cond) != 0 {
                    Some(label)
                } else {
                    None
                },
            },
        ),
        InstructionView::Load(
            _,
            ReferenceView::Memory(addr),
            ReferenceView::Register(dest),
        ) => Some(Effect { register: Some((dest, mem(addr))), memory: None, jump: None }),
        InstructionView::Store(
            _,
            ReferenceView::Register(src),
            ReferenceView::Memory(addr),
        ) => Some(Effect { register: None, memory: Some((addr, reg(src))), jump: None }),
        InstructionView::Cas(
            ReferenceView::Register(dest),
            _,
            ReferenceView::Memory(addr),
            ReferenceView::Register(expected),
            ReferenceView::Register(desired),
        ) => Some(
            Effect {
                register: Some((dest, mem(addr))),
                memory: if mem(addr) == reg(expected) {
                    Some((addr, reg(desired)))
                } else {
                    None
                },
                jump: None,
            },
        ),
        InstructionView::Fai(
            ReferenceView::Register(dest),
            _,
            ReferenceView::Memory(addr),
            ReferenceView::Register(increment),
        ) => if mem(addr) + reg(increment) <= usize::MAX {
            Some(
                Effect {
                    register: Some((dest, mem(addr))),
                    memory: Some((addr, (mem(addr) + reg(increment)) as usize)),
                    jump: None,
                },
            )
        } else {
            None
        },
        InstructionView::Fence(_) => Some(Effect { register: None, memory: None, jump: None }),
        _ => None,
    }
}

/// Whether the registers changed by one write at most. Without a write
/// they are as they were. With one, the banks of the other threads are as
/// they were, and the bank of the thread holds the word written at the
/// register written and is otherwise as it was.
pub open spec fn registers_updated(
    before: Registers,
    after: Registers,
    thread_id: usize,
    write: Option<(Seq<char>, usize)>,
) -> bool {
    match write {
        Some((dest, v)) => {
            &&& forall|t: usize| #[trigger] after.has_bank(t) == before.has_bank(t)
            &&& forall|t: usize|
                before.has_bank(t) && t != thread_id ==> #[trigger] after.registers@[t]
                    == before.registers@[t]
            &&& after.registers@[thread_id]@ == before.registers@[thread_id]@.insert(dest, v)
            &&& forall|reg: Seq<char>|
                #[trigger] after.value(reg, thread_id) == if reg == dest {
                    v
                } else {
                    before.value(reg, thread_id)
                }
        },
        None => after == before,
    }
}

/// Whether main memory changed by one write at most. Without a write it is
/// as it was. With one, it holds the word written at the address written
/// and is otherwise as it was.
pub open spec fn memory_updated(
    before: Memory,
    after: Memory,
    write: Option<(Seq<char>, usize)>,
) -> bool {
    match write {
        Some((dest, v)) => {
            &&& after@ == before@.insert(dest, v)
            &&& forall|addr: Seq<char>|
                #[trigger] after.value_at(addr) == if addr == dest {
                    v
                } else {
                    before.value_at(addr)
                }
        },
        None => after == before,
    }
}

/// The position of the first line of a program that carries the label.
pub open spec fn label_index(program: Seq<LabeledInstruction>, label: Seq<char>) -> Option<int>
    decreases program.len(),
{
    if program.len() == 0 {
        None
    } else {
        match label_index(program.drop_last(), label) {
            Some(i) => Some(i),
            None => if program.last()@.label == Some(label) {
                Some(program.len() - 1)
            } else {
                None
            },
        }
    }
}

/// The engine for sequential consistency: one program counter per thread,
/// and a memory in which every store is visible at once.
pub struct SequentialConsistency {
    pub memory_subsystem: SCMemorySubsystem,
    pub programs: Vec<Vec<LabeledInstruction>>,
    pub instruction_pointers: Vec<usize>,
    pub registers: Registers,
}

impl SequentialConsistency {
    /// The invariant: every thread has a program counter and a register
    /// bank, and neither a bank nor the memory holds a name twice.
    pub open spec fn wf(&self) -> bool {
        &&& self.instruction_pointers@.len() == self.programs@.len()
        &&& forall|t: usize| t < self.programs@.len() ==> #[trigger] self.registers.has_bank(t)
        &&& self.registers.wf()
        &&& self.memory_subsystem.memory.wf()
    }

    /// How a thread reads its registers.
    pub open spec fn reg(&self, thread_id: usize) -> spec_fn(Seq<char>) -> usize {
        |name: Seq<char>| self.registers.value(name, thread_id)
    }

    /// How a thread reads memory.
    pub open spec fn mem(&self, thread_id: usize) -> spec_fn(Seq<char>) -> usize {
        |addr: Seq<char>| self.memory_subsystem.visible(addr, thread_id)
    }

    /// The effect that an instruction has in this state.
    pub open spec fn effect_of(&self, instruction: LabeledInstruction) -> Option<Effect> {
        effect(
            instruction@.instruction,
            self.reg(instruction.thread_id),
            self.mem(instruction.thread_id),
        )
    }

    /// Whether an instruction can be executed in this state: its thread
    /// exists and its counter can advance, its operands have the right
    /// shape, its arithmetic has a result, and the label it would jump to
    /// is in its thread's program.
    pub open spec fn executable(&self, instruction: LabeledInstruction) -> bool {
        &&& instruction.thread_id < self.programs@.len()
        &&& self.instruction_pointers@[instruction.thread_id as int] < usize::MAX
        &&& self.effect_of(instruction) matches Some(e) && (e.jump matches Some(label)
            ==> label_index(self.programs@[instruction.thread_id as int]@, label) is Some)
    }

    /// The program counter of an instruction's thread after the instruction.
    pub open spec fn next_pointer(&self, instruction: LabeledInstruction) -> int {
        match self.effect_of(instruction)->0.jump {
            Some(label) => label_index(self.programs@[instruction.thread_id as int]@, label)->0,
            None => self.instruction_pointers@[instruction.thread_id as int] + 1,
        }
    }

    /// Whether `after` is this state once the instruction has been
    /// executed: its effect has been applied to the registers of its thread
    /// and to memory, and the thread's program counter stands at the next
    /// line, or at the line of the label where the jump was taken.
    pub open spec fn stepped(
        &self,
        after: SequentialConsistency,
        instruction: LabeledInstruction,
    ) -> bool {
        &&& after.wf()
        &&& after.programs == self.programs
        &&& after.instruction_pointers@ == self.instruction_pointers@.update(
            instruction.thread_id as int,
            self.next_pointer(instruction) as usize,
        )
        &&& registers_updated(
            self.registers,
            after.registers,
            instruction.thread_id,
            self.effect_of(instruction)->0.register,
        )
        &&& memory_updated(
            self.memory_subsystem.memory,
            after.memory_subsystem.memory,
            self.effect_of(instruction)->0.memory,
        )
    }

    /// The instructions at the program counters of the first `n` threads
    /// that have not finished.
    pub open spec fn executable_among(&self, n: int) -> Seq<LabeledInstruction>
        decreases n,
    {
        if n <= 0 {
            Seq::empty()
        } else {
            let rest = self.executable_among(n - 1);
            let pointer = self.instruction_pointers@[n - 1];
            if pointer < self.programs@[n - 1]@.len() {
                rest.push(self.programs@[n - 1]@[pointer as int])
            } else {
                rest
            }
        }
    }

    /// Whether nothing has run yet: every program counter stands at the
    /// first line, and nothing was written to memory or to a register.
    pub open spec fn fresh(&self) -> bool {
        &&& self.wf()
        &&& forall|t: int|
            0 <= t < self.programs@.len() ==> #[trigger] self.instruction_pointers@[t] == 0
        &&& self.memory_subsystem.memory@ == Map::<Seq<char>, usize>::empty()
        &&& self.registers.fresh(self.programs@.len())
    }

    /// Loads the programs, in the state in which nothing has run.
    pub fn new(programs: Vec<Vec<LabeledInstruction>>) -> (sc: Self)
        ensures
            sc.programs == programs,
            sc.fresh(),
    {
        let mut registers = Registers::new();
        let mut instruction_pointers: Vec<usize> = Vec::new();
        let mut thread_id: usize = 0;
        while thread_id < programs.len()
            invariant
                thread_id <= programs@.len(),
                instruction_pointers@.len() == thread_id,
                forall|t: int| 0 <= t < thread_id ==> instruction_pointers@[t] == 0,
                registers.wf(),
                registers.fresh(thread_id as nat),
            decreases programs@.len() - thread_id,
        {
            let ghost before = registers;
            registers.add_bank(thread_id);
            instruction_pointers.push(0);
            assert forall|t: usize| #[trigger]
                registers.has_bank(t) implies registers.registers@[t]@ == Map::<
                Seq<char>,
                usize,
            >::empty() by {
                if t != thread_id {
                    assert(before.has_bank(t));
                }
            }
            thread_id = thread_id + 1;
        }
        Self {
            memory_subsystem: SCMemorySubsystem::new(),
            programs,
            instruction_pointers,
            registers,
        }
    }

    /// The steps that may be taken next: the instruction at the program
    /// counter of each thread that has not finished, in thread order.
    pub fn get_instructions_to_exec(&self) -> (r: Vec<LabeledInstruction>)
        requires
            self.wf(),
        ensures
            r@ == self.executable_among(self.programs@.len() as int),
    {
        let mut instructions_to_exec: Vec<LabeledInstruction> = Vec::new();
        let mut thread_id: usize = 0;
        while thread_id < self.programs.len()
            invariant
                self.wf(),
                thread_id <= self.programs@.len(),
                instructions_to_exec@ == self.executable_among(thread_id as int),
            decreases self.programs@.len() - thread_id,
        {
            let instruction_pointer = self.instruction_pointers[thread_id];
            if instruction_pointer < self.programs[thread_id].len() {
                instructions_to_exec.push(self.programs[thread_id][instruction_pointer].clone());
            }
            thread_id = thread_id + 1;
        }
        instructions_to_exec
    }

    /// The position of the first line of a thread's program that carries
    /// the label, if any does.
    pub fn find_label_index(&self, thread_id: usize, label: &str) -> (r: Option<usize>)
        requires
            thread_id < self.programs@.len(),
        ensures
            match r {
                Some(i) => label_index(self.programs@[thread_id as int]@, label@) == Some(
                    i as int,
                ),
                None => label_index(self.programs@[thread_id as int]@, label@) is None,
            },
    {
        let program = &self.programs[thread_id];
        assert(program@ == self.programs@[thread_id as int]@);
        let mut index: usize = 0;
        while index < program.len()
            invariant
                thread_id < self.programs@.len(),
                program@ == self.programs@[thread_id as int]@,
                index <= program@.len(),
                label_index(program@.take(index as int), label@) is None,
            decreases program@.len() - index,
        {
            assert(program@.take(index + 1).drop_last() == program@.take(index as int));
            assert(program@.take(index + 1).last() == program@[index as int]);
            let found = match &program[index].label {
                Some(name) => str_eq(name.as_str(), label),
                None => false,
            };
            if found {
                proof {
                    assert(program@[index as int]@.label == Some(label@));
                    assert(label_index(program@.take(index + 1), label@) == Some(index as int));
                    lemma_label_prefix(program@, index + 1, label@);
                }
                return Some(index);
            }
            assert(program@[index as int]@.label != Some(label@));
            index = index + 1;
        }
        assert(program@.take(index as int) == program@);
        None
    }
}

/// A label found among the first lines of a program is found at the same
/// place in the whole program.
pub proof fn lemma_label_prefix(program: Seq<LabeledInstruction>, n: int, label: Seq<char>)
    requires
        0 <= n <= program.len(),
        label_index(program.take(n), label) is Some,
    ensures
        label_index(program, label) == label_index(program.take(n), label),
    decreases program.len(),
{
    if n == program.len() {
        assert(program.take(n) == program);
    } else {
        assert(program.drop_last().take(n) == program.take(n));
        lemma_label_prefix(program.drop_last(), n, label);
    }
}

impl SequentialConsistency {
    /// Whether an instruction can be executed in this state.
    pub fn can_exec(&self, instruction: &LabeledInstruction) -> (b: bool)
        requires
            self.wf(),
        ensures
            b == self.executable(*instruction),
    {
        let thread_id = instruction.thread_id;
        if thread_id >= self.programs.len() {
            return false;
        }
        if self.instruction_pointers[thread_id] == usize::MAX {
            return false;
        }
        assert(self.registers.has_bank(thread_id));
        match &instruction.instruction {
            Instruction::AssignConst(Reference::Register(_), _) => true,
            Instruction::AssignOperation(
                Reference::Register(_),
                Reference::Register(reg1),
                operation,
                Reference::Register(reg2),
            ) => {
                let value1 = self.registers.load(reg1.as_str(), thread_id);
                let value2 = self.registers.load(reg2.as_str(), thread_id);
                operation.checked_apply(value1, value2).is_some()
            },
            Instruction::Load(_, Reference::Memory(_), Reference::Register(_)) => true,
            Instruction::Store(_, Reference::Register(_), Reference::Memory(_)) => true,
            Instruction::Cas(
                Reference::Register(_),
                _,
                Reference::Memory(_),
                Reference::Register(_),
                Reference::Register(_),
            ) => true,
            Instruction::Fai(
                Reference::Register(_),
                _,
                Reference::Memory(addr),
                Reference::Register(reg3),
            ) => {
                let prior_to_increment = self.memory_subsystem.load(addr.as_str(), thread_id);
                let increment_by = self.registers.load(reg3.as_str(), thread_id);
                prior_to_increment.checked_add(increment_by).is_some()
            },
            Instruction::Fence(_) => true,
            Instruction::ConditionalJump(Reference::Register(reg), label) => {
                let value = self.registers.load(reg.as_str(), thread_id);
                value == 0 || self.find_label_index(thread_id, label.as_str()).is_some()
            },
            _ => false,
        }
    }

    /// Executes an instruction: applies its effect to the registers of its
    /// thread and to memory, and moves the thread's program counter to the
    /// next line, or to the line of the label where the jump is taken.
    pub fn exec_instruction(&mut self, instruction: LabeledInstruction)
        requires
            old(self).wf(),
            old(self).executable(instruction),
        ensures
            old(self).stepped(*final(self), instruction),
    {
        let thread_id = instruction.thread_id;
        let pointer = self.instruction_pointers[thread_id];
        assert(self.registers.has_bank(thread_id));
        match &instruction.instruction {
            Instruction::AssignConst(Reference::Register(reg), value) => {
                self.registers.store(reg.as_str(), *value, thread_id);
                self.instruction_pointers.set(thread_id, pointer + 1);
            },
            Instruction::AssignOperation(
                Reference::Register(reg),
                Reference::Register(reg1),
                operation,
                Reference::Register(reg2),
            ) => {
                let value1 = self.registers.load(reg1.as_str(), thread_id);
                let value2 = self.registers.load(reg2.as_str(), thread_id);
                let result = operation.apply(value1, value2);
                self.registers.store(reg.as_str(), result, thread_id);
                self.instruction_pointers.set(thread_id, pointer + 1);
            },
            Instruction::Load(_, Reference::Memory(mem), Reference::Register(reg)) => {
                let value = self.memory_subsystem.load(mem.as_str(), thread_id);
                self.registers.store(reg.as_str(), value, thread_id);
                self.instruction_pointers.set(thread_id, pointer + 1);
            },
            Instruction::Store(_, Reference::Register(reg), Reference::Memory(mem)) => {
                let value = self.registers.load(reg.as_str(), thread_id);
                self.memory_subsystem.store(mem.as_str(), value, thread_id);
                self.instruction_pointers.set(thread_id, pointer + 1);
            },
            Instruction::Cas(
                Reference::Register(ref1),
                _,
                Reference::Memory(addr),
                Reference::Register(reg3),
                Reference::Register(reg4),
            ) => {
                let expected = self.registers.load(reg3.as_str(), thread_id);
                let desired_set = self.registers.load(reg4.as_str(), thread_id);
                let cur_value = self.memory_subsystem.load(addr.as_str(), thread_id);
                if cur_value == expected {
                    self.memory_subsystem.store(addr.as_str(), desired_set, thread_id);
                }
                self.registers.store(ref1.as_str(), cur_value, thread_id);
                self.instruction_pointers.set(thread_id, pointer + 1);
            },
            Instruction::Fai(
                Reference::Register(ref1),
                _,
                Reference::Memory(addr),
                Reference::Register(reg3),
            ) => {
                let prior_to_increment = self.memory_subsystem.load(addr.as_str(), thread_id);
                let increment_by = self.registers.load(reg3.as_str(), thread_id);
                let new_value = prior_to_increment + increment_by;
                self.memory_subsystem.store(addr.as_str(), new_value, thread_id);
                self.registers.store(ref1.as_str(), prior_to_increment, thread_id);
                self.instruction_pointers.set(thread_id, pointer + 1);
            },
            Instruction::Fence(_) => {
                self.instruction_pointers.set(thread_id, pointer + 1);
            },
            Instruction::ConditionalJump(Reference::Register(reg), label) => {
                let value = self.registers.load(reg.as_str(), thread_id);
                if value != 0 {
                    match self.find_label_index(thread_id, label.as_str()) {
                        Some(label_index) => {
                            self.instruction_pointers.set(thread_id, label_index);
                        },
                        None => {},
                    }
                } else {
                    self.instruction_pointers.set(thread_id, pointer + 1);
                }
            },
            _ => {},
        }
    }
}

/// Whether every instruction of every program stands where it says it
/// does: its thread is the place of its program, its line its place in it.
pub open spec fn programs_wf(programs: Seq<Vec<LabeledInstruction>>) -> bool {
    forall|t: int, l: int|
        0 <= t < programs.len() && 0 <= l < programs[t]@.len() ==> (#[trigger] programs[t]@[l])
            .thread_id == t && programs[t]@[l].line_index == l
}

/// Tests whether every instruction stands where it says it does.
pub fn check_programs(programs: &Vec<Vec<LabeledInstruction>>) -> (b: bool)
    ensures
        b == programs_wf(programs@),
{
    let mut t: usize = 0;
    while t < programs.len()
        invariant
            t <= programs@.len(),
            forall|i: int, l: int|
                0 <= i < t && 0 <= l < programs@[i]@.len() ==> (#[trigger] programs@[i]@[l])
                    .thread_id == i && programs@[i]@[l].line_index == l,
        decreases programs@.len() - t,
    {
        let mut l: usize = 0;
        while l < programs[t].len()
            invariant
                t < programs@.len(),
                l <= programs@[t as int]@.len(),
                forall|k: int|
                    0 <= k < l ==> (#[trigger] programs@[t as int]@[k]).thread_id == t
                        && programs@[t as int]@[k].line_index == k,
            decreases programs@[t as int]@.len() - l,
        {
            if programs[t][l].thread_id != t || programs[t][l].line_index != l {
                return false;
            }
            l = l + 1;
        }
        t = t + 1;
    }
    true
}

/// The instructions of a program as what nodes stand for.
pub open spec fn instruction_kinds(program: Seq<LabeledInstruction>) -> Seq<NodeTypeView> {
    Seq::new(program.len(), |i: int| NodeTypeView::Instruction(program[i]@))
}

/// The instructions of the first `n` programs, thread by thread.
pub open spec fn program_kinds(programs: Seq<Vec<LabeledInstruction>>, n: int) -> Seq<
    NodeTypeView,
>
    decreases n,
{
    if n <= 0 {
        Seq::empty()
    } else {
        program_kinds(programs, n - 1) + instruction_kinds(programs[n - 1]@)
    }
}

/// The engine for total and partial store order: the dependency graph of
/// what is pending, and a memory with one write buffer per thread.
pub struct TSO {
    pub memory_subsystem: TSOMemorySubsystem,
    pub programs: Vec<Vec<LabeledInstruction>>,
    pub dependency_graph: DependencyGraph,
    pub registers: Registers,
    pub is_pso: bool,
}

impl TSO {
    /// The invariant: the graph is well-formed and its edges run in order;
    /// no instruction is pending beside the propagation of its own write;
    /// every pending node belongs to a thread of the program, which has
    /// a register bank; the thread of a pending propagation has a write
    /// buffer; and neither a bank nor the memory holds a name twice.
    pub open spec fn wf(&self) -> bool {
        &&& self.dependency_graph@.wf()
        &&& self.dependency_graph@.ordered()
        &&& self.dependency_graph@.exclusive()
        &&& forall|t: usize| t < self.programs@.len() ==> #[trigger] self.registers.has_bank(t)
        &&& self.registers.wf()
        &&& self.memory_subsystem.memory.wf()
        &&& forall|id: NodeId| #[trigger]
            self.dependency_graph@.contains(id) ==> id.thread_id < self.programs@.len()
        &&& forall|id: NodeId| #[trigger]
            self.dependency_graph@.contains(id) && id.propagate
                ==> self.memory_subsystem.buffers@.contains_key(id.thread_id)
    }

    /// How a thread reads its registers.
    pub open spec fn reg(&self, thread_id: usize) -> spec_fn(Seq<char>) -> usize {
        |name: Seq<char>| self.registers.value(name, thread_id)
    }

    /// How a thread reads memory: its own latest pending write to the
    /// address, or main memory.
    pub open spec fn mem(&self, thread_id: usize) -> spec_fn(Seq<char>) -> usize {
        |addr: Seq<char>| self.memory_subsystem.visible(addr, thread_id)
    }

    /// The effect that the instruction of a pending node has in this state;
    /// a propagation has none.
    pub open spec fn effect_of(&self, node: NodeId) -> Option<Effect> {
        match self.dependency_graph@.kind_of(node) {
            NodeTypeView::Instruction(labeled) => effect(
                labeled.instruction,
                self.reg(labeled.thread_id),
                self.mem(labeled.thread_id),
            ),
            NodeTypeView::Propagate(_) => None,
        }
    }

    /// Whether a pending node can fire in this state: it is a leaf; and
    /// where it is an instruction, it is no jump, its operands have the
    /// right shape and its arithmetic has a result.
    pub open spec fn executable(&self, node: NodeId) -> bool {
        &&& self.dependency_graph@.is_leaf(node)
        &&& match self.dependency_graph@.kind_of(node) {
            NodeTypeView::Instruction(labeled) => !(labeled.instruction is ConditionalJump)
                && self.effect_of(node) is Some,
            NodeTypeView::Propagate(_) => true,
        }
    }

    /// The propagation that the firing of a node asks for: that of its
    /// write, where it is an instruction that writes to memory.
    pub open spec fn propagation_of(&self, node: NodeId) -> Option<PropagateView> {
        match self.dependency_graph@.kind_of(node) {
            NodeTypeView::Instruction(labeled) => match self.effect_of(node) {
                Some(e) => match e.memory {
                    Some((addr, _)) => Some(
                        PropagateView {
                            associated_write: labeled,
                            to_location: ReferenceView::Memory(addr),
                        },
                    ),
                    None => None,
                },
                None => None,
            },
            NodeTypeView::Propagate(_) => None,
        }
    }

    /// Whether nothing has run yet: the graph holds one node per
    /// instruction, thread by thread, with the program-order edges that the
    /// access modes ask for, and nothing was written to memory, to a buffer
    /// or to a register.
    pub open spec fn fresh(&self) -> bool {
        &&& self.wf()
        &&& self.dependency_graph@ == GraphView::without_edges(
            program_kinds(self.programs@, self.programs@.len() as int),
        ).build()
        &&& self.dependency_graph@.kinds() == program_kinds(
            self.programs@,
            self.programs@.len() as int,
        )
        &&& forall|a: NodeId, b: NodeId|
            #[trigger] self.dependency_graph@.depends(a, b)
                <==> self.dependency_graph@.program_order(a, b)
        &&& self.memory_subsystem.memory@ == Map::<Seq<char>, usize>::empty()
        &&& self.memory_subsystem.buffers@ == Map::<usize, Buffer>::empty()
        &&& self.registers.fresh(self.programs@.len())
    }

    /// Loads the programs, in the state in which nothing has run.
    pub fn new(programs: Vec<Vec<LabeledInstruction>>, is_pso: bool) -> (tso: Self)
        requires
            programs_wf(programs@),
        ensures
            tso.programs == programs,
            tso.is_pso == is_pso,
            tso.fresh(),
            tso.dependency_graph@.acyclic(),
    {
        let mut registers = Registers::new();
        let mut dependency_graph = DependencyGraph::new();
        let mut thread_id: usize = 0;
        assert(dependency_graph@.kinds() =~= program_kinds(programs@, 0));
        assert(dependency_graph@.nodes =~= GraphView::without_edges(
            program_kinds(programs@, 0),
        ).nodes);
        while thread_id < programs.len()
            invariant
                programs_wf(programs@),
                thread_id <= programs@.len(),
                dependency_graph@.wf(),
                dependency_graph@.kinds() == program_kinds(programs@, thread_id as int),
                dependency_graph@ == GraphView::without_edges(dependency_graph@.kinds()),
                forall|a: NodeId, b: NodeId| !#[trigger] dependency_graph@.depends(a, b),
                forall|id: NodeId| #[trigger]
                    dependency_graph@.contains(id) ==> !id.propagate && id.thread_id < thread_id,
                registers.wf(),
                registers.fresh(thread_id as nat),
            decreases programs@.len() - thread_id,
        {
            let ghost done = program_kinds(programs@, thread_id as int);
            let mut line: usize = 0;
            assert(dependency_graph@.kinds() =~= done + instruction_kinds(
                programs@[thread_id as int]@,
            ).take(0));
            while line < programs[thread_id].len()
                invariant
                    programs_wf(programs@),
                    thread_id < programs@.len(),
                    line <= programs@[thread_id as int]@.len(),
                    dependency_graph@.wf(),
                    done == program_kinds(programs@, thread_id as int),
                    dependency_graph@.kinds() == done + instruction_kinds(
                        programs@[thread_id as int]@,
                    ).take(line as int),
                    dependency_graph@ == GraphView::without_edges(dependency_graph@.kinds()),
                    forall|a: NodeId, b: NodeId| !#[trigger] dependency_graph@.depends(a, b),
                    forall|id: NodeId| #[trigger]
                        dependency_graph@.contains(id) ==> !id.propagate && (id.thread_id
                            < thread_id || (id.thread_id == thread_id && id.line_index < line)),
                decreases programs@[thread_id as int]@.len() - line,
            {
                let instruction = programs[thread_id][line].clone();
                let ghost before = dependency_graph@;
                let ghost kind = NodeTypeView::Instruction(instruction@);
                proof {
                    assert(programs@[thread_id as int]@[line as int].thread_id == thread_id);
                    before.lemma_add_node(kind);
                    let all = instruction_kinds(programs@[thread_id as int]@);
                    assert(all.take(line + 1) == all.take(line as int).push(kind));
                    assert(before.kinds().push(kind) =~= done + all.take(line + 1));
                }
                dependency_graph.add_node(instruction);
                assert(dependency_graph@.nodes =~= GraphView::without_edges(
                    dependency_graph@.kinds(),
                ).nodes);
                line = line + 1;
            }
            proof {
                let all = instruction_kinds(programs@[thread_id as int]@);
                assert(all.take(line as int) == all);
            }
            let ghost before = registers;
            registers.add_bank(thread_id);
            assert forall|t: usize| #[trigger]
                registers.has_bank(t) implies registers.registers@[t]@ == Map::<
                Seq<char>,
                usize,
            >::empty() by {
                if t != thread_id {
                    assert(before.has_bank(t));
                }
            }
            thread_id = thread_id + 1;
        }
        let ghost loaded = dependency_graph@;
        proof {
            assert(loaded.ordered());
            assert(loaded.exclusive());
        }
        dependency_graph.build_dependencies();
        proof {
            let g = dependency_graph@;
            assert forall|a: NodeId, b: NodeId| #[trigger]
                g.depends(a, b) <==> g.program_order(a, b) by {
                assert(g.depends(a, b) <==> loaded.depends(a, b) || loaded.program_order(a, b));
                if loaded.contains(a) {
                    assert(g.nodes[loaded.index_of(a)].instruction
                        == loaded.nodes[loaded.index_of(a)].instruction);
                }
                if loaded.contains(b) {
                    assert(g.nodes[loaded.index_of(b)].instruction
                        == loaded.nodes[loaded.index_of(b)].instruction);
                }
            }
        }
        Self {
            memory_subsystem: TSOMemorySubsystem::new(),
            programs,
            dependency_graph,
            registers,
            is_pso,
        }
    }

    /// The steps that may be taken next: the leaves of the graph.
    pub fn get_instructions_to_exec(&self) -> (leaves: Vec<NodeId>)
        requires
            self.wf(),
        ensures
            leaves@ == self.dependency_graph@.leaves(),
            forall|id: NodeId|
                #[trigger] leaves@.contains(id) <==> self.dependency_graph@.is_leaf(id),
    {
        self.dependency_graph.get_leaves()
    }
}

/// Whether the buffered memory changed by the propagation of one thread's
/// oldest pending write, if it had one: that write left the buffer and
/// reached main memory; nothing else changed.
pub open spec fn drained(
    before: TSOMemorySubsystem,
    after: TSOMemorySubsystem,
    thread_id: usize,
) -> bool {
    &&& after.buffers@.dom() == before.buffers@.dom()
    &&& forall|t: usize|
        t != thread_id && before.buffers@.contains_key(t) ==> #[trigger] after.buffers@[t]
            == before.buffers@[t]
    &&& if before.pending(thread_id).len() == 0 {
        &&& after.pending(thread_id) == before.pending(thread_id)
        &&& memory_updated(before.memory, after.memory, None)
    } else {
        &&& after.pending(thread_id) == before.pending(thread_id).skip(1)
        &&& memory_updated(before.memory, after.memory, Some(before.pending(thread_id)[0]))
    }
}

/// Whether the buffered memory changed by one write at most, appended to
/// the buffer of the thread that wrote: main memory and the other buffers
/// are as they were.
pub open spec fn buffered(
    before: TSOMemorySubsystem,
    after: TSOMemorySubsystem,
    thread_id: usize,
    write: Option<(Seq<char>, usize)>,
) -> bool {
    &&& after.memory == before.memory
    &&& match write {
        Some(w) => {
            &&& after.buffers@.dom() == before.buffers@.dom().insert(thread_id)
            &&& forall|t: usize|
                t != thread_id && before.buffers@.contains_key(t) ==> #[trigger] after.buffers@[t]
                    == before.buffers@[t]
            &&& after.pending(thread_id) == before.pending(thread_id).push(w)
        },
        None => after.buffers == before.buffers,
    }
}

impl TSO {
    /// Whether `after` is this state once the leaf `node` has fired. The
    /// graph is as the firing leaves it, and has no cycle. A propagation
    /// has drained the oldest pending write of its thread to main memory.
    /// An instruction has taken effect on the registers of its thread, and
    /// its write to memory, if it makes one, is last in its thread's
    /// buffer.
    pub open spec fn stepped(&self, after: TSO, node: NodeId) -> bool {
        &&& after.wf()
        &&& after.programs == self.programs
        &&& after.is_pso == self.is_pso
        &&& after.dependency_graph@ == self.dependency_graph@.fire(
            node,
            self.propagation_of(node),
            self.is_pso,
        )
        &&& self.dependency_graph@.fired(
            after.dependency_graph@,
            node,
            self.propagation_of(node),
            self.is_pso,
        )
        &&& after.dependency_graph@.acyclic()
        &&& match self.dependency_graph@.kind_of(node) {
            NodeTypeView::Propagate(_) => {
                &&& after.registers == self.registers
                &&& drained(self.memory_subsystem, after.memory_subsystem, node.thread_id)
            },
            NodeTypeView::Instruction(labeled) => {
                &&& registers_updated(
                    self.registers,
                    after.registers,
                    labeled.thread_id,
                    self.effect_of(node)->0.register,
                )
                &&& buffered(
                    self.memory_subsystem,
                    after.memory_subsystem,
                    labeled.thread_id,
                    self.effect_of(node)->0.memory,
                )
            },
        }
    }

    /// In every state of the engine the graph keeps its invariants: the
    /// two edge lists mirror each other; no edge list names a node twice;
    /// no walk along the depends-on edges comes back to where it began; and
    /// the leaves are the nodes whose depends-on list is empty.
    pub proof fn lemma_graph_invariants(&self)
        requires
            self.wf(),
        ensures
            forall|a: NodeId, b: NodeId|
                self.dependency_graph@.depends(a, b) <==> self.dependency_graph@.depended_on_by(
                    b,
                    a,
                ),
            self.dependency_graph@.edges_unique(),
            self.dependency_graph@.acyclic(),
            forall|id: NodeId|
                #[trigger] self.dependency_graph@.leaves().contains(id)
                    <==> self.dependency_graph@.is_leaf(id),
    {
        let graph = self.dependency_graph@;
        assert forall|a: NodeId, b: NodeId|
            graph.depends(a, b) <==> graph.depended_on_by(b, a) by {
            graph.lemma_symmetric(a, b);
        }
        graph.lemma_ordered_acyclic();
        graph.lemma_leaves();
    }

    /// Whether a pending node can fire in this state.
    pub fn can_exec(&self, node: NodeId) -> (b: bool)
        requires
            self.wf(),
        ensures
            b == self.executable(node),
    {
        let idx = match self.dependency_graph.position(node) {
            Some(i) => i,
            None => {
                return false;
            },
        };
        if self.dependency_graph.nodes[idx].depends_on.len() != 0 {
            return false;
        }
        proof {
            self.dependency_graph@.lemma_index_in_range(node);
            assert(self.dependency_graph@.kind_of(node)
                == self.dependency_graph.nodes@[idx as int].instruction@);
        }
        match &self.dependency_graph.nodes[idx].instruction {
            NodeType::Propagate(_) => true,
            NodeType::Instruction(labeled) => {
                let thread_id = labeled.thread_id;
                assert(self.registers.has_bank(thread_id));
                match &labeled.instruction {
                    Instruction::AssignConst(Reference::Register(_), _) => true,
                    Instruction::AssignOperation(
                        Reference::Register(_),
                        Reference::Register(reg1),
                        operation,
                        Reference::Register(reg2),
                    ) => {
                        let value1 = self.registers.load(reg1.as_str(), thread_id);
                        let value2 = self.registers.load(reg2.as_str(), thread_id);
                        operation.checked_apply(value1, value2).is_some()
                    },
                    Instruction::Load(_, Reference::Memory(_), Reference::Register(_)) => true,
                    Instruction::Store(_, Reference::Register(_), Reference::Memory(_)) => true,
                    Instruction::Cas(
                        Reference::Register(_),
                        _,
                        Reference::Memory(_),
                        Reference::Register(_),
                        Reference::Register(_),
                    ) => true,
                    Instruction::Fai(
                        Reference::Register(_),
                        _,
                        Reference::Memory(addr),
                        Reference::Register(reg3),
                    ) => {
                        let prior_to_increment = self.memory_subsystem.load(
                            addr.as_str(),
                            thread_id,
                        );
                        let increment_by = self.registers.load(reg3.as_str(), thread_id);
                        prior_to_increment.checked_add(increment_by).is_some()
                    },
                    Instruction::Fence(_) => true,
                    _ => false,
                }
            },
        }
    }

    /// Fires a leaf. A propagation drains the oldest pending write of its
    /// thread to main memory. An instruction takes effect on the registers
    /// of its thread; a write to memory goes to the thread's buffer, and
    /// its propagation takes the instruction's place in the graph.
    pub fn exec_instruction(&mut self, instruction_node: NodeId)
        requires
            old(self).wf(),
            old(self).executable(instruction_node),
        ensures
            old(self).stepped(*final(self), instruction_node),
    {
        let ghost graph = self.dependency_graph@;
        let idx = match self.dependency_graph.position(instruction_node) {
            Some(i) => i,
            None => {
                return ;
            },
        };
        let instruction: NodeType = self.dependency_graph.nodes[idx].instruction.clone();
        let thread_id = instruction.thread_id();
        proof {
            graph.lemma_index_in_range(instruction_node);
            assert(graph.kind_of(instruction_node) == instruction@);
            assert(instruction@.key() == instruction_node);
            assert(thread_id < self.programs@.len());
            assert(self.registers.has_bank(thread_id));
        }
        match &instruction {
            NodeType::Propagate(_) => {
                self.memory_subsystem.propagate(thread_id);
                self.dependency_graph.remove_node(instruction_node, None, self.is_pso);
            },
            NodeType::Instruction(labeled_instruction) => {
                proof {
                    assert(!graph.contains(
                        propagate_key(*labeled_instruction),
                    ));
                }
                match &labeled_instruction.instruction {
                    Instruction::AssignConst(Reference::Register(reg), value) => {
                        self.registers.store(reg.as_str(), *value, thread_id);
                        self.dependency_graph.remove_node(instruction_node, None, self.is_pso);
                    },
                    Instruction::AssignOperation(
                        Reference::Register(reg),
                        Reference::Register(reg1),
                        operation,
                        Reference::Register(reg2),
                    ) => {
                        let value1 = self.registers.load(reg1.as_str(), thread_id);
                        let value2 = self.registers.load(reg2.as_str(), thread_id);
                        let result = operation.apply(value1, value2);
                        self.registers.store(reg.as_str(), result, thread_id);
                        self.dependency_graph.remove_node(instruction_node, None, self.is_pso);
                    },
                    Instruction::Load(_, Reference::Memory(mem), Reference::Register(reg)) => {
                        let value = self.memory_subsystem.load(mem.as_str(), thread_id);
                        self.registers.store(reg.as_str(), value, thread_id);
                        self.dependency_graph.remove_node(instruction_node, None, self.is_pso);
                    },
                    Instruction::Store(_, Reference::Register(reg), Reference::Memory(mem)) => {
                        let value = self.registers.load(reg.as_str(), thread_id);
                        self.memory_subsystem.store(mem.as_str(), value, thread_id);
                        let prop = (labeled_instruction.clone(), Reference::Memory(mem.clone()));
                        self.dependency_graph.remove_node(
                            instruction_node,
                            Some(prop),
                            self.is_pso,
                        );
                    },
                    Instruction::Cas(
                        Reference::Register(ref1),
                        _,
                        Reference::Memory(addr),
                        Reference::Register(reg3),
                        Reference::Register(reg4),
                    ) => {
                        let expected = self.registers.load(reg3.as_str(), thread_id);
                        let desired_set = self.registers.load(reg4.as_str(), thread_id);
                        let cur_value = self.memory_subsystem.load(addr.as_str(), thread_id);
                        if cur_value == expected {
                            self.memory_subsystem.store(addr.as_str(), desired_set, thread_id);
                            self.registers.store(ref1.as_str(), cur_value, thread_id);
                            let prop = (
                                labeled_instruction.clone(),
                                Reference::Memory(addr.clone()),
                            );
                            self.dependency_graph.remove_node(
                                instruction_node,
                                Some(prop),
                                self.is_pso,
                            );
                        } else {
                            self.registers.store(ref1.as_str(), cur_value, thread_id);
                            self.dependency_graph.remove_node(instruction_node, None, self.is_pso);
                        }
                    },
                    Instruction::Fai(
                        Reference::Register(ref1),
                        _,
                        Reference::Memory(addr),
                        Reference::Register(reg3),
                    ) => {
                        let prior_to_increment = self.memory_subsystem.load(
                            addr.as_str(),
                            thread_id,
                        );
                        let increment_by = self.registers.load(reg3.as_str(), thread_id);
                        let new_value = prior_to_increment + increment_by;
                        self.memory_subsystem.store(addr.as_str(), new_value, thread_id);
                        self.registers.store(ref1.as_str(), prior_to_increment, thread_id);
                        let prop = (labeled_instruction.clone(), Reference::Memory(addr.clone()));
                        self.dependency_graph.remove_node(
                            instruction_node,
                            Some(prop),
                            self.is_pso,
                        );
                    },
                    Instruction::Fence(_) => {
                        self.dependency_graph.remove_node(instruction_node, None, self.is_pso);
                    },
                    _ => {},
                }
            },
        }
        proof {
            graph.lemma_fired_contains(
                self.dependency_graph@,
                instruction_node,
                old(self).propagation_of(instruction_node),
                self.is_pso,
            );
        }
    }
}

} // verus!

//! The interactive interpreters: what a line of input asks for, and what an
//! interpreter answers and does.
use vstd::prelude::*;
use vstd::string::*;
use crate::graph_model::NodeId;
use crate::instruction::{Error, ErrorView, LabeledInstruction, LabeledInstructionView};
use crate::text::{
    all_digits, chars_of, decimal_value, parse_decimal, split_tokens, str_eq, tokens, views,
};
use crate::thread_subsystem::{SequentialConsistency, TSO};
use crate::utils::{programs_of, programs_to_instructions, programs_view};

verus! {

/// What a line of input asks for.
#[derive(Debug, PartialEq)]
pub enum Request {
    /// End the session.
    Exit,
    /// Show the registers.
    Registers,
    /// Show main memory.
    Memory,
    /// Write the dependency graph to the file at the path.
    Graph(String),
    /// Take the step with the number.
    Execute(usize),
    /// Nothing that an interpreter understands.
    Invalid,
}

/// A request as a mathematical value.
pub enum RequestView {
    Exit,
    Registers,
    Memory,
    Graph(Seq<char>),
    Execute(usize),
    Invalid,
}

impl View for Request {
    type V = RequestView;

    open spec fn view(&self) -> RequestView {
        match self {
            Request::Exit => RequestView::Exit,
            Request::Registers => RequestView::Registers,
            Request::Memory => RequestView::Memory,
            Request::Graph(path) => RequestView::Graph(path@),
            Request::Execute(index) => RequestView::Execute(*index),
            Request::Invalid => RequestView::Invalid,
        }
    }
}

/// What a line of input asks for: one of the words `exit`, `registers` and
/// `memory`; the word `graph` and a path; or the number of a step.
pub open spec fn request_of(input: Seq<char>) -> RequestView {
    let words = tokens(input);
    if words.len() == 1 && words[0] == "exit"@ {
        RequestView::Exit
    } else if words.len() == 1 && words[0] == "registers"@ {
        RequestView::Registers
    } else if words.len() == 1 && words[0] == "memory"@ {
        RequestView::Memory
    } else if words.len() == 2 && words[0] == "graph"@ {
        RequestView::Graph(words[1])
    } else if words.len() == 1 && words[0].len() > 0 && all_digits(words[0]) && decimal_value(
        words[0],
    ) <= usize::MAX {
        RequestView::Execute(decimal_value(words[0]) as usize)
    } else {
        RequestView::Invalid
    }
}

/// Reads a line of input.
pub fn parse_request(input: &str) -> (request: Request)
    ensures
        request@ == request_of(input@),
{
    let words = split_tokens(input);
    let ghost w = views(words@);
    assert(w == tokens(input@));
    if words.len() == 1 {
        assert(w[0] == words@[0]@);
        let word = words[0].as_str();
        if str_eq(word, "exit") {
            Request::Exit
        } else if str_eq(word, "registers") {
            Request::Registers
        } else if str_eq(word, "memory") {
            Request::Memory
        } else {
            match parse_decimal(&chars_of(word)) {
                Some(index) => Request::Execute(index),
                None => Request::Invalid,
            }
        }
    } else if words.len() == 2 {
        assert(w[0] == words@[0]@);
        assert(w[1] == words@[1]@);
        if str_eq(words[0].as_str(), "graph") {
            Request::Graph(words[1].clone())
        } else {
            Request::Invalid
        }
    } else {
        Request::Invalid
    }
}

/// What an interpreter answers to a line of input.
#[derive(Debug, PartialEq)]
pub enum Outcome {
    /// The session is to end.
    Exit,
    /// The registers, rendered.
    Registers(String),
    /// Main memory, rendered.
    Memory(String),
    /// The path of a file and the DOT document to write to it.
    Graph(String, String),
    /// The step was taken.
    Executed,
    /// No step has the number.
    InvalidIndex,
    /// The input was not understood.
    InvalidInput,
    /// The step cannot be taken: the instruction is not supported, or has
    /// no result in this state.
    Rejected,
}

/// Whether the texts read as the programs.
pub open spec fn loaded(
    texts: Seq<String>,
    programs: Seq<Vec<LabeledInstruction>>,
) -> bool {
    programs_of(views(texts)) == Ok::<Seq<Seq<LabeledInstructionView>>, ErrorView>(
        programs_view(programs),
    )
}

/// Whether loading the programs fails with the error.
pub open spec fn load_fails(texts: Seq<String>, e: Error) -> bool {
    programs_of(views(texts)) == Err::<Seq<Seq<LabeledInstructionView>>, ErrorView>(e@)
}

/// The interactive interpreter for sequential consistency.
pub struct InterpretorSC {
    pub system: SequentialConsistency,
}

impl InterpretorSC {
    /// Loads one program per thread from the texts, in the state in which
    /// nothing has run; or fails with the error of the first text that
    /// cannot be read.
    pub fn new(texts: Vec<String>) -> (r: Result<Self, Error>)
        ensures
            match r {
                Ok(interpreter) => loaded(texts@, interpreter.system.programs@)
                    && interpreter.system.fresh(),
                Err(e) => load_fails(texts@, e),
            },
    {
        match programs_to_instructions(texts) {
            Ok(programs) => Ok(Self { system: SequentialConsistency::new(programs) }),
            Err(e) => Err(e),
        }
    }

    /// The steps that may be taken next, rendered, in the order of their
    /// numbers.
    pub fn options(&self) -> (r: Vec<String>)
        requires
            self.system.wf(),
        ensures
            r@.len() == self.system.executable_among(self.system.programs@.len() as int).len(),
            forall|i: int|
                0 <= i < r@.len() ==> #[trigger] r@[i]@ == self.system.executable_among(
                    self.system.programs@.len() as int,
                )[i]@.text(),
    {
        let options = self.system.get_instructions_to_exec();
        let mut r: Vec<String> = Vec::new();
        let mut i: usize = 0;
        while i < options.len()
            invariant
                i <= options@.len(),
                r@.len() == i,
                forall|k: int| 0 <= k < i ==> #[trigger] r@[k]@ == options@[k]@.text(),
            decreases options@.len() - i,
        {
            r.push(options[i].to_string());
            i = i + 1;
        }
        r
    }

    /// Whether `outcome` and `after` are the answer to a line of input in
    /// the state `self`. Only the number of a step that can be taken changes
    /// the state: by that step.
    pub open spec fn answered(
        &self,
        after: InterpretorSC,
        input: Seq<char>,
        outcome: Outcome,
    ) -> bool {
        let options = self.system.executable_among(self.system.programs@.len() as int);
        match request_of(input) {
            RequestView::Exit => outcome is Exit && after.system == self.system,
            RequestView::Registers => outcome matches Outcome::Registers(text)
                && self.system.registers.is_text(text@) && after.system == self.system,
            RequestView::Memory => outcome matches Outcome::Memory(text) && text@
                == self.system.memory_subsystem.memory.text() && after.system == self.system,
            RequestView::Execute(index) => if index >= options.len() {
                outcome is InvalidIndex && after.system == self.system
            } else if !self.system.executable(options[index as int]) {
                outcome is Rejected && after.system == self.system
            } else {
                outcome is Executed && self.system.stepped(after.system, options[index as int])
            },
            _ => outcome is InvalidInput && after.system == self.system,
        }
    }

    /// Answers a line of input.
    pub fn step(&mut self, input: &str) -> (outcome: Outcome)
        requires
            old(self).system.wf(),
        ensures
            old(self).answered(*final(self), input@, outcome),
            final(self).system.wf(),
    {
        match parse_request(input) {
            Request::Exit => Outcome::Exit,
            Request::Registers => Outcome::Registers(self.system.registers.to_string()),
            Request::Memory => Outcome::Memory(self.system.memory_subsystem.memory.to_string()),
            Request::Execute(index) => {
                let options = self.system.get_instructions_to_exec();
                if index >= options.len() {
                    Outcome::InvalidIndex
                } else if !self.system.can_exec(&options[index]) {
                    Outcome::Rejected
                } else {
                    self.system.exec_instruction(options[index].clone());
                    Outcome::Executed
                }
            },
            _ => Outcome::InvalidInput,
        }
    }
}

/// The interactive interpreter for total and partial store order.
pub struct InterpretorTSO {
    pub system: TSO,
}

impl InterpretorTSO {
    /// Loads one program per thread from the texts, in the state in which
    /// nothing has run; or fails with the error of the first text that
    /// cannot be read.
    pub fn new(texts: Vec<String>, is_pso: bool) -> (r: Result<Self, Error>)
        ensures
            match r {
                Ok(interpreter) => loaded(texts@, interpreter.system.programs@)
                    && interpreter.system.is_pso == is_pso && interpreter.system.fresh(),
                Err(e) => load_fails(texts@, e),
            },
    {
        match programs_to_instructions(texts) {
            Ok(programs) => Ok(Self { system: TSO::new(programs, is_pso) }),
            Err(e) => Err(e),
        }
    }

    /// The steps that may be taken next, rendered, in the order of their
    /// numbers.
    pub fn options(&self) -> (r: Vec<String>)
        requires
            self.system.wf(),
        ensures
            r@.len() == self.system.dependency_graph@.leaves().len(),
            forall|i: int|
                0 <= i < r@.len() ==> #[trigger] r@[i]@ == self.system.dependency_graph@.kind_of(
                    self.system.dependency_graph@.leaves()[i],
                ).text(),
    {
        let options = self.system.get_instructions_to_exec();
        let mut r: Vec<String> = Vec::new();
        let mut i: usize = 0;
        while i < options.len()
            invariant
                self.system.wf(),
                i <= options@.len(),
                options@ == self.system.dependency_graph@.leaves(),
                forall|id: NodeId|
                    #[trigger] options@.contains(id) <==> self.system.dependency_graph@.is_leaf(
                        id,
                    ),
                r@.len() == i,
                forall|k: int|
                    0 <= k < i ==> #[trigger] r@[k]@ == self.system.dependency_graph@.kind_of(
                        options@[k],
                    ).text(),
            decreases options@.len() - i,
        {
            assert(options@.contains(options@[i as int]));
            match self.system.dependency_graph.node(options[i]) {
                Some(node) => {
                    r.push(node.instruction.to_string());
                },
                None => {
                    assert(false);
                },
            }
            i = i + 1;
        }
        r
    }

    /// Whether `outcome` and `after` are the answer to a line of input in
    /// the state `self`. Only the number of a step that can be taken changes
    /// the state: by that step.
    pub open spec fn answered(
        &self,
        after: InterpretorTSO,
        input: Seq<char>,
        outcome: Outcome,
    ) -> bool {
        let options = self.system.dependency_graph@.leaves();
        match request_of(input) {
            RequestView::Exit => outcome is Exit && after.system == self.system,
            RequestView::Registers => outcome matches Outcome::Registers(text)
                && self.system.registers.is_text(text@) && after.system == self.system,
            RequestView::Memory => outcome matches Outcome::Memory(text) && text@
                == self.system.memory_subsystem.memory.text() && after.system == self.system,
            RequestView::Graph(path) => outcome matches Outcome::Graph(to, text) && to@ == path
                && self.system.dependency_graph@.is_dot_text(text@) && after.system
                == self.system,
            RequestView::Execute(index) => if index >= options.len() {
                outcome is InvalidIndex && after.system == self.system
            } else if !self.system.executable(options[index as int]) {
                outcome is Rejected && after.system == self.system
            } else {
                outcome is Executed && self.system.stepped(after.system, options[index as int])
            },
            RequestView::Invalid => outcome is InvalidInput && after.system == self.system,
        }
    }

    /// Answers a line of input.
    pub fn step(&mut self, input: &str) -> (outcome: Outcome)
        requires
            old(self).system.wf(),
        ensures
            old(self).answered(*final(self), input@, outcome),
            final(self).system.wf(),
    {
        match parse_request(input) {
            Request::Exit => Outcome::Exit,
            Request::Registers => Outcome::Registers(self.system.registers.to_string()),
            Request::Memory => Outcome::Memory(self.system.memory_subsystem.memory.to_string()),
            Request::Graph(path) => Outcome::Graph(path, self.system.dependency_graph.to_dot()),
            Request::Execute(index) => {
                let options = self.system.get_instructions_to_exec();
                if index >= options.len() {
                    Outcome::InvalidIndex
                } else if !self.system.can_exec(options[index]) {
                    Outcome::Rejected
                } else {
                    self.system.exec_instruction(options[index]);
                    Outcome::Executed
                }
            },
            Request::Invalid => Outcome::InvalidInput,
        }
    }
}

} // verus!

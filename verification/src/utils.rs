//! Programs from text: one instruction per line that is not blank, one
//! text per thread.
use vstd::prelude::*;
use vstd::string::*;
use crate::instruction::{
    parse_line, Error, ErrorView, LabeledInstruction, LabeledInstructionView,
};
use crate::text::{lines, split_lines, split_tokens, tokens, views};
use crate::thread_subsystem::programs_wf;

verus! {

/// The program that a sequence of lines reads as for a thread: each line
/// that is not blank is an instruction, numbered by its place among them;
/// or the error of the first line that cannot be read.
pub open spec fn program_of_lines(lines: Seq<Seq<char>>, thread_id: usize) -> Result<
    Seq<LabeledInstructionView>,
    ErrorView,
>
    decreases lines.len(),
{
    if lines.len() == 0 {
        Ok(Seq::empty())
    } else {
        match program_of_lines(lines.drop_last(), thread_id) {
            Err(e) => Err(e),
            Ok(program) => if tokens(lines.last()).len() == 0 {
                Ok(program)
            } else {
                match parse_line(lines.last(), program.len() as usize, thread_id) {
                    Ok(instruction) => Ok(program.push(instruction)),
                    Err(e) => Err(e),
                }
            },
        }
    }
}

/// The program that a text reads as for a thread.
pub open spec fn program_of(text: Seq<char>, thread_id: usize) -> Result<
    Seq<LabeledInstructionView>,
    ErrorView,
> {
    program_of_lines(lines(text), thread_id)
}

/// The programs that a sequence of texts reads as, the place of each text
/// being its thread; or the error of the first text that cannot be read.
pub open spec fn programs_of(texts: Seq<Seq<char>>) -> Result<
    Seq<Seq<LabeledInstructionView>>,
    ErrorView,
>
    decreases texts.len(),
{
    if texts.len() == 0 {
        Ok(Seq::empty())
    } else {
        match programs_of(texts.drop_last()) {
            Err(e) => Err(e),
            Ok(programs) => match program_of(texts.last(), (texts.len() - 1) as usize) {
                Ok(program) => Ok(programs.push(program)),
                Err(e) => Err(e),
            },
        }
    }
}

/// The views of the instructions of a program.
pub open spec fn program_view(program: Seq<LabeledInstruction>) -> Seq<LabeledInstructionView> {
    Seq::new(program.len(), |i: int| program[i]@)
}

/// The views of the programs.
pub open spec fn programs_view(programs: Seq<Vec<LabeledInstruction>>) -> Seq<
    Seq<LabeledInstructionView>,
> {
    Seq::new(programs.len(), |i: int| program_view(programs[i]@))
}

/// An error among the first lines is the error of the whole text.
pub proof fn lemma_program_error_prefix(lines: Seq<Seq<char>>, n: int, thread_id: usize)
    requires
        0 <= n <= lines.len(),
        program_of_lines(lines.take(n), thread_id) is Err,
    ensures
        program_of_lines(lines, thread_id) == program_of_lines(lines.take(n), thread_id),
    decreases lines.len(),
{
    if n == lines.len() {
        assert(lines.take(n) == lines);
    } else {
        assert(lines.drop_last().take(n) == lines.take(n));
        lemma_program_error_prefix(lines.drop_last(), n, thread_id);
    }
}

/// An error among the first texts is the error of them all.
pub proof fn lemma_programs_error_prefix(texts: Seq<Seq<char>>, n: int)
    requires
        0 <= n <= texts.len(),
        programs_of(texts.take(n)) is Err,
    ensures
        programs_of(texts) == programs_of(texts.take(n)),
    decreases texts.len(),
{
    if n == texts.len() {
        assert(texts.take(n) == texts);
    } else {
        assert(texts.drop_last().take(n) == texts.take(n));
        lemma_programs_error_prefix(texts.drop_last(), n);
    }
}

/// Reads the program of a thread from text.
pub fn parse_program(text: &str, thread_id: usize) -> (r: Result<Vec<LabeledInstruction>, Error>)
    ensures
        match r {
            Ok(program) => program_of(text@, thread_id) == Ok::<
                Seq<LabeledInstructionView>,
                ErrorView,
            >(program_view(program@)) && forall|l: int|
                0 <= l < program@.len() ==> (#[trigger] program@[l]).thread_id == thread_id
                    && program@[l].line_index == l,
            Err(e) => program_of(text@, thread_id) == Err::<
                Seq<LabeledInstructionView>,
                ErrorView,
            >(e@),
        },
{
    let source = split_lines(text);
    let ghost all = views(source@);
    let mut program: Vec<LabeledInstruction> = Vec::new();
    let mut i: usize = 0;
    assert(program_view(program@) == Seq::<LabeledInstructionView>::empty());
    while i < source.len()
        invariant
            i <= source@.len(),
            all == views(source@),
            all == lines(text@),
            program_of_lines(all.take(i as int), thread_id) == Ok::<
                Seq<LabeledInstructionView>,
                ErrorView,
            >(program_view(program@)),
            forall|l: int|
                0 <= l < program@.len() ==> (#[trigger] program@[l]).thread_id == thread_id
                    && program@[l].line_index == l,
        decreases source@.len() - i,
    {
        let ghost done = program_view(program@);
        assert(all.take(i + 1).drop_last() == all.take(i as int));
        assert(all.take(i + 1).last() == source@[i as int]@);
        let blank = split_tokens(source[i].as_str()).len() == 0;
        if !blank {
            match LabeledInstruction::from_line(source[i].as_str(), program.len(), thread_id) {
                Ok(instruction) => {
                    program.push(instruction);
                    assert(program_view(program@) == done.push(instruction@));
                },
                Err(e) => {
                    proof {
                        lemma_program_error_prefix(all, i + 1, thread_id);
                    }
                    return Err(e);
                },
            }
        }
        i = i + 1;
    }
    assert(all.take(i as int) == all);
    Ok(program)
}

/// Reads the programs of all threads from their texts: the place of a text
/// in the list is its thread.
pub fn programs_to_instructions(texts: Vec<String>) -> (r: Result<
    Vec<Vec<LabeledInstruction>>,
    Error,
>)
    ensures
        match r {
            Ok(programs) => programs_of(views(texts@)) == Ok::<
                Seq<Seq<LabeledInstructionView>>,
                ErrorView,
            >(programs_view(programs@)) && programs_wf(programs@),
            Err(e) => programs_of(views(texts@)) == Err::<
                Seq<Seq<LabeledInstructionView>>,
                ErrorView,
            >(e@),
        },
{
    let ghost all = views(texts@);
    let mut programs: Vec<Vec<LabeledInstruction>> = Vec::new();
    let mut thread_id: usize = 0;
    assert(programs_view(programs@) == Seq::<Seq<LabeledInstructionView>>::empty());
    while thread_id < texts.len()
        invariant
            thread_id <= texts@.len(),
            all == views(texts@),
            programs@.len() == thread_id,
            programs_of(all.take(thread_id as int)) == Ok::<
                Seq<Seq<LabeledInstructionView>>,
                ErrorView,
            >(programs_view(programs@)),
            programs_wf(programs@),
        decreases texts@.len() - thread_id,
    {
        let ghost done = programs_view(programs@);
        assert(all.take(thread_id + 1).drop_last() == all.take(thread_id as int));
        assert(all.take(thread_id + 1).last() == texts@[thread_id as int]@);
        assert(all.take(thread_id + 1).len() - 1 == thread_id);
        match parse_program(texts[thread_id].as_str(), thread_id) {
            Ok(program) => {
                let ghost view = program_view(program@);
                let ghost before = programs@;
                programs.push(program);
                assert(programs_view(programs@) == done.push(view));
                assert forall|t: int, l: int|
                    0 <= t < programs@.len() && 0 <= l < programs@[t]@.len() implies (
                #[trigger] programs@[t]@[l]).thread_id == t && programs@[t]@[l].line_index == l by {
                    if t < thread_id {
                        assert(programs@[t] == before[t]);
                    }
                }
            },
            Err(e) => {
                proof {
                    lemma_programs_error_prefix(all, thread_id + 1);
                }
                return Err(e);
            },
        }
        thread_id = thread_id + 1;
    }
    assert(all.take(thread_id as int) == all);
    Ok(programs)
}

} // verus!

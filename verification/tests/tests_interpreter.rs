use isa_interpreter::interpreter::{parse_request, Outcome, Request};
use isa_interpreter::utils::parse_program;
use isa_interpreter::{
    programs_to_instructions, Error, Instruction, InterpretorSC, InterpretorTSO,
    LabeledInstruction, Reference,
};

fn texts(list: &[&str]) -> Vec<String> {
    list.iter().map(|t| t.to_string()).collect()
}

#[test]
fn requests_are_read_from_input() {
    assert_eq!(parse_request("exit"), Request::Exit);
    assert_eq!(parse_request("  exit\n"), Request::Exit);
    assert_eq!(parse_request("registers\n"), Request::Registers);
    assert_eq!(parse_request("memory\r\n"), Request::Memory);
    assert_eq!(parse_request("graph out.dot\n"), Request::Graph("out.dot".to_string()));
    assert_eq!(parse_request("0\n"), Request::Execute(0));
    assert_eq!(parse_request(" 12 "), Request::Execute(12));
    assert_eq!(parse_request(""), Request::Invalid);
    assert_eq!(parse_request("\n"), Request::Invalid);
    assert_eq!(parse_request("exit now"), Request::Invalid);
    assert_eq!(parse_request("graph"), Request::Invalid);
    assert_eq!(parse_request("graph a b"), Request::Invalid);
    assert_eq!(parse_request("-1"), Request::Invalid);
    assert_eq!(parse_request("1 2"), Request::Invalid);
    assert_eq!(parse_request("one"), Request::Invalid);
    assert_eq!(parse_request(&format!("{}0", usize::MAX)), Request::Invalid);
}

#[test]
fn programs_are_read_line_by_line() {
    let program = parse_program("x = 1\n\n   \nL: y = 2\r\n\tfence RLX", 4).unwrap();
    assert_eq!(program.len(), 3);
    assert_eq!(
        program[0],
        LabeledInstruction::new(
            None,
            Instruction::AssignConst(Reference::Register("x".to_string()), 1),
            0,
            4
        )
    );
    assert_eq!(program[1].label, Some("L".to_string()));
    assert_eq!(program[1].line_index, 1);
    assert_eq!(program[2].line_index, 2);
    assert_eq!(program[2].thread_id, 4);
    assert_eq!(parse_program("", 0).unwrap(), vec![]);
    assert_eq!(parse_program("\n\n", 0).unwrap(), vec![]);
}

#[test]
fn the_first_line_that_cannot_be_read_fails_the_program() {
    assert_eq!(
        parse_program("x = 1\ny = \nz = 1q", 0),
        Err(Error::InvalidInstruction("y =".to_string()))
    );
    assert_eq!(
        parse_program("x = 1\ny = 2w\nz =", 0),
        Err(Error::InvalidCommand("2w".to_string()))
    );
}

#[test]
fn each_text_is_the_program_of_its_place() {
    let programs = programs_to_instructions(texts(&["x = 1\ny = 2", "", "z = 3"])).unwrap();
    assert_eq!(programs.len(), 3);
    assert_eq!(programs[0].len(), 2);
    assert!(programs[1].is_empty());
    assert_eq!(programs[2][0].thread_id, 2);
    assert_eq!(programs[2][0].line_index, 0);
    assert_eq!(programs[0][1].id(), "0-1");
    assert_eq!(programs_to_instructions(Vec::new()).unwrap().len(), 0);
    assert_eq!(
        programs_to_instructions(texts(&["x = 1", "y 2", "3z"])),
        Err(Error::InvalidInstruction("y 2".to_string()))
    );
}

#[test]
fn the_sequential_interpreter_answers_input() {
    let mut interpreter = InterpretorSC::new(texts(&["x = 5\nstore RLX x #m", "y = 1"])).unwrap();
    assert_eq!(
        interpreter.options(),
        vec!["Thread 0, line 0: rx := 5", "Thread 1, line 0: ry := 1"]
    );
    assert_eq!(interpreter.step("2\n"), Outcome::InvalidIndex);
    assert_eq!(interpreter.step("what\n"), Outcome::InvalidInput);
    assert_eq!(interpreter.step("graph g.dot\n"), Outcome::InvalidInput);
    assert_eq!(interpreter.step("0\n"), Outcome::Executed);
    assert_eq!(
        interpreter.options(),
        vec!["Thread 0, line 1: store RLX rx mm", "Thread 1, line 0: ry := 1"]
    );
    assert_eq!(interpreter.step("0\n"), Outcome::Executed);
    assert_eq!(interpreter.options(), vec!["Thread 1, line 0: ry := 1"]);
    assert_eq!(
        interpreter.step("registers\n"),
        Outcome::Registers("Thread 0\nx: 5\n\nThread 1\n\n".to_string())
    );
    assert_eq!(interpreter.step("memory\n"), Outcome::Memory("m: 5\n".to_string()));
    assert_eq!(interpreter.step("exit\n"), Outcome::Exit);
    assert_eq!(interpreter.step("0\n"), Outcome::Executed);
    assert!(interpreter.options().is_empty());
    assert_eq!(interpreter.step("0\n"), Outcome::InvalidIndex);
}

#[test]
fn the_sequential_interpreter_rejects_what_cannot_run() {
    let mut interpreter = InterpretorSC::new(texts(&["x = a / b\ny = 1"])).unwrap();
    assert_eq!(interpreter.step("0"), Outcome::Rejected);
    assert_eq!(interpreter.options(), vec!["Thread 0, line 0: rx := ra / rb"]);
    assert!(matches!(
        InterpretorSC::new(texts(&["x = 1", "oops"])),
        Err(Error::InvalidInstruction(_))
    ));
}

#[test]
fn the_store_order_interpreter_answers_input() {
    let mut interpreter =
        InterpretorTSO::new(texts(&["x = 5\nstore RLX x #m\nfence RLX"]), false).unwrap();
    assert_eq!(
        interpreter.options(),
        vec![
            "Thread 0, line 0: rx := 5",
            "Thread 0, line 1: store RLX rx mm",
            "Thread 0, line 2: fence RLX"
        ]
    );
    assert_eq!(interpreter.step("0"), Outcome::Executed);
    assert_eq!(interpreter.step("7"), Outcome::InvalidIndex);
    assert_eq!(interpreter.step("0"), Outcome::Executed);
    assert_eq!(
        interpreter.options(),
        vec!["Propagate for write (Thread 0, line 1: store RLX rx mm)"]
    );
    assert_eq!(interpreter.step("memory"), Outcome::Memory("".to_string()));
    match interpreter.step("graph deps.dot") {
        Outcome::Graph(path, text) => {
            assert_eq!(path, "deps.dot");
            assert!(text.starts_with("digraph{subgraph cluster_0{color="));
            assert!(text.ends_with(
                "label=\"Thread #0\";T0Xinstr2;T0Xinstr2->T0Xprop1;T0Xprop1;}}"
            ));
        }
        other => panic!("{:?}", other),
    }
    assert_eq!(interpreter.step("0"), Outcome::Executed);
    assert_eq!(interpreter.step("memory"), Outcome::Memory("m: 5\n".to_string()));
    assert_eq!(interpreter.step("registers"), Outcome::Registers("Thread 0\nx: 5\n\n".to_string()));
    assert_eq!(interpreter.step("0"), Outcome::Executed);
    assert!(interpreter.options().is_empty());
    assert_eq!(interpreter.step("exit"), Outcome::Exit);
    assert_eq!(interpreter.step(""), Outcome::InvalidInput);
}

#[test]
fn the_store_order_interpreter_rejects_jumps() {
    let mut interpreter = InterpretorTSO::new(texts(&["if x goto L\nL: y = 1"]), true).unwrap();
    assert!(interpreter.system.is_pso);
    assert_eq!(interpreter.step("0"), Outcome::Rejected);
    assert_eq!(interpreter.step("1"), Outcome::Executed);
    assert_eq!(interpreter.options(), vec!["Thread 0, line 0: if rx goto L"]);
    assert!(matches!(
        InterpretorTSO::new(texts(&["1x = 1"]), true),
        Err(Error::InvalidCommand(_))
    ));
}

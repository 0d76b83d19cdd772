use isa_interpreter::instruction::{WriteOperation};
use isa_interpreter::text::{
    char_is_digit, char_is_whitespace, chars_of, decimal_string, parse_decimal, split_lines,
    split_tokens, str_eq, str_less,
};
use isa_interpreter::{
    ArithCommand, Command, Error, Instruction, LabeledInstruction, MemoryAccessMode, Reference,
};

fn reg(name: &str) -> Reference {
    Reference::Register(name.to_string())
}

fn mem(name: &str) -> Reference {
    Reference::Memory(name.to_string())
}

#[test]
fn tokens_are_runs_between_whitespace() {
    assert_eq!(split_tokens("x = 1"), vec!["x", "=", "1"]);
    assert_eq!(split_tokens("  x\t=\r\n 1  "), vec!["x", "=", "1"]);
    assert_eq!(split_tokens(""), Vec::<String>::new());
    assert_eq!(split_tokens(" \t "), Vec::<String>::new());
    assert_eq!(split_tokens("abc"), vec!["abc"]);
}

#[test]
fn tokens_agree_with_split_whitespace() {
    let samples = [
        "load SEQ_CST #r1 r2",
        " a\u{a0}b\u{2003}c\u{3000}d ",
        "\u{85}x\u{1680}y\u{2028}z\u{2029}w\u{202f}v\u{205f}u",
        "é ü  ß",
        "a\u{200b}b",
        "a\u{180e}b",
    ];
    for sample in samples {
        let expected: Vec<String> = sample.split_whitespace().map(|t| t.to_string()).collect();
        assert_eq!(split_tokens(sample), expected);
    }
}

#[test]
fn whitespace_is_the_unicode_property() {
    let mut code: u32 = 0;
    while code <= 0x10FFFF {
        if let Some(c) = char::from_u32(code) {
            assert_eq!(char_is_whitespace(c), c.is_whitespace(), "at {:x}", code);
        }
        code += 1;
    }
}

#[test]
fn digits_are_ascii_digits() {
    assert!(char_is_digit('0'));
    assert!(char_is_digit('9'));
    assert!(!char_is_digit('a'));
    assert!(!char_is_digit('/'));
    assert!(!char_is_digit(':'));
    assert!(!char_is_digit('٣'));
}

#[test]
fn decimal_numbers_are_read_exactly() {
    assert_eq!(parse_decimal(&chars_of("0")), Some(0));
    assert_eq!(parse_decimal(&chars_of("007")), Some(7));
    assert_eq!(parse_decimal(&chars_of("1234567890")), Some(1234567890));
    assert_eq!(parse_decimal(&chars_of("")), None);
    assert_eq!(parse_decimal(&chars_of("12a")), None);
    assert_eq!(parse_decimal(&chars_of("+1")), None);
    let max = usize::MAX.to_string();
    assert_eq!(parse_decimal(&chars_of(&max)), Some(usize::MAX));
    let over = format!("{}0", max);
    assert_eq!(parse_decimal(&chars_of(&over)), None);
    let next = (usize::MAX as u128 + 1).to_string();
    assert_eq!(parse_decimal(&chars_of(&next)), None);
}

#[test]
fn decimal_numbers_are_written_exactly() {
    assert_eq!(decimal_string(0), "0");
    assert_eq!(decimal_string(9), "9");
    assert_eq!(decimal_string(10), "10");
    assert_eq!(decimal_string(1234567890), "1234567890");
    assert_eq!(decimal_string(usize::MAX), usize::MAX.to_string());
}

#[test]
fn strings_compare_as_in_std() {
    let samples = ["", "a", "ab", "b", "A", "aa", "é", "z", "a\u{10000}", "a\u{ffff}"];
    for a in samples {
        for b in samples {
            assert_eq!(str_less(a, b), a < b, "{:?} < {:?}", a, b);
            assert_eq!(str_eq(a, b), a == b, "{:?} == {:?}", a, b);
        }
    }
}

#[test]
fn lines_are_split_at_line_feeds() {
    assert_eq!(split_lines(""), vec![""]);
    assert_eq!(split_lines("a"), vec!["a"]);
    assert_eq!(split_lines("a\nb"), vec!["a", "b"]);
    assert_eq!(split_lines("a\n"), vec!["a", ""]);
    assert_eq!(split_lines("\n\nx = 1\r\n"), vec!["", "", "x = 1\r", ""]);
}

#[test]
fn keywords_are_commands() {
    assert_eq!(Command::parse("+").unwrap(), Command::Arith(ArithCommand::Add));
    assert_eq!(Command::parse("-").unwrap(), Command::Arith(ArithCommand::Sub));
    assert_eq!(Command::parse("*").unwrap(), Command::Arith(ArithCommand::Mul));
    assert_eq!(Command::parse("/").unwrap(), Command::Arith(ArithCommand::Div));
    assert_eq!(Command::parse("SEQ_CST").unwrap(), Command::MemoryAccess(MemoryAccessMode::SeqCst));
    assert_eq!(Command::parse("REL").unwrap(), Command::MemoryAccess(MemoryAccessMode::Rel));
    assert_eq!(Command::parse("ACQ").unwrap(), Command::MemoryAccess(MemoryAccessMode::Acq));
    assert_eq!(Command::parse("REL_ACQ").unwrap(), Command::MemoryAccess(MemoryAccessMode::RelAcq));
    assert_eq!(Command::parse("RLX").unwrap(), Command::MemoryAccess(MemoryAccessMode::Rlx));
    assert_eq!(Command::parse("=").unwrap(), Command::Eq);
    assert_eq!(Command::parse(":=").unwrap(), Command::Assign);
    assert_eq!(Command::parse("load").unwrap(), Command::Load);
    assert_eq!(Command::parse("store").unwrap(), Command::Store);
    assert_eq!(Command::parse("if").unwrap(), Command::If);
    assert_eq!(Command::parse("goto").unwrap(), Command::Goto);
    assert_eq!(Command::parse("fence").unwrap(), Command::Fence);
    assert_eq!(Command::parse("cas").unwrap(), Command::Cas);
    assert_eq!(Command::parse("fai").unwrap(), Command::Fai);
}

#[test]
fn other_tokens_are_references_or_numbers() {
    assert_eq!(Command::parse("r1").unwrap(), Command::Ref(reg("r1")));
    assert_eq!(Command::parse("#data").unwrap(), Command::Ref(mem("data")));
    assert_eq!(Command::parse("#").unwrap(), Command::Ref(mem("")));
    assert_eq!(Command::parse("Load").unwrap(), Command::Ref(reg("Load")));
    assert_eq!(Command::parse("+1").unwrap(), Command::Ref(reg("+1")));
    assert_eq!(Command::parse("42").unwrap(), Command::Number(42));
    assert_eq!(Command::parse("0").unwrap(), Command::Number(0));
    assert_eq!("42".parse::<Command>().unwrap(), Command::Number(42));
    assert_eq!("#m".parse::<Reference>().unwrap(), mem("m"));
    assert_eq!("m".parse::<Reference>().unwrap(), reg("m"));
}

#[test]
fn a_token_that_is_no_command_is_an_invalid_command() {
    assert_eq!(Command::parse("1x"), Err(Error::InvalidCommand("1x".to_string())));
    assert_eq!(Command::parse(""), Err(Error::InvalidCommand("".to_string())));
    let over = format!("{}0", usize::MAX);
    assert_eq!(Command::parse(&over), Err(Error::InvalidCommand(over.clone())));
    assert_eq!(
        "x = 1x".parse::<Instruction>(),
        Err(Error::InvalidCommand("1x".to_string()))
    );
    assert_eq!(
        "9z = 8y".parse::<Instruction>(),
        Err(Error::InvalidCommand("9z".to_string()))
    );
}

#[test]
fn tokens_of_no_shape_are_an_invalid_instruction() {
    assert_eq!(
        "x = ".parse::<Instruction>(),
        Err(Error::InvalidInstruction("x = ".to_string()))
    );
    assert_eq!("".parse::<Instruction>(), Err(Error::InvalidInstruction("".to_string())));
    assert_eq!(
        "fence".parse::<Instruction>(),
        Err(Error::InvalidInstruction("fence".to_string()))
    );
    assert_eq!(
        "if r1 goto #L".parse::<Instruction>(),
        Err(Error::InvalidInstruction("if r1 goto #L".to_string()))
    );
    assert_eq!(
        "x := 1".parse::<Instruction>(),
        Err(Error::InvalidInstruction("x := 1".to_string()))
    );
    assert_eq!(
        "load ACQ #m r extra".parse::<Instruction>(),
        Err(Error::InvalidInstruction("load ACQ #m r extra".to_string()))
    );
}

#[test]
fn every_operator_and_mode_is_read() {
    for (text, op) in [
        ("+", ArithCommand::Add),
        ("-", ArithCommand::Sub),
        ("*", ArithCommand::Mul),
        ("/", ArithCommand::Div),
    ] {
        let line = format!("a = b {} c", text);
        assert_eq!(
            line.parse::<Instruction>().unwrap(),
            Instruction::AssignOperation(reg("a"), reg("b"), op, reg("c"))
        );
    }
    for (text, mode) in [
        ("SEQ_CST", MemoryAccessMode::SeqCst),
        ("REL", MemoryAccessMode::Rel),
        ("ACQ", MemoryAccessMode::Acq),
        ("REL_ACQ", MemoryAccessMode::RelAcq),
        ("RLX", MemoryAccessMode::Rlx),
    ] {
        let line = format!("fence {}", text);
        assert_eq!(line.parse::<Instruction>().unwrap(), Instruction::Fence(mode));
    }
}

#[test]
fn the_parser_keeps_operands_as_written() {
    assert_eq!(
        "load RLX r1 #r2".parse::<Instruction>().unwrap(),
        Instruction::Load(MemoryAccessMode::Rlx, reg("r1"), mem("r2"))
    );
    assert_eq!(
        "#x = 3".parse::<Instruction>().unwrap(),
        Instruction::AssignConst(mem("x"), 3)
    );
}

#[test]
fn arithmetic_is_exact_where_defined() {
    assert_eq!(ArithCommand::Add.apply(2, 3), 5);
    assert_eq!(ArithCommand::Sub.apply(7, 3), 4);
    assert_eq!(ArithCommand::Mul.apply(6, 7), 42);
    assert_eq!(ArithCommand::Div.apply(7, 2), 3);
    assert_eq!(ArithCommand::Add.checked_apply(usize::MAX, 0), Some(usize::MAX));
    assert_eq!(ArithCommand::Add.checked_apply(usize::MAX, 1), None);
    assert_eq!(ArithCommand::Sub.checked_apply(3, 3), Some(0));
    assert_eq!(ArithCommand::Sub.checked_apply(3, 4), None);
    assert_eq!(ArithCommand::Mul.checked_apply(usize::MAX, 2), None);
    assert_eq!(ArithCommand::Mul.checked_apply(0, usize::MAX), Some(0));
    assert_eq!(ArithCommand::Div.checked_apply(9, 0), None);
    assert_eq!(ArithCommand::Div.checked_apply(9, 3), Some(3));
}

#[test]
fn a_label_is_the_first_token_where_it_ends_in_a_colon() {
    assert_eq!(
        LabeledInstruction::label("L1: x = 1"),
        (Some("L1".to_string()), "x = 1".to_string())
    );
    assert_eq!(LabeledInstruction::label("  x   =  1 "), (None, "x = 1".to_string()));
    assert_eq!(
        LabeledInstruction::label("a:b: fence RLX"),
        (Some("ab".to_string()), "fence RLX".to_string())
    );
    assert_eq!(LabeledInstruction::label("end:"), (Some("end".to_string()), "".to_string()));
    assert_eq!(LabeledInstruction::label(""), (None, "".to_string()));
    assert_eq!(LabeledInstruction::label("x =: 1"), (None, "x =: 1".to_string()));
}

#[test]
fn a_line_is_read_at_its_place() {
    let line = LabeledInstruction::from_line("L5: store REL r1 #flag", 3, 1).unwrap();
    assert_eq!(
        line,
        LabeledInstruction::new(
            Some("L5".to_string()),
            Instruction::Store(MemoryAccessMode::Rel, reg("r1"), mem("flag")),
            3,
            1,
        )
    );
    assert_eq!(line.label, Some("L5".to_string()));
    assert_eq!(line.line_index, 3);
    assert_eq!(line.thread_id, 1);
    let parsed = "x = 2".parse::<LabeledInstruction>().unwrap();
    assert_eq!(
        parsed,
        LabeledInstruction::new(None, Instruction::AssignConst(reg("x"), 2), 0, 0)
    );
}

#[test]
fn a_line_that_cannot_be_read_gives_its_error() {
    assert_eq!(
        LabeledInstruction::from_line("L: x  =", 0, 0),
        Err(Error::InvalidInstruction("x =".to_string()))
    );
    assert_eq!(
        LabeledInstruction::from_line("L: x = 1z", 0, 0),
        Err(Error::InvalidCommand("1z".to_string()))
    );
    assert_eq!(
        LabeledInstruction::from_line("   ", 0, 0),
        Err(Error::InvalidInstruction("".to_string()))
    );
}

#[test]
fn identifiers_name_thread_and_line() {
    let line = LabeledInstruction::from_line("x = 1", 12, 3).unwrap();
    assert_eq!(line.id(), "3-12");
    let first = LabeledInstruction::from_line("x = 1", 0, 0).unwrap();
    assert_eq!(first.id(), "0-0");
}

#[test]
fn instructions_are_rendered() {
    assert_eq!(ArithCommand::Add.to_string(), "+");
    assert_eq!(ArithCommand::Sub.to_string(), "-");
    assert_eq!(ArithCommand::Mul.to_string(), "*");
    assert_eq!(ArithCommand::Div.to_string(), "/");
    assert_eq!(MemoryAccessMode::SeqCst.to_string(), "SEQ_CST");
    assert_eq!(MemoryAccessMode::Rel.to_string(), "REL");
    assert_eq!(MemoryAccessMode::Acq.to_string(), "ACQ");
    assert_eq!(MemoryAccessMode::RelAcq.to_string(), "REL_ACQ");
    assert_eq!(MemoryAccessMode::Rlx.to_string(), "RLX");
    assert_eq!(reg("a").to_string(), "ra");
    assert_eq!(mem("a").to_string(), "ma");
    let render = |text: &str| text.parse::<Instruction>().unwrap().to_string();
    assert_eq!(render("x = 17"), "rx := 17");
    assert_eq!(render("x = a * b"), "rx := ra * rb");
    assert_eq!(render("if c goto L5"), "if rc goto L5");
    assert_eq!(render("load ACQ #m r"), "mm := load ACQ rr");
    assert_eq!(render("store REL r #m"), "store REL rr mm");
    assert_eq!(render("d := cas SEQ_CST #m e n"), "rd := cas SEQ_CST mm re rn");
    assert_eq!(render("d := fai RLX #m k"), "rd := fai RLX mm rk");
    assert_eq!(render("fence REL_ACQ"), "fence REL_ACQ");
}

#[test]
fn placed_instructions_are_rendered() {
    let plain = LabeledInstruction::from_line("x = 1", 4, 2).unwrap();
    assert_eq!(plain.to_string(), "Thread 2, line 4: rx := 1");
    let labeled = LabeledInstruction::from_line("top: fence RLX", 0, 10).unwrap();
    assert_eq!(labeled.to_string(), "Thread 10, line 0: top: fence RLX");
}

#[test]
fn loads_and_stores_are_memory_accesses() {
    let is = |text: &str| text.parse::<Instruction>().unwrap().is_memory_access();
    assert!(is("load RLX #m r"));
    assert!(is("store RLX r #m"));
    assert!(!is("x = 1"));
    assert!(!is("x = a + b"));
    assert!(!is("if x goto L"));
    assert!(!is("d := cas RLX #m a b"));
    assert!(!is("d := fai RLX #m a"));
    assert!(!is("fence RLX"));
}

#[test]
fn a_write_operation_holds_its_parts() {
    let w = WriteOperation::new("a".to_string(), 5);
    assert_eq!(w.addr, "a");
    assert_eq!(w.value, 5);
}

#[test]
fn clones_are_equal() {
    let line = LabeledInstruction::from_line("L: d := cas REL #m e n", 1, 2).unwrap();
    assert_eq!(line.clone(), line);
    let command = Command::Label("x".to_string());
    assert_eq!(command.clone(), command);
}

#[test]
fn operators_and_modes_convert_to_commands() {
    assert_eq!(Command::from(ArithCommand::Mul), Command::Arith(ArithCommand::Mul));
    assert_eq!(
        Command::from(MemoryAccessMode::Acq),
        Command::MemoryAccess(MemoryAccessMode::Acq)
    );
    let command: Command = ArithCommand::Add.into();
    assert_eq!(command, Command::Arith(ArithCommand::Add));
}

#[test]
fn a_number_written_and_read_again_is_the_same() {
    let mut n: usize = 0;
    while n < 3000 {
        assert_eq!(parse_decimal(&chars_of(&decimal_string(n))), Some(n));
        n += 1;
    }
    for n in [usize::MAX, usize::MAX - 1, usize::MAX / 10, 1 << 31, 99_999, 100_000] {
        assert_eq!(parse_decimal(&chars_of(&decimal_string(n))), Some(n));
    }
}

#[test]
fn tokens_hold_a_character_and_no_whitespace() {
    for sample in ["", "  ", "a", " a  bc\td\n", "\u{2003}x\u{a0}y:\u{3000}#z 12 "] {
        for token in split_tokens(sample) {
            assert!(!token.is_empty());
            assert!(!token.chars().any(char_is_whitespace));
        }
    }
}

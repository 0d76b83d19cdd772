//! The instruction model: references, access modes, arithmetic, the
//! instructions themselves, and the parser that reads them from text.
use vstd::prelude::*;
use vstd::string::*;
use crate::text::{
    chars_of, char_is_digit, decimal, decimal_string, decimal_value, all_digits, is_digit,
    parse_decimal, split_tokens, tokens, views,
};

verus! {

/// An arithmetic operator of the register ALU.
#[derive(Debug, Copy, Clone, PartialEq, Eq, Structural)]
pub enum ArithCommand {
    Add,
    Sub,
    Mul,
    Div,
}

impl ArithCommand {
    /// The exact result of the operator on two words, as an integer.
    /// Division rounds toward zero.
    pub open spec fn result(self, lhs: int, rhs: int) -> int {
        match self {
            ArithCommand::Add => lhs + rhs,
            ArithCommand::Sub => lhs - rhs,
            ArithCommand::Mul => lhs * rhs,
            ArithCommand::Div => lhs / rhs,
        }
    }

    /// Whether the operator has a result that is a machine word: the
    /// divisor is not zero and the result is in range.
    pub open spec fn defined(self, lhs: usize, rhs: usize) -> bool {
        &&& self == ArithCommand::Div ==> rhs != 0
        &&& 0 <= self.result(lhs as int, rhs as int) <= usize::MAX
    }

    /// Applies the operator where it is defined.
    pub fn apply(&self, lhs: usize, rhs: usize) -> (r: usize)
        requires
            self.defined(lhs, rhs),
        ensures
            r == self.result(lhs as int, rhs as int),
    {
        match self {
            ArithCommand::Add => lhs + rhs,
            ArithCommand::Sub => lhs - rhs,
            ArithCommand::Mul => lhs * rhs,
            ArithCommand::Div => lhs / rhs,
        }
    }

    /// Applies the operator, or reports that it has no result in range.
    pub fn checked_apply(&self, lhs: usize, rhs: usize) -> (r: Option<usize>)
        ensures
            r is Some <==> self.defined(lhs, rhs),
            r matches Some(v) ==> v == self.result(lhs as int, rhs as int),
    {
        match self {
            ArithCommand::Add => lhs.checked_add(rhs),
            ArithCommand::Sub => lhs.checked_sub(rhs),
            ArithCommand::Mul => lhs.checked_mul(rhs),
            ArithCommand::Div => lhs.checked_div(rhs),
        }
    }

    /// The operator's symbol.
    pub open spec fn symbol(self) -> Seq<char> {
        match self {
            ArithCommand::Add => "+"@,
            ArithCommand::Sub => "-"@,
            ArithCommand::Mul => "*"@,
            ArithCommand::Div => "/"@,
        }
    }

    /// Renders the operator as its symbol.
    pub fn to_string(&self) -> (s: String)
        ensures
            s@ == self.symbol(),
    {
        match self {
            ArithCommand::Add => "+".to_owned(),
            ArithCommand::Sub => "-".to_owned(),
            ArithCommand::Mul => "*".to_owned(),
            ArithCommand::Div => "/".to_owned(),
        }
    }
}

/// How strongly a memory operation synchronises.
#[derive(Debug, Copy, Clone, PartialEq, Eq, Structural)]
pub enum MemoryAccessMode {
    SeqCst,
    Rel,
    Acq,
    RelAcq,
    Rlx,
}

impl MemoryAccessMode {
    /// The mode's keyword.
    pub open spec fn keyword(self) -> Seq<char> {
        match self {
            MemoryAccessMode::SeqCst => "SEQ_CST"@,
            MemoryAccessMode::Rel => "REL"@,
            MemoryAccessMode::Acq => "ACQ"@,
            MemoryAccessMode::RelAcq => "REL_ACQ"@,
            MemoryAccessMode::Rlx => "RLX"@,
        }
    }

    /// Renders the mode as its keyword.
    pub fn to_string(&self) -> (s: String)
        ensures
            s@ == self.keyword(),
    {
        match self {
            MemoryAccessMode::SeqCst => "SEQ_CST".to_owned(),
            MemoryAccessMode::Rel => "REL".to_owned(),
            MemoryAccessMode::Acq => "ACQ".to_owned(),
            MemoryAccessMode::RelAcq => "REL_ACQ".to_owned(),
            MemoryAccessMode::Rlx => "RLX".to_owned(),
        }
    }
}

/// A register or a memory location, by name.
#[derive(Debug, PartialEq)]
pub enum Reference {
    Register(String),
    Memory(String),
}

/// A reference as a mathematical value.
pub enum ReferenceView {
    Register(Seq<char>),
    Memory(Seq<char>),
}

impl View for Reference {
    type V = ReferenceView;

    open spec fn view(&self) -> ReferenceView {
        match self {
            Reference::Register(name) => ReferenceView::Register(name@),
            Reference::Memory(name) => ReferenceView::Memory(name@),
        }
    }
}

impl Clone for Reference {
    fn clone(&self) -> (res: Self)
        ensures
            res == *self,
    {
        match self {
            Reference::Register(name) => Reference::Register(name.clone()),
            Reference::Memory(name) => Reference::Memory(name.clone()),
        }
    }
}

/// The reference that a token denotes: a memory location where it starts
/// with `#`, named by what follows; a register otherwise.
pub open spec fn reference_of(token: Seq<char>) -> ReferenceView {
    if token.len() > 0 && token[0] == '#' {
        ReferenceView::Memory(token.skip(1))
    } else {
        ReferenceView::Register(token)
    }
}

impl ReferenceView {
    /// The name of the register or location.
    pub open spec fn name(self) -> Seq<char> {
        match self {
            ReferenceView::Register(name) => name,
            ReferenceView::Memory(name) => name,
        }
    }

    /// The rendering of a reference: `r` or `m`, then the name.
    pub open spec fn text(self) -> Seq<char> {
        match self {
            ReferenceView::Register(name) => "r"@ + name,
            ReferenceView::Memory(name) => "m"@ + name,
        }
    }
}

impl Reference {
    /// Reads a reference from a token.
    pub fn parse(token: &str) -> (r: Reference)
        ensures
            r@ == reference_of(token@),
    {
        let n: usize = token.unicode_len();
        if n > 0 && token.get_char(0) == '#' {
            Reference::Memory(token.substring_char(1, n).to_owned())
        } else {
            Reference::Register(token.to_owned())
        }
    }

    /// Whether two references are the same case with the same name.
    pub fn same(&self, other: &Reference) -> (b: bool)
        ensures
            b == (self@ == other@),
    {
        match (self, other) {
            (Reference::Register(a), Reference::Register(b)) => *a == *b,
            (Reference::Memory(a), Reference::Memory(b)) => *a == *b,
            _ => false,
        }
    }

    /// Renders the reference.
    pub fn to_string(&self) -> (s: String)
        ensures
            s@ == self@.text(),
    {
        match self {
            Reference::Register(name) => "r".to_owned().concat(name.as_str()),
            Reference::Memory(name) => "m".to_owned().concat(name.as_str()),
        }
    }
}

impl std::str::FromStr for Reference {
    type Err = ();

    fn from_str(token: &str) -> (r: Result<Self, Self::Err>)
        ensures
            r matches Ok(reference) && reference@ == reference_of(token@),
    {
        Ok(Reference::parse(token))
    }
}

/// One token of a line, classified.
#[derive(Debug, PartialEq)]
pub enum Command {
    Arith(ArithCommand),
    Ref(Reference),
    Number(usize),
    MemoryAccess(MemoryAccessMode),
    Eq,
    Assign,
    Load,
    Store,
    If,
    Goto,
    Fence,
    Cas,
    Fai,
    Label(String),
}

/// A classified token as a mathematical value.
pub enum CommandView {
    Arith(ArithCommand),
    Ref(ReferenceView),
    Number(usize),
    MemoryAccess(MemoryAccessMode),
    Eq,
    Assign,
    Load,
    Store,
    If,
    Goto,
    Fence,
    Cas,
    Fai,
    Label(Seq<char>),
}

impl View for Command {
    type V = CommandView;

    open spec fn view(&self) -> CommandView {
        match self {
            Command::Arith(op) => CommandView::Arith(*op),
            Command::Ref(reference) => CommandView::Ref(reference@),
            Command::Number(n) => CommandView::Number(*n),
            Command::MemoryAccess(mode) => CommandView::MemoryAccess(*mode),
            Command::Eq => CommandView::Eq,
            Command::Assign => CommandView::Assign,
            Command::Load => CommandView::Load,
            Command::Store => CommandView::Store,
            Command::If => CommandView::If,
            Command::Goto => CommandView::Goto,
            Command::Fence => CommandView::Fence,
            Command::Cas => CommandView::Cas,
            Command::Fai => CommandView::Fai,
            Command::Label(name) => CommandView::Label(name@),
        }
    }
}

impl Clone for Command {
    fn clone(&self) -> (res: Self)
        ensures
            res == *self,
    {
        match self {
            Command::Arith(op) => Command::Arith(*op),
            Command::Ref(reference) => Command::Ref(reference.clone()),
            Command::Number(n) => Command::Number(*n),
            Command::MemoryAccess(mode) => Command::MemoryAccess(*mode),
            Command::Eq => Command::Eq,
            Command::Assign => Command::Assign,
            Command::Load => Command::Load,
            Command::Store => Command::Store,
            Command::If => Command::If,
            Command::Goto => Command::Goto,
            Command::Fence => Command::Fence,
            Command::Cas => Command::Cas,
            Command::Fai => Command::Fai,
            Command::Label(name) => Command::Label(name.clone()),
        }
    }
}

impl From<ArithCommand> for Command {
    fn from(cmd: ArithCommand) -> (command: Self) {
        Self::Arith(cmd)
    }
}

impl vstd::std_specs::convert::FromSpecImpl<ArithCommand> for Command {
    open spec fn obeys_from_spec() -> bool {
        true
    }

    open spec fn from_spec(cmd: ArithCommand) -> Self {
        Command::Arith(cmd)
    }
}

impl From<MemoryAccessMode> for Command {
    fn from(cmd: MemoryAccessMode) -> (command: Self) {
        Self::MemoryAccess(cmd)
    }
}

impl vstd::std_specs::convert::FromSpecImpl<MemoryAccessMode> for Command {
    open spec fn obeys_from_spec() -> bool {
        true
    }

    open spec fn from_spec(cmd: MemoryAccessMode) -> Self {
        Command::MemoryAccess(cmd)
    }
}

/// Why a line could not be read.
#[derive(Debug, PartialEq)]
pub enum Error {
    /// A token that is no keyword, reference or number.
    InvalidCommand(String),
    /// A sequence of tokens that has the shape of no instruction.
    InvalidInstruction(String),
}

/// A parse error as a mathematical value.
pub enum ErrorView {
    InvalidCommand(Seq<char>),
    InvalidInstruction(Seq<char>),
}

impl View for Error {
    type V = ErrorView;

    open spec fn view(&self) -> ErrorView {
        match self {
            Error::InvalidCommand(text) => ErrorView::InvalidCommand(text@),
            Error::InvalidInstruction(text) => ErrorView::InvalidInstruction(text@),
        }
    }
}

/// A write to memory: the address and the word written.
pub struct WriteOperation {
    pub addr: String,
    pub value: usize,
}

impl WriteOperation {
    pub fn new(addr: String, value: usize) -> (w: Self)
        ensures
            w.addr == addr,
            w.value == value,
    {
        Self { addr, value }
    }
}

/// An instruction of the language.
#[derive(Debug, PartialEq)]
pub enum Instruction {
    /// Destination register, literal.
    AssignConst(Reference, usize),
    /// Destination register, left operand, operator, right operand.
    AssignOperation(Reference, Reference, ArithCommand, Reference),
    /// Condition register, target label.
    ConditionalJump(Reference, String),
    /// Mode, memory location, destination register.
    Load(MemoryAccessMode, Reference, Reference),
    /// Mode, source register, memory location.
    Store(MemoryAccessMode, Reference, Reference),
    /// Destination register, mode, memory location, expected, desired.
    Cas(Reference, MemoryAccessMode, Reference, Reference, Reference),
    /// Destination register, mode, memory location, increment.
    Fai(Reference, MemoryAccessMode, Reference, Reference),
    /// Mode.
    Fence(MemoryAccessMode),
}

/// An instruction as a mathematical value.
pub enum InstructionView {
    AssignConst(ReferenceView, usize),
    AssignOperation(ReferenceView, ReferenceView, ArithCommand, ReferenceView),
    ConditionalJump(ReferenceView, Seq<char>),
    Load(MemoryAccessMode, ReferenceView, ReferenceView),
    Store(MemoryAccessMode, ReferenceView, ReferenceView),
    Cas(ReferenceView, MemoryAccessMode, ReferenceView, ReferenceView, ReferenceView),
    Fai(ReferenceView, MemoryAccessMode, ReferenceView, ReferenceView),
    Fence(MemoryAccessMode),
}

impl View for Instruction {
    type V = InstructionView;

    open spec fn view(&self) -> InstructionView {
        match self {
            Instruction::AssignConst(dest, n) => InstructionView::AssignConst(dest@, *n),
            Instruction::AssignOperation(dest, lhs, op, rhs) => InstructionView::AssignOperation(
                dest@,
                lhs@,
                *op,
                rhs@,
            ),
            Instruction::ConditionalJump(cond, label) => InstructionView::ConditionalJump(
                cond@,
                label@,
            ),
            Instruction::Load(mode, a, b) => InstructionView::Load(*mode, a@, b@),
            Instruction::Store(mode, a, b) => InstructionView::Store(*mode, a@, b@),
            Instruction::Cas(dest, mode, a, b, c) => InstructionView::Cas(
                dest@,
                *mode,
                a@,
                b@,
                c@,
            ),
            Instruction::Fai(dest, mode, a, b) => InstructionView::Fai(dest@, *mode, a@, b@),
            Instruction::Fence(mode) => InstructionView::Fence(*mode),
        }
    }
}

impl Clone for Instruction {
    fn clone(&self) -> (res: Self)
        ensures
            res == *self,
    {
        match self {
            Instruction::AssignConst(dest, n) => Instruction::AssignConst(dest.clone(), *n),
            Instruction::AssignOperation(dest, lhs, op, rhs) => Instruction::AssignOperation(
                dest.clone(),
                lhs.clone(),
                *op,
                rhs.clone(),
            ),
            Instruction::ConditionalJump(cond, label) => Instruction::ConditionalJump(
                cond.clone(),
                label.clone(),
            ),
            Instruction::Load(mode, a, b) => Instruction::Load(*mode, a.clone(), b.clone()),
            Instruction::Store(mode, a, b) => Instruction::Store(*mode, a.clone(), b.clone()),
            Instruction::Cas(dest, mode, a, b, c) => Instruction::Cas(
                dest.clone(),
                *mode,
                a.clone(),
                b.clone(),
                c.clone(),
            ),
            Instruction::Fai(dest, mode, a, b) => Instruction::Fai(
                dest.clone(),
                *mode,
                a.clone(),
                b.clone(),
            ),
            Instruction::Fence(mode) => Instruction::Fence(*mode),
        }
    }
}

/// An instruction in its place: the label of its line, if any, its
/// position in its thread's program, and the thread.
#[derive(Debug, PartialEq)]
pub struct LabeledInstruction {
    pub label: Option<String>,
    pub instruction: Instruction,
    pub line_index: usize,
    pub thread_id: usize,
}

/// A placed instruction as a mathematical value.
pub struct LabeledInstructionView {
    pub label: Option<Seq<char>>,
    pub instruction: InstructionView,
    pub line_index: usize,
    pub thread_id: usize,
}

/// The view of an optional string.
pub open spec fn option_view(s: Option<String>) -> Option<Seq<char>> {
    match s {
        Some(text) => Some(text@),
        None => None,
    }
}

impl View for LabeledInstruction {
    type V = LabeledInstructionView;

    open spec fn view(&self) -> LabeledInstructionView {
        LabeledInstructionView {
            label: option_view(self.label),
            instruction: self.instruction@,
            line_index: self.line_index,
            thread_id: self.thread_id,
        }
    }
}

impl Clone for LabeledInstruction {
    fn clone(&self) -> (res: Self)
        ensures
            res == *self,
    {
        let label = match &self.label {
            Some(text) => Some(text.clone()),
            None => None,
        };
        LabeledInstruction {
            label,
            instruction: self.instruction.clone(),
            line_index: self.line_index,
            thread_id: self.thread_id,
        }
    }
}

/// What a token is: a keyword first; else a reference, unless it starts
/// with a digit; else a number, if it is all digits and fits a machine
/// word. Anything else is an invalid command.
pub open spec fn command_of(token: Seq<char>) -> Result<CommandView, ErrorView> {
    if token == "+"@ {
        Ok(CommandView::Arith(ArithCommand::Add))
    } else if token == "-"@ {
        Ok(CommandView::Arith(ArithCommand::Sub))
    } else if token == "/"@ {
        Ok(CommandView::Arith(ArithCommand::Div))
    } else if token == "*"@ {
        Ok(CommandView::Arith(ArithCommand::Mul))
    } else if token == "SEQ_CST"@ {
        Ok(CommandView::MemoryAccess(MemoryAccessMode::SeqCst))
    } else if token == "REL"@ {
        Ok(CommandView::MemoryAccess(MemoryAccessMode::Rel))
    } else if token == "ACQ"@ {
        Ok(CommandView::MemoryAccess(MemoryAccessMode::Acq))
    } else if token == "REL_ACQ"@ {
        Ok(CommandView::MemoryAccess(MemoryAccessMode::RelAcq))
    } else if token == "RLX"@ {
        Ok(CommandView::MemoryAccess(MemoryAccessMode::Rlx))
    } else if token == "="@ {
        Ok(CommandView::Eq)
    } else if token == ":="@ {
        Ok(CommandView::Assign)
    } else if token == "load"@ {
        Ok(CommandView::Load)
    } else if token == "store"@ {
        Ok(CommandView::Store)
    } else if token == "if"@ {
        Ok(CommandView::If)
    } else if token == "goto"@ {
        Ok(CommandView::Goto)
    } else if token == "fence"@ {
        Ok(CommandView::Fence)
    } else if token == "cas"@ {
        Ok(CommandView::Cas)
    } else if token == "fai"@ {
        Ok(CommandView::Fai)
    } else if token.len() > 0 && !is_digit(token[0]) {
        Ok(CommandView::Ref(reference_of(token)))
    } else if token.len() > 0 && all_digits(token) && decimal_value(token) <= usize::MAX {
        Ok(CommandView::Number(decimal_value(token) as usize))
    } else {
        Err(ErrorView::InvalidCommand(token))
    }
}

/// The commands of a sequence of tokens, or the error of the first token
/// that is no command.
pub open spec fn commands_of(tokens: Seq<Seq<char>>) -> Result<Seq<CommandView>, ErrorView>
    decreases tokens.len(),
{
    if tokens.len() == 0 {
        Ok(Seq::empty())
    } else {
        match commands_of(tokens.drop_last()) {
            Err(e) => Err(e),
            Ok(commands) => match command_of(tokens.last()) {
                Err(e) => Err(e),
                Ok(command) => Ok(commands.push(command)),
            },
        }
    }
}

/// The instruction whose shape a sequence of commands has, if any.
pub open spec fn instruction_of(cs: Seq<CommandView>) -> Option<InstructionView> {
    if cs.len() == 2 {
        match (cs[0], cs[1]) {
            (CommandView::Fence, CommandView::MemoryAccess(mode)) => Some(
                InstructionView::Fence(mode),
            ),
            _ => None,
        }
    } else if cs.len() == 3 {
        match (cs[0], cs[1], cs[2]) {
            (CommandView::Ref(dest), CommandView::Eq, CommandView::Number(n)) => Some(
                InstructionView::AssignConst(dest, n),
            ),
            _ => None,
        }
    } else if cs.len() == 4 {
        match (cs[0], cs[1], cs[2], cs[3]) {
            (
                CommandView::If,
                CommandView::Ref(cond),
                CommandView::Goto,
                CommandView::Ref(ReferenceView::Register(label)),
            ) => Some(InstructionView::ConditionalJump(cond, label)),
            (
                CommandView::Load,
                CommandView::MemoryAccess(mode),
                CommandView::Ref(a),
                CommandView::Ref(b),
            ) => Some(InstructionView::Load(mode, a, b)),
            (
                CommandView::Store,
                CommandView::MemoryAccess(mode),
                CommandView::Ref(a),
                CommandView::Ref(b),
            ) => Some(InstructionView::Store(mode, a, b)),
            _ => None,
        }
    } else if cs.len() == 5 {
        match (cs[0], cs[1], cs[2], cs[3], cs[4]) {
            (
                CommandView::Ref(dest),
                CommandView::Eq,
                CommandView::Ref(lhs),
                CommandView::Arith(op),
                CommandView::Ref(rhs),
            ) => Some(InstructionView::AssignOperation(dest, lhs, op, rhs)),
            _ => None,
        }
    } else if cs.len() == 6 {
        match (cs[0], cs[1], cs[2], cs[3], cs[4], cs[5]) {
            (
                CommandView::Ref(dest),
                CommandView::Assign,
                CommandView::Fai,
                CommandView::MemoryAccess(mode),
                CommandView::Ref(a),
                CommandView::Ref(b),
            ) => Some(InstructionView::Fai(dest, mode, a, b)),
            _ => None,
        }
    } else if cs.len() == 7 {
        match (cs[0], cs[1], cs[2], cs[3], cs[4], cs[5], cs[6]) {
            (
                CommandView::Ref(dest),
                CommandView::Assign,
                CommandView::Cas,
                CommandView::MemoryAccess(mode),
                CommandView::Ref(a),
                CommandView::Ref(b),
                CommandView::Ref(c),
            ) => Some(InstructionView::Cas(dest, mode, a, b, c)),
            _ => None,
        }
    } else {
        None
    }
}

/// What a text reads as: the error of its first invalid token; else the
/// instruction whose shape its tokens have; else an invalid instruction,
/// with the text.
pub open spec fn parse_instruction(text: Seq<char>) -> Result<InstructionView, ErrorView> {
    match commands_of(tokens(text)) {
        Err(e) => Err(e),
        Ok(commands) => match instruction_of(commands) {
            Some(instruction) => Ok(instruction),
            None => Err(ErrorView::InvalidInstruction(text)),
        },
    }
}

/// The views of a sequence of commands.
pub open spec fn command_views(cs: Seq<Command>) -> Seq<CommandView> {
    Seq::new(cs.len(), |i: int| cs[i]@)
}

/// The view of the outcome of reading a command.
pub open spec fn command_result_view(r: Result<Command, Error>) -> Result<CommandView, ErrorView> {
    match r {
        Ok(command) => Ok(command@),
        Err(e) => Err(e@),
    }
}

/// The view of the outcome of reading an instruction.
pub open spec fn instruction_result_view(r: Result<Instruction, Error>) -> Result<
    InstructionView,
    ErrorView,
> {
    match r {
        Ok(instruction) => Ok(instruction@),
        Err(e) => Err(e@),
    }
}

/// Whether a token is the given word.
fn is_word(token: &String, word: &str) -> (b: bool)
    ensures
        b == (token@ == word@),
{
    let w = word.to_owned();
    *token == w
}

impl Command {
    /// Classifies a token.
    pub fn parse(token: &str) -> (r: Result<Command, Error>)
        ensures
            command_result_view(r) == command_of(token@),
    {
        let t = token.to_owned();
        if is_word(&t, "+") {
            Ok(Command::Arith(ArithCommand::Add))
        } else if is_word(&t, "-") {
            Ok(Command::Arith(ArithCommand::Sub))
        } else if is_word(&t, "/") {
            Ok(Command::Arith(ArithCommand::Div))
        } else if is_word(&t, "*") {
            Ok(Command::Arith(ArithCommand::Mul))
        } else if is_word(&t, "SEQ_CST") {
            Ok(Command::MemoryAccess(MemoryAccessMode::SeqCst))
        } else if is_word(&t, "REL") {
            Ok(Command::MemoryAccess(MemoryAccessMode::Rel))
        } else if is_word(&t, "ACQ") {
            Ok(Command::MemoryAccess(MemoryAccessMode::Acq))
        } else if is_word(&t, "REL_ACQ") {
            Ok(Command::MemoryAccess(MemoryAccessMode::RelAcq))
        } else if is_word(&t, "RLX") {
            Ok(Command::MemoryAccess(MemoryAccessMode::Rlx))
        } else if is_word(&t, "=") {
            Ok(Command::Eq)
        } else if is_word(&t, ":=") {
            Ok(Command::Assign)
        } else if is_word(&t, "load") {
            Ok(Command::Load)
        } else if is_word(&t, "store") {
            Ok(Command::Store)
        } else if is_word(&t, "if") {
            Ok(Command::If)
        } else if is_word(&t, "goto") {
            Ok(Command::Goto)
        } else if is_word(&t, "fence") {
            Ok(Command::Fence)
        } else if is_word(&t, "cas") {
            Ok(Command::Cas)
        } else if is_word(&t, "fai") {
            Ok(Command::Fai)
        } else {
            let chars = chars_of(token);
            if chars.len() > 0 && !char_is_digit(chars[0]) {
                Ok(Command::Ref(Reference::parse(token)))
            } else {
                match parse_decimal(&chars) {
                    Some(n) => Ok(Command::Number(n)),
                    None => Err(Error::InvalidCommand(t)),
                }
            }
        }
    }
}

impl std::str::FromStr for Command {
    type Err = Error;

    fn from_str(token: &str) -> (r: Result<Self, Self::Err>)
        ensures
            command_result_view(r) == command_of(token@),
    {
        Command::parse(token)
    }
}

/// Classifies each token of a line, stopping at the first that is invalid.
fn parse_commands(tokens: &Vec<String>) -> (r: Result<Vec<Command>, Error>)
    ensures
        match r {
            Ok(commands) => commands_of(views(tokens@)) == Ok::<Seq<CommandView>, ErrorView>(
                command_views(commands@),
            ),
            Err(e) => commands_of(views(tokens@)) == Err::<Seq<CommandView>, ErrorView>(e@),
        },
{
    let mut commands: Vec<Command> = Vec::new();
    let mut i: usize = 0;
    assert(command_views(commands@) == Seq::<CommandView>::empty());
    while i < tokens.len()
        invariant
            i <= tokens.len(),
            commands_of(views(tokens@).take(i as int)) == Ok::<Seq<CommandView>, ErrorView>(
                command_views(commands@),
            ),
        decreases tokens.len() - i,
    {
        let ghost all = views(tokens@);
        let ghost done = command_views(commands@);
        assert(all.take(i + 1).drop_last() == all.take(i as int));
        assert(all.take(i + 1).last() == tokens@[i as int]@);
        match Command::parse(tokens[i].as_str()) {
            Ok(command) => {
                commands.push(command);
                assert(command_views(commands@) == done.push(command@));
            },
            Err(e) => {
                proof {
                    lemma_commands_error_prefix(all, i + 1);
                }
                return Err(e);
            },
        }
        i = i + 1;
    }
    assert(views(tokens@).take(i as int) == views(tokens@));
    Ok(commands)
}

/// An error among the first tokens is the error of the whole line.
pub proof fn lemma_commands_error_prefix(tokens: Seq<Seq<char>>, i: int)
    requires
        0 <= i <= tokens.len(),
        commands_of(tokens.take(i)) is Err,
    ensures
        commands_of(tokens) == commands_of(tokens.take(i)),
    decreases tokens.len(),
{
    if i == tokens.len() {
        assert(tokens.take(i) == tokens);
    } else {
        assert(tokens.drop_last().take(i) == tokens.take(i));
        lemma_commands_error_prefix(tokens.drop_last(), i);
    }
}

/// Builds the instruction whose shape the commands have, if any.
fn instruction_from_commands(cs: &Vec<Command>) -> (r: Option<Instruction>)
    ensures
        match r {
            Some(instruction) => instruction_of(command_views(cs@)) == Some(instruction@),
            None => instruction_of(command_views(cs@)) is None,
        },
{
    let ghost v = command_views(cs@);
    assert(v.len() == cs.len());
    assert(forall|i: int| 0 <= i < cs.len() ==> v[i] == cs@[i]@);
    if cs.len() == 2 {
        match (&cs[0], &cs[1]) {
            (Command::Fence, Command::MemoryAccess(mode)) => Some(Instruction::Fence(*mode)),
            _ => None,
        }
    } else if cs.len() == 3 {
        match (&cs[0], &cs[1], &cs[2]) {
            (Command::Ref(dest), Command::Eq, Command::Number(n)) => Some(
                Instruction::AssignConst(dest.clone(), *n),
            ),
            _ => None,
        }
    } else if cs.len() == 4 {
        match (&cs[0], &cs[1], &cs[2], &cs[3]) {
            (
                Command::If,
                Command::Ref(cond),
                Command::Goto,
                Command::Ref(Reference::Register(label)),
            ) => Some(Instruction::ConditionalJump(cond.clone(), label.clone())),
            (Command::Load, Command::MemoryAccess(mode), Command::Ref(a), Command::Ref(b)) => Some(
                Instruction::Load(*mode, a.clone(), b.clone()),
            ),
            (
                Command::Store,
                Command::MemoryAccess(mode),
                Command::Ref(a),
                Command::Ref(b),
            ) => Some(Instruction::Store(*mode, a.clone(), b.clone())),
            _ => None,
        }
    } else if cs.len() == 5 {
        match (&cs[0], &cs[1], &cs[2], &cs[3], &cs[4]) {
            (
                Command::Ref(dest),
                Command::Eq,
                Command::Ref(lhs),
                Command::Arith(op),
                Command::Ref(rhs),
            ) => Some(Instruction::AssignOperation(dest.clone(), lhs.clone(), *op, rhs.clone())),
            _ => None,
        }
    } else if cs.len() == 6 {
        match (&cs[0], &cs[1], &cs[2], &cs[3], &cs[4], &cs[5]) {
            (
                Command::Ref(dest),
                Command::Assign,
                Command::Fai,
                Command::MemoryAccess(mode),
                Command::Ref(a),
                Command::Ref(b),
            ) => Some(Instruction::Fai(dest.clone(), *mode, a.clone(), b.clone())),
            _ => None,
        }
    } else if cs.len() == 7 {
        match (&cs[0], &cs[1], &cs[2], &cs[3], &cs[4], &cs[5], &cs[6]) {
            (
                Command::Ref(dest),
                Command::Assign,
                Command::Cas,
                Command::MemoryAccess(mode),
                Command::Ref(a),
                Command::Ref(b),
                Command::Ref(c),
            ) => Some(Instruction::Cas(dest.clone(), *mode, a.clone(), b.clone(), c.clone())),
            _ => None,
        }
    } else {
        None
    }
}

impl InstructionView {
    /// Whether the instruction is a plain load or store.
    pub open spec fn is_memory_access(self) -> bool {
        self is Load || self is Store
    }

    /// The rendering of an instruction.
    pub open spec fn text(self) -> Seq<char> {
        match self {
            InstructionView::AssignConst(dest, n) => dest.text() + " := "@ + decimal(n as nat),
            InstructionView::AssignOperation(dest, lhs, op, rhs) => dest.text() + " := "@
                + lhs.text() + " "@ + op.symbol() + " "@ + rhs.text(),
            InstructionView::ConditionalJump(cond, label) => "if "@ + cond.text() + " goto "@
                + label,
            InstructionView::Load(mode, a, b) => a.text() + " := load "@ + mode.keyword() + " "@
                + b.text(),
            InstructionView::Store(mode, a, b) => "store "@ + mode.keyword() + " "@ + a.text()
                + " "@ + b.text(),
            InstructionView::Cas(dest, mode, a, b, c) => dest.text() + " := cas "@
                + mode.keyword() + " "@ + a.text() + " "@ + b.text() + " "@ + c.text(),
            InstructionView::Fai(dest, mode, a, b) => dest.text() + " := fai "@ + mode.keyword()
                + " "@ + a.text() + " "@ + b.text(),
            InstructionView::Fence(mode) => "fence "@ + mode.keyword(),
        }
    }
}

impl Instruction {
    /// Reads an instruction from text.
    pub fn parse(text: &str) -> (r: Result<Instruction, Error>)
        ensures
            instruction_result_view(r) == parse_instruction(text@),
    {
        let tokens = split_tokens(text);
        match parse_commands(&tokens) {
            Err(e) => Err(e),
            Ok(commands) => match instruction_from_commands(&commands) {
                Some(instruction) => Ok(instruction),
                None => Err(Error::InvalidInstruction(text.to_owned())),
            },
        }
    }

    /// Whether the instruction is a plain load or store.
    pub fn is_memory_access(&self) -> (b: bool)
        ensures
            b == self@.is_memory_access(),
    {
        match self {
            Instruction::Load(_, _, _) | Instruction::Store(_, _, _) => true,
            _ => false,
        }
    }

    /// Renders the instruction.
    pub fn to_string(&self) -> (s: String)
        ensures
            s@ == self@.text(),
    {
        match self {
            Instruction::AssignConst(dest, n) => {
                let mut s = dest.to_string();
                s.append(" := ");
                s.append(decimal_string(*n).as_str());
                s
            },
            Instruction::AssignOperation(dest, lhs, op, rhs) => {
                let mut s = dest.to_string();
                s.append(" := ");
                s.append(lhs.to_string().as_str());
                s.append(" ");
                s.append(op.to_string().as_str());
                s.append(" ");
                s.append(rhs.to_string().as_str());
                s
            },
            Instruction::ConditionalJump(cond, label) => {
                let mut s = "if ".to_owned();
                s.append(cond.to_string().as_str());
                s.append(" goto ");
                s.append(label.as_str());
                s
            },
            Instruction::Load(mode, a, b) => {
                let mut s = a.to_string();
                s.append(" := load ");
                s.append(mode.to_string().as_str());
                s.append(" ");
                s.append(b.to_string().as_str());
                s
            },
            Instruction::Store(mode, a, b) => {
                let mut s = "store ".to_owned();
                s.append(mode.to_string().as_str());
                s.append(" ");
                s.append(a.to_string().as_str());
                s.append(" ");
                s.append(b.to_string().as_str());
                s
            },
            Instruction::Cas(dest, mode, a, b, c) => {
                let mut s = dest.to_string();
                s.append(" := cas ");
                s.append(mode.to_string().as_str());
                s.append(" ");
                s.append(a.to_string().as_str());
                s.append(" ");
                s.append(b.to_string().as_str());
                s.append(" ");
                s.append(c.to_string().as_str());
                s
            },
            Instruction::Fai(dest, mode, a, b) => {
                let mut s = dest.to_string();
                s.append(" := fai ");
                s.append(mode.to_string().as_str());
                s.append(" ");
                s.append(a.to_string().as_str());
                s.append(" ");
                s.append(b.to_string().as_str());
                s
            },
            Instruction::Fence(mode) => {
                let mut s = "fence ".to_owned();
                s.append(mode.to_string().as_str());
                s
            },
        }
    }
}

impl std::str::FromStr for Instruction {
    type Err = Error;

    fn from_str(text: &str) -> (r: Result<Self, Self::Err>)
        ensures
            instruction_result_view(r) == parse_instruction(text@),
    {
        Instruction::parse(text)
    }
}

/// A text without its colons.
pub open spec fn without_colons(s: Seq<char>) -> Seq<char>
    decreases s.len(),
{
    if s.len() == 0 {
        Seq::empty()
    } else if s.last() == ':' {
        without_colons(s.drop_last())
    } else {
        without_colons(s.drop_last()).push(s.last())
    }
}

/// Tokens joined by single spaces.
pub open spec fn join(tokens: Seq<Seq<char>>) -> Seq<char>
    decreases tokens.len(),
{
    if tokens.len() == 0 {
        Seq::empty()
    } else if tokens.len() == 1 {
        tokens[0]
    } else {
        join(tokens.drop_last()) + " "@ + tokens.last()
    }
}

/// Whether a line starts with a label: its first token ends in a colon.
pub open spec fn has_label(line: Seq<char>) -> bool {
    tokens(line).len() > 0 && tokens(line)[0].len() > 0 && tokens(line)[0].last() == ':'
}

/// The label of a line: its first token without its colons, where that
/// token ends in a colon.
pub open spec fn label_of(line: Seq<char>) -> Option<Seq<char>> {
    if has_label(line) {
        Some(without_colons(tokens(line)[0]))
    } else {
        None
    }
}

/// The instruction text of a line: its tokens after the label, joined by
/// single spaces.
pub open spec fn body_of(line: Seq<char>) -> Seq<char> {
    if has_label(line) {
        join(tokens(line).skip(1))
    } else {
        join(tokens(line))
    }
}

/// What a line reads as at a given place: the instruction of its body
/// under its label, or the error of its body.
pub open spec fn parse_line(line: Seq<char>, line_index: usize, thread_id: usize) -> Result<
    LabeledInstructionView,
    ErrorView,
> {
    match parse_instruction(body_of(line)) {
        Ok(instruction) => Ok(
            LabeledInstructionView { label: label_of(line), instruction, line_index, thread_id },
        ),
        Err(e) => Err(e),
    }
}

/// The view of the outcome of reading a line.
pub open spec fn line_result_view(r: Result<LabeledInstruction, Error>) -> Result<
    LabeledInstructionView,
    ErrorView,
> {
    match r {
        Ok(instruction) => Ok(instruction@),
        Err(e) => Err(e@),
    }
}

/// Removes the colons from a token.
fn strip_colons(token: &str) -> (out: String)
    ensures
        out@ == without_colons(token@),
{
    let chars = chars_of(token);
    let mut out = String::new();
    let mut i: usize = 0;
    while i < chars.len()
        invariant
            chars@ == token@,
            i <= chars.len(),
            out@ == without_colons(token@.take(i as int)),
        decreases chars.len() - i,
    {
        assert(token@.take(i + 1).drop_last() == token@.take(i as int));
        assert(token@.take(i + 1).last() == chars@[i as int]);
        if chars[i] != ':' {
            let piece = token.substring_char(i, i + 1);
            assert(piece@ == seq![chars@[i as int]]);
            out.append(piece);
        }
        i = i + 1;
    }
    assert(token@.take(i as int) == token@);
    out
}

/// Joins the tokens from `from` on by single spaces.
fn join_tokens(tokens: &Vec<String>, from: usize) -> (out: String)
    requires
        from <= tokens.len(),
    ensures
        out@ == join(views(tokens@).skip(from as int)),
{
    let ghost all = views(tokens@).skip(from as int);
    let mut out = String::new();
    let mut i: usize = from;
    while i < tokens.len()
        invariant
            from <= i <= tokens.len(),
            all == views(tokens@).skip(from as int),
            out@ == join(all.take(i - from)),
        decreases tokens.len() - i,
    {
        assert(all.take(i + 1 - from).drop_last() == all.take(i - from));
        assert(all.take(i + 1 - from).last() == tokens@[i as int]@);
        if i > from {
            out.append(" ");
        }
        out.append(tokens[i].as_str());
        i = i + 1;
    }
    assert(all.take(i - from) == all);
    out
}

impl LabeledInstructionView {
    /// The identifier of a placed instruction: thread, hyphen, line.
    pub open spec fn id(self) -> Seq<char> {
        decimal(self.thread_id as nat) + "-"@ + decimal(self.line_index as nat)
    }

    /// The rendering of a placed instruction.
    pub open spec fn text(self) -> Seq<char> {
        let head = "Thread "@ + decimal(self.thread_id as nat) + ", line "@ + decimal(
            self.line_index as nat,
        ) + ": "@;
        match self.label {
            Some(label) => head + label + ": "@ + self.instruction.text(),
            None => head + self.instruction.text(),
        }
    }
}

impl LabeledInstruction {
    pub fn new(
        label: Option<String>,
        instruction: Instruction,
        line_index: usize,
        thread_id: usize,
    ) -> (r: Self)
        ensures
            r.label == label,
            r.instruction == instruction,
            r.line_index == line_index,
            r.thread_id == thread_id,
    {
        Self { label, instruction, line_index, thread_id }
    }

    /// Splits a line into its label, if it has one, and its instruction text.
    pub fn label(line: &str) -> (r: (Option<String>, String))
        ensures
            option_view(r.0) == label_of(line@),
            r.1@ == body_of(line@),
    {
        let tokens = split_tokens(line);
        let ghost ts = views(tokens@);
        if tokens.len() > 0 {
            let first = chars_of(tokens[0].as_str());
            assert(first@ == ts[0]);
            if first.len() > 0 && first[first.len() - 1] == ':' {
                let label = strip_colons(tokens[0].as_str());
                let body = join_tokens(&tokens, 1);
                return (Some(label), body);
            }
        }
        let body = join_tokens(&tokens, 0);
        assert(ts.skip(0) == ts);
        (None, body)
    }

    /// Reads a line as the instruction at the given place.
    pub fn from_line(line: &str, line_index: usize, thread_id: usize) -> (r: Result<Self, Error>)
        ensures
            line_result_view(r) == parse_line(line@, line_index, thread_id),
    {
        let (label, body) = Self::label(line);
        match Instruction::parse(body.as_str()) {
            Ok(instruction) => Ok(Self::new(label, instruction, line_index, thread_id)),
            Err(e) => Err(e),
        }
    }

    /// The identifier of the instruction: thread, hyphen, line.
    pub fn id(&self) -> (s: String)
        ensures
            s@ == self@.id(),
    {
        let mut s = decimal_string(self.thread_id);
        s.append("-");
        s.append(decimal_string(self.line_index).as_str());
        s
    }

    /// Renders the instruction with its place.
    pub fn to_string(&self) -> (s: String)
        ensures
            s@ == self@.text(),
    {
        let mut s = "Thread ".to_owned();
        s.append(decimal_string(self.thread_id).as_str());
        s.append(", line ");
        s.append(decimal_string(self.line_index).as_str());
        s.append(": ");
        match &self.label {
            Some(label) => {
                s.append(label.as_str());
                s.append(": ");
            },
            None => {},
        }
        s.append(self.instruction.to_string().as_str());
        s
    }
}

impl std::str::FromStr for LabeledInstruction {
    type Err = Error;

    fn from_str(line: &str) -> (r: Result<Self, Self::Err>)
        ensures
            line_result_view(r) == parse_line(line@, 0, 0),
    {
        LabeledInstruction::from_line(line, 0, 0)
    }
}

} // verus!

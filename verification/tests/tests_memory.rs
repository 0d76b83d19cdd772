use isa_interpreter::instruction::WriteOperation;
use isa_interpreter::memory_subsystem::{
    Buffer, MemorySubsystem, SCMemorySubsystem, TSOMemorySubsystem,
};
use isa_interpreter::thread_subsystem::Registers;
use isa_interpreter::Memory;

#[test]
fn a_name_never_written_holds_zero() {
    let memory = Memory::new();
    assert_eq!(memory.load("x"), 0);
    assert_eq!(memory.load(""), 0);
}

#[test]
fn memory_holds_the_last_word_stored_at_a_name() {
    let mut memory = Memory::new();
    memory.store("x", 1);
    memory.store("y", 2);
    assert_eq!(memory.load("x"), 1);
    assert_eq!(memory.load("y"), 2);
    memory.store("x", 3);
    assert_eq!(memory.load("x"), 3);
    assert_eq!(memory.load("y"), 2);
    assert_eq!(memory.load("z"), 0);
    assert_eq!(memory.data.len(), 2);
}

#[test]
fn memory_is_listed_by_name() {
    let mut memory = Memory::new();
    assert_eq!(memory.to_string(), "");
    memory.store("b", 2);
    memory.store("a", 10);
    memory.store("ab", 0);
    memory.store("B", 7);
    memory.store("b", 3);
    assert_eq!(memory.to_string(), "B: 7\na: 10\nab: 0\nb: 3\n");
    let sorted = memory.sorted_entries();
    assert_eq!(
        sorted,
        vec![
            ("B".to_string(), 7),
            ("a".to_string(), 10),
            ("ab".to_string(), 0),
            ("b".to_string(), 3)
        ]
    );
}

#[test]
fn sequentially_consistent_stores_are_seen_by_every_thread() {
    let mut memory = SCMemorySubsystem::new();
    assert_eq!(memory.load("m", 0), 0);
    memory.store("m", 4, 0);
    assert_eq!(memory.load("m", 0), 4);
    assert_eq!(memory.load("m", 1), 4);
    memory.propagate(0);
    memory.propagate(7);
    assert_eq!(memory.load("m", 1), 4);
    assert_eq!(memory.memory.load("m"), 4);
}

#[test]
fn a_buffer_answers_with_its_latest_write() {
    let mut buffer = Buffer::new();
    assert_eq!(buffer.load("a"), None);
    buffer.push(WriteOperation::new("a".to_string(), 1));
    buffer.push(WriteOperation::new("b".to_string(), 2));
    buffer.push(WriteOperation::new("a".to_string(), 3));
    assert_eq!(buffer.load("a"), Some(3));
    assert_eq!(buffer.load("b"), Some(2));
    assert_eq!(buffer.load("c"), None);
}

#[test]
fn a_buffer_drains_oldest_first() {
    let mut buffer = Buffer::new();
    assert!(buffer.propagate().is_none());
    buffer.push(WriteOperation::new("a".to_string(), 1));
    buffer.push(WriteOperation::new("b".to_string(), 2));
    let first = buffer.propagate().unwrap();
    assert_eq!((first.addr.as_str(), first.value), ("a", 1));
    assert_eq!(buffer.load("a"), None);
    let second = buffer.propagate().unwrap();
    assert_eq!((second.addr.as_str(), second.value), ("b", 2));
    assert!(buffer.propagate().is_none());
}

#[test]
fn buffered_stores_are_seen_by_their_thread_only() {
    let mut memory = TSOMemorySubsystem::new();
    memory.store("m", 5, 0);
    assert_eq!(memory.load("m", 0), 5);
    assert_eq!(memory.load("m", 1), 0);
    assert_eq!(memory.memory.load("m"), 0);
    memory.store("m", 6, 0);
    assert_eq!(memory.load("m", 0), 6);
    memory.propagate(0);
    assert_eq!(memory.memory.load("m"), 5);
    assert_eq!(memory.load("m", 1), 5);
    assert_eq!(memory.load("m", 0), 6);
    memory.propagate(0);
    assert_eq!(memory.load("m", 1), 6);
    assert_eq!(memory.load("m", 0), 6);
    memory.propagate(0);
    assert_eq!(memory.load("m", 1), 6);
}

#[test]
fn propagation_takes_the_head_of_the_threads_own_buffer() {
    let mut memory = TSOMemorySubsystem::new();
    memory.store("a", 1, 0);
    memory.store("b", 2, 0);
    memory.store("a", 9, 1);
    memory.propagate(0);
    assert_eq!(memory.memory.load("a"), 1);
    assert_eq!(memory.memory.load("b"), 0);
    assert_eq!(memory.load("a", 1), 9);
    memory.propagate(1);
    assert_eq!(memory.memory.load("a"), 9);
    assert_eq!(memory.load("a", 0), 9);
    memory.propagate(0);
    assert_eq!(memory.memory.load("b"), 2);
}

#[test]
fn registers_are_per_thread_and_start_at_zero() {
    let mut registers = Registers::new();
    registers.add_bank(0);
    registers.add_bank(1);
    assert_eq!(registers.load("r", 0), 0);
    registers.store("r", 8, 0);
    assert_eq!(registers.load("r", 0), 8);
    assert_eq!(registers.load("r", 1), 0);
    registers.store("r", 9, 1);
    registers.store("s", 1, 0);
    assert_eq!(registers.load("r", 0), 8);
    assert_eq!(registers.load("r", 1), 9);
    assert_eq!(registers.load("s", 0), 1);
    assert_eq!(registers.load("s", 1), 0);
}

#[test]
fn registers_are_listed_thread_by_thread() {
    let mut registers = Registers::new();
    assert_eq!(registers.to_string(), "");
    registers.add_bank(2);
    registers.add_bank(0);
    registers.add_bank(11);
    registers.store("y", 4, 2);
    registers.store("x", 3, 2);
    registers.store("r", 1, 11);
    assert_eq!(registers.threads(), vec![0, 2, 11]);
    assert_eq!(
        registers.to_string(),
        "Thread 0\n\nThread 2\nx: 3\ny: 4\n\nThread 11\nr: 1\n\n"
    );
}

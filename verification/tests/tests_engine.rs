use isa_interpreter::graph_model::NodeId;
use isa_interpreter::memory_subsystem::MemorySubsystem;
use isa_interpreter::thread_subsystem::check_programs;
use isa_interpreter::{programs_to_instructions, LabeledInstruction, SequentialConsistency, TSO};

fn instr(thread_id: usize, line_index: usize) -> NodeId {
    NodeId { propagate: false, thread_id, line_index }
}

fn prop(thread_id: usize, line_index: usize) -> NodeId {
    NodeId { propagate: true, thread_id, line_index }
}

fn programs(texts: &[&str]) -> Vec<Vec<LabeledInstruction>> {
    programs_to_instructions(texts.iter().map(|t| t.to_string()).collect()).unwrap()
}

fn sc(texts: &[&str]) -> SequentialConsistency {
    SequentialConsistency::new(programs(texts))
}

fn tso(texts: &[&str], pso: bool) -> TSO {
    let programs = programs(texts);
    assert!(check_programs(&programs));
    TSO::new(programs, pso)
}

fn run_thread(system: &mut SequentialConsistency, thread_id: usize) {
    let options = system.get_instructions_to_exec();
    let option = options.into_iter().find(|o| o.thread_id == thread_id).unwrap();
    assert!(system.can_exec(&option));
    system.exec_instruction(option);
}

fn fire(system: &mut TSO, node: NodeId) {
    assert!(system.get_instructions_to_exec().contains(&node), "{:?} is no leaf", node);
    assert!(system.can_exec(node));
    system.exec_instruction(node);
}

#[test]
fn the_sequential_engine_starts_at_the_first_lines() {
    let system = sc(&["x = 1\ny = 2", "", "z = 3"]);
    assert_eq!(system.instruction_pointers, vec![0, 0, 0]);
    let options = system.get_instructions_to_exec();
    assert_eq!(options.len(), 2);
    assert_eq!(options[0].to_string(), "Thread 0, line 0: rx := 1");
    assert_eq!(options[1].to_string(), "Thread 2, line 0: rz := 3");
    assert_eq!(system.registers.load("x", 0), 0);
    assert_eq!(system.registers.load("x", 1), 0);
    assert_eq!(system.memory_subsystem.load("m", 0), 0);
}

#[test]
fn the_sequential_engine_applies_each_instruction() {
    let mut system = sc(&[
        "a = 6\nb = 7\nc = a * b\nstore RLX c #m\nload RLX #m d\ne := fai RLX #m a\nf := cas RLX #m c b\ng := cas RLX #m d b\nfence SEQ_CST\nh = c - a\ni = c / b\nj = a + b",
    ]);
    for _ in 0..12 {
        run_thread(&mut system, 0);
    }
    assert!(system.get_instructions_to_exec().is_empty());
    assert_eq!(system.instruction_pointers, vec![12]);
    let reg = |name: &str| system.registers.load(name, 0);
    assert_eq!(reg("a"), 6);
    assert_eq!(reg("b"), 7);
    assert_eq!(reg("c"), 42);
    assert_eq!(reg("d"), 42);
    assert_eq!(reg("e"), 42);
    assert_eq!(reg("f"), 48);
    assert_eq!(reg("g"), 48);
    assert_eq!(reg("h"), 36);
    assert_eq!(reg("i"), 6);
    assert_eq!(reg("j"), 13);
    assert_eq!(system.memory_subsystem.load("m", 0), 48);
}

#[test]
fn a_successful_cas_writes_the_desired_word() {
    let mut system = sc(&["d = 9\nr := cas RLX #m e d"]);
    run_thread(&mut system, 0);
    run_thread(&mut system, 0);
    assert_eq!(system.registers.load("r", 0), 0);
    assert_eq!(system.memory_subsystem.load("m", 0), 9);
}

#[test]
fn a_jump_is_taken_where_the_register_is_not_zero() {
    let mut system = sc(&["n = 2\none = 1\ntop: n = n - one\nif n goto top\ndone = 1"]);
    let mut steps = 0;
    while !system.get_instructions_to_exec().is_empty() {
        run_thread(&mut system, 0);
        steps += 1;
    }
    assert_eq!(steps, 7);
    assert_eq!(system.registers.load("n", 0), 0);
    assert_eq!(system.registers.load("done", 0), 1);
    assert_eq!(system.instruction_pointers, vec![5]);
}

#[test]
fn labels_are_found_by_their_first_line() {
    let system = sc(&["a: x = 1\nb: x = 2\na: x = 3", "c: y = 1"]);
    assert_eq!(system.find_label_index(0, "a"), Some(0));
    assert_eq!(system.find_label_index(0, "b"), Some(1));
    assert_eq!(system.find_label_index(0, "c"), None);
    assert_eq!(system.find_label_index(1, "c"), Some(0));
}

#[test]
fn the_sequential_engine_refuses_what_it_cannot_execute() {
    let system = sc(&["x = 1\nif x goto nowhere"]);
    let refuse = |text: &str, line: usize, thread: usize| {
        !system.can_exec(&LabeledInstruction::from_line(text, line, thread).unwrap())
    };
    assert!(refuse("x = 1", 0, 5));
    assert!(refuse("#x = 1", 0, 0));
    assert!(refuse("load RLX r #m", 0, 0));
    assert!(refuse("store RLX #m r", 0, 0));
    assert!(refuse("x = a / b", 0, 0));
    assert!(refuse("x = a - b", 0, 0) == false);
    assert!(refuse("if #m goto L", 0, 0));
    assert!(!refuse("if x goto nowhere", 1, 0));
    let mut system = sc(&["x = 1\nif x goto nowhere\none = 1\nbig = 0\nbig = big - one"]);
    run_thread(&mut system, 0);
    let options = system.get_instructions_to_exec();
    assert!(!system.can_exec(&options[0]));
    let under = LabeledInstruction::from_line("big = big - x", 4, 0).unwrap();
    assert!(!system.can_exec(&under));
}

fn schedules(lengths: &[usize]) -> Vec<Vec<usize>> {
    fn go(left: &mut Vec<usize>, current: &mut Vec<usize>, out: &mut Vec<Vec<usize>>) {
        if left.iter().all(|n| *n == 0) {
            out.push(current.clone());
            return;
        }
        for t in 0..left.len() {
            if left[t] > 0 {
                left[t] -= 1;
                current.push(t);
                go(left, current, out);
                current.pop();
                left[t] += 1;
            }
        }
    }
    let mut out = Vec::new();
    go(&mut lengths.to_vec(), &mut Vec::new(), &mut out);
    out
}

#[test]
fn message_passing_holds_under_sequential_consistency() {
    let texts = [
        "x = 1\nstore REL x #data\ny = 1\nstore REL y #flag",
        "load ACQ #flag r1\nload RLX #data r2",
    ];
    let all = schedules(&[4, 2]);
    assert_eq!(all.len(), 15);
    let mut observed = 0;
    for schedule in all {
        let mut system = sc(&texts);
        for thread_id in schedule {
            run_thread(&mut system, thread_id);
        }
        assert_eq!(system.memory_subsystem.load("data", 0), 1);
        assert_eq!(system.memory_subsystem.load("flag", 0), 1);
        if system.registers.load("r1", 1) == 1 {
            observed += 1;
            assert_eq!(system.registers.load("r2", 1), 1);
        }
    }
    assert_eq!(observed, 1);
}

#[test]
fn the_store_order_engine_starts_with_the_program_order_edges() {
    let system = tso(
        &["x = 1\nstore REL x #data\ny = 1\nstore REL y #flag", "load ACQ #flag r1\nload RLX #data r2"],
        false,
    );
    assert!(!system.is_pso);
    assert_eq!(system.dependency_graph.nodes.len(), 6);
    assert_eq!(
        system.get_instructions_to_exec(),
        vec![instr(0, 0), instr(0, 1), instr(1, 0), instr(1, 1)]
    );
    let waits = |id: NodeId| {
        let mut list = system.dependency_graph.node(id).unwrap().depends_on.clone();
        list.sort_by_key(|id| id.line_index);
        list
    };
    assert_eq!(waits(instr(0, 2)), vec![instr(0, 1)]);
    assert_eq!(waits(instr(0, 3)), vec![instr(0, 1)]);
    assert_eq!(waits(instr(1, 0)), vec![]);
    assert_eq!(waits(instr(1, 1)), vec![]);
    assert!(tso(&[], true).is_pso);
}

/// Runs every schedule of leaves and calls `check` on each final state.
fn explore(texts: &[&str], pso: bool, check: &mut dyn FnMut(&TSO, &[NodeId])) -> usize {
    fn replay(texts: &[&str], pso: bool, path: &[NodeId]) -> TSO {
        let mut system = tso(texts, pso);
        for node in path {
            fire(&mut system, *node);
        }
        system
    }
    fn go(
        texts: &[&str],
        pso: bool,
        path: &mut Vec<NodeId>,
        check: &mut dyn FnMut(&TSO, &[NodeId]),
        count: &mut usize,
    ) {
        let system = replay(texts, pso, path);
        let leaves = system.get_instructions_to_exec();
        if leaves.is_empty() {
            assert!(system.dependency_graph.nodes.is_empty());
            *count += 1;
            check(&system, path);
            return;
        }
        for leaf in leaves {
            path.push(leaf);
            go(texts, pso, path, check, count);
            path.pop();
        }
    }
    let mut count = 0;
    go(texts, pso, &mut Vec::new(), check, &mut count);
    count
}

fn before(path: &[NodeId], first: NodeId, second: NodeId) -> bool {
    let at = |id: NodeId| path.iter().position(|p| *p == id).unwrap();
    at(first) < at(second)
}

#[test]
fn message_passing_holds_under_total_store_order_where_both_threads_keep_program_order() {
    let texts = ["x = 1\nstore REL x #data\ny = 1\nstore REL y #flag", "load ACQ #flag r1\nload RLX #data r2"];
    let mut observed = 0;
    let mut reordered = 0;
    let count = explore(&texts, false, &mut |system, path| {
        assert!(before(path, prop(0, 1), prop(0, 3)));
        assert!(before(path, instr(0, 1), instr(0, 3)));
        let in_order = before(path, instr(0, 0), instr(0, 1))
            && before(path, instr(0, 2), instr(0, 3))
            && before(path, instr(1, 0), instr(1, 1));
        let r1 = system.registers.load("r1", 1);
        let r2 = system.registers.load("r2", 1);
        if in_order {
            assert_eq!(system.memory_subsystem.memory.load("data"), 1);
            assert_eq!(system.memory_subsystem.memory.load("flag"), 1);
            if r1 == 1 {
                observed += 1;
                assert_eq!(r2, 1);
            }
        }
        if r1 == 1 && r2 == 0 {
            reordered += 1;
            assert!(!in_order);
        }
    });
    assert!(count > 0);
    assert!(observed > 0);
    assert!(reordered > 0);
}

#[test]
fn message_passing_holds_on_every_schedule_where_the_modes_order_both_threads() {
    let texts = [
        "x = 1\nstore REL_ACQ x #data\ny = 1\nstore REL_ACQ y #flag",
        "load REL_ACQ #flag r1\nload RLX #data r2",
    ];
    let mut observed = 0;
    let count = explore(&texts, false, &mut |system, _| {
        assert_eq!(system.memory_subsystem.memory.load("data"), 1);
        assert_eq!(system.memory_subsystem.memory.load("flag"), 1);
        if system.registers.load("r1", 1) == 1 {
            observed += 1;
            assert_eq!(system.registers.load("r2", 1), 1);
        }
    });
    assert!(count > 0);
    assert!(observed > 0);
    let mut swapped = 0;
    explore(&texts, true, &mut |system, path| {
        if before(path, prop(0, 3), prop(0, 1)) {
            swapped += 1;
        }
        if system.registers.load("r1", 1) == 1 {
            assert_eq!(system.registers.load("r2", 1), 1);
        }
    });
    assert!(swapped > 0);
}

#[test]
fn independent_stores_propagate_in_either_order_under_partial_store_order_only() {
    let texts = ["store RLX a #A\nstore RLX b #B"];
    let mut system = tso(&texts, true);
    fire(&mut system, instr(0, 0));
    fire(&mut system, instr(0, 1));
    assert_eq!(system.get_instructions_to_exec(), vec![prop(0, 0), prop(0, 1)]);
    let mut system = tso(&texts, false);
    fire(&mut system, instr(0, 0));
    assert_eq!(system.get_instructions_to_exec(), vec![instr(0, 1), prop(0, 0)]);
    fire(&mut system, instr(0, 1));
    assert_eq!(system.get_instructions_to_exec(), vec![prop(0, 0)]);
    assert!(!system.can_exec(prop(0, 1)));
    fire(&mut system, prop(0, 0));
    assert_eq!(system.get_instructions_to_exec(), vec![prop(0, 1)]);
    let mut first_b = 0;
    explore(&texts, true, &mut |_, path| {
        if before(path, prop(0, 1), prop(0, 0)) {
            first_b += 1;
        }
    });
    assert!(first_b > 0);
    explore(&texts, false, &mut |_, path| {
        assert_eq!(before(path, prop(0, 0), prop(0, 1)), before(path, instr(0, 0), instr(0, 1)));
    });
}

#[test]
fn a_thread_reads_its_own_buffered_store() {
    let texts = ["r1 = 5\nstore RLX r1 #m\nload RLX #m r2", "load RLX #m r3"];
    let mut system = tso(&texts, false);
    fire(&mut system, instr(0, 0));
    fire(&mut system, instr(0, 1));
    fire(&mut system, instr(0, 2));
    fire(&mut system, instr(1, 0));
    assert_eq!(system.registers.load("r2", 0), 5);
    assert_eq!(system.registers.load("r3", 1), 0);
    assert_eq!(system.memory_subsystem.memory.load("m"), 0);
    fire(&mut system, prop(0, 1));
    assert_eq!(system.memory_subsystem.memory.load("m"), 5);
    assert!(system.get_instructions_to_exec().is_empty());
    let mut system = tso(&texts, false);
    fire(&mut system, instr(0, 0));
    fire(&mut system, instr(0, 1));
    fire(&mut system, prop(0, 1));
    fire(&mut system, instr(0, 2));
    fire(&mut system, instr(1, 0));
    assert_eq!(system.registers.load("r2", 0), 5);
    assert_eq!(system.registers.load("r3", 1), 5);
}

#[test]
fn a_fence_waits_for_the_propagation_of_an_earlier_store() {
    let mut system = tso(&["store RLX r1 #m\nfence REL_ACQ\nx = 1"], false);
    assert_eq!(system.get_instructions_to_exec(), vec![instr(0, 0)]);
    assert!(!system.can_exec(instr(0, 1)));
    fire(&mut system, instr(0, 0));
    assert_eq!(system.get_instructions_to_exec(), vec![prop(0, 0)]);
    assert_eq!(
        system.dependency_graph.node(instr(0, 1)).unwrap().depends_on,
        vec![prop(0, 0)]
    );
    fire(&mut system, prop(0, 0));
    assert_eq!(system.get_instructions_to_exec(), vec![instr(0, 1)]);
    fire(&mut system, instr(0, 1));
    assert_eq!(system.get_instructions_to_exec(), vec![instr(0, 2)]);
    fire(&mut system, instr(0, 2));
    assert!(system.get_instructions_to_exec().is_empty());
}

#[test]
fn a_failed_cas_buffers_nothing() {
    let mut system = tso(&["e = 1\nd = 2\nr := cas RLX #m e d"], false);
    fire(&mut system, instr(0, 0));
    fire(&mut system, instr(0, 1));
    fire(&mut system, instr(0, 2));
    assert_eq!(system.registers.load("r", 0), 0);
    assert_eq!(system.memory_subsystem.load("m", 0), 0);
    assert!(system.get_instructions_to_exec().is_empty());
    assert!(system.dependency_graph.nodes.is_empty());
    let mut system = tso(&["store RLX nine #m\ne = 1\nr := cas RLX #m e e"], false);
    fire(&mut system, instr(0, 1));
    fire(&mut system, instr(0, 2));
    fire(&mut system, instr(0, 0));
    assert_eq!(system.get_instructions_to_exec(), vec![prop(0, 0)]);
}

#[test]
fn a_successful_cas_and_a_fai_buffer_their_writes() {
    let mut system = tso(&["d = 7\nr := cas RLX #m e d\nk = 3\ns := fai RLX #m k"], false);
    fire(&mut system, instr(0, 0));
    fire(&mut system, instr(0, 1));
    assert_eq!(system.registers.load("r", 0), 0);
    assert_eq!(system.memory_subsystem.load("m", 0), 7);
    assert_eq!(system.memory_subsystem.memory.load("m"), 0);
    assert!(system.dependency_graph.contains(prop(0, 1)));
    fire(&mut system, instr(0, 2));
    fire(&mut system, instr(0, 3));
    assert_eq!(system.registers.load("s", 0), 7);
    assert_eq!(system.memory_subsystem.load("m", 0), 10);
    assert_eq!(system.get_instructions_to_exec(), vec![prop(0, 1)]);
    fire(&mut system, prop(0, 1));
    assert_eq!(system.memory_subsystem.memory.load("m"), 7);
    fire(&mut system, prop(0, 3));
    assert_eq!(system.memory_subsystem.memory.load("m"), 10);
    assert!(system.dependency_graph.nodes.is_empty());
}

#[test]
fn the_store_order_engine_applies_register_instructions() {
    let mut system = tso(&["a = 6\nb = 7", "c = a * b\nfence RLX"], true);
    fire(&mut system, instr(0, 1));
    fire(&mut system, instr(0, 0));
    fire(&mut system, instr(1, 1));
    fire(&mut system, instr(1, 0));
    assert_eq!(system.registers.load("a", 0), 6);
    assert_eq!(system.registers.load("b", 0), 7);
    assert_eq!(system.registers.load("c", 1), 0);
    assert!(system.get_instructions_to_exec().is_empty());
}

#[test]
fn the_store_order_engine_refuses_what_it_cannot_execute() {
    let mut system = tso(
        &["if x goto L\nL: x = a / b\nload RLX r #m\nbig = big - one\none = 1\nstore ACQ one #m"],
        false,
    );
    assert!(!system.can_exec(instr(0, 0)));
    assert!(!system.can_exec(instr(0, 1)));
    assert!(!system.can_exec(instr(0, 2)));
    assert!(system.can_exec(instr(0, 3)));
    assert!(system.can_exec(instr(0, 4)));
    assert!(!system.can_exec(instr(0, 5)));
    assert!(!system.can_exec(instr(0, 9)));
    assert!(!system.can_exec(prop(0, 0)));
    fire(&mut system, instr(0, 4));
    assert!(!system.can_exec(instr(0, 3)));
}

#[test]
fn programs_are_checked_for_their_places() {
    let good = programs(&["x = 1\ny = 2", "z = 3"]);
    assert!(check_programs(&good));
    assert!(check_programs(&Vec::new()));
    let line = |text: &str, l: usize, t: usize| LabeledInstruction::from_line(text, l, t).unwrap();
    assert!(!check_programs(&vec![vec![line("x = 1", 1, 0)]]));
    assert!(!check_programs(&vec![vec![line("x = 1", 0, 1)]]));
    assert!(!check_programs(&vec![vec![line("x = 1", 0, 0), line("x = 1", 0, 0)]]));
    assert!(check_programs(&vec![vec![], vec![line("x = 1", 0, 1)]]));
}

#[test]
fn a_propagation_drains_the_head_of_the_buffer_whichever_node_fires() {
    let mut system = tso(&["a = 1\nb = 2\nstore RLX a #A\nstore RLX b #B"], true);
    fire(&mut system, instr(0, 0));
    fire(&mut system, instr(0, 1));
    fire(&mut system, instr(0, 2));
    fire(&mut system, instr(0, 3));
    fire(&mut system, prop(0, 3));
    assert_eq!(system.memory_subsystem.memory.load("A"), 1);
    assert_eq!(system.memory_subsystem.memory.load("B"), 0);
    fire(&mut system, prop(0, 2));
    assert_eq!(system.memory_subsystem.memory.load("B"), 2);
}

fn check_graph(system: &TSO) {
    let graph = &system.dependency_graph;
    let waits = |id: NodeId| graph.node(id).unwrap().depends_on.clone();
    let waited = |id: NodeId| graph.node(id).unwrap().depends_on_me.clone();
    fn reaches(
        waits: &dyn Fn(NodeId) -> Vec<NodeId>,
        from: NodeId,
        target: NodeId,
        seen: &mut Vec<NodeId>,
    ) -> bool {
        for next in waits(from) {
            if next == target {
                return true;
            }
            if !seen.contains(&next) {
                seen.push(next);
                if reaches(waits, next, target, seen) {
                    return true;
                }
            }
        }
        false
    }
    let mut leaves = Vec::new();
    for node in &graph.nodes {
        let a = node.instruction.key();
        assert_eq!(graph.nodes.iter().filter(|n| n.instruction.key() == a).count(), 1);
        for b in &node.depends_on {
            assert!(waited(*b).contains(&a));
            assert_eq!(node.depends_on.iter().filter(|x| *x == b).count(), 1);
        }
        for b in &node.depends_on_me {
            assert!(waits(*b).contains(&a));
            assert_eq!(node.depends_on_me.iter().filter(|x| *x == b).count(), 1);
        }
        assert!(!reaches(&waits, a, a, &mut Vec::new()));
        if node.depends_on.is_empty() {
            leaves.push(a);
        }
        if !a.propagate {
            assert!(!graph.contains(prop(a.thread_id, a.line_index)));
        }
    }
    assert_eq!(system.get_instructions_to_exec(), leaves);
}

#[test]
fn the_graph_keeps_its_invariants_in_every_state_of_every_schedule() {
    let texts = [
        "one = 1\nstore REL one #a\nfence REL_ACQ\nd := fai SEQ_CST #a one",
        "r := cas ACQ #a zero one\nstore RLX r #b\nload SEQ_CST #b s",
    ];
    for pso in [false, true] {
        fn go(texts: &[&str], pso: bool, path: &mut Vec<NodeId>, states: &mut usize) {
            let mut system = tso(texts, pso);
            for node in path.iter() {
                fire(&mut system, *node);
            }
            check_graph(&system);
            *states += 1;
            for leaf in system.get_instructions_to_exec() {
                path.push(leaf);
                go(texts, pso, path, states);
                path.pop();
            }
        }
        let mut states = 0;
        go(&texts, pso, &mut Vec::new(), &mut states);
        assert!(states > 100);
    }
}

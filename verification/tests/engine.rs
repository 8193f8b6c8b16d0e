use hsm::{Behavior, Fault, State, StateId, StateMachine, Transition, MAX_DEPTH};

type Machine = StateMachine<&'static dyn State<Log, Event>, Log, Event>;

struct Log {
    lines: Vec<String>,
}

#[derive(Clone, Copy, PartialEq)]
enum Kind {
    Internal,
    Local,
    External,
}

struct Event {
    handler: StateId,
    kind: Kind,
    target: StateId,
    act: bool,
}

struct Node {
    id: StateId,
    name: &'static str,
    parent: Option<StateId>,
}

struct Note;

impl Behavior<Log, Event> for Note {
    fn run(&self, context: &mut Log, _event: &Event) {
        context.lines.push(String::from("act"));
    }
}

static NOTE: Note = Note;

impl State<Log, Event> for Node {
    fn parent(&self) -> Option<StateId> {
        self.parent
    }

    fn entry(&self, context: &mut Log) {
        context.lines.push(format!("enter {}", self.name));
    }

    fn transition(&self, context: &mut Log, event: &Event) -> Transition<Log, Event> {
        context.lines.push(format!("ask {}", self.name));
        if event.handler != self.id {
            return Transition::Unknown;
        }
        let behavior: Option<&'static dyn Behavior<Log, Event>> =
            if event.act { Some(&NOTE) } else { None };
        match event.kind {
            Kind::Internal => Transition::Internal(behavior),
            Kind::Local => Transition::Local(event.target, behavior),
            Kind::External => Transition::External(event.target, behavior),
        }
    }

    fn exit(&self, context: &mut Log) {
        context.lines.push(format!("exit {}", self.name));
    }
}

const ROOT: StateId = 0;
const A: StateId = 1;
const A1: StateId = 2;
const A2: StateId = 3;
const B: StateId = 4;
const B1: StateId = 5;
const ISLAND: StateId = 6;
const D0: StateId = 7;
const D1: StateId = 8;
const D8: StateId = 15;
const NOBODY: StateId = 99;

static NODES: [Node; 16] = [
    Node { id: 0, name: "Root", parent: None },
    Node { id: 1, name: "A", parent: Some(ROOT) },
    Node { id: 2, name: "A1", parent: Some(A) },
    Node { id: 3, name: "A2", parent: Some(A) },
    Node { id: 4, name: "B", parent: Some(ROOT) },
    Node { id: 5, name: "B1", parent: Some(B) },
    Node { id: 6, name: "Island", parent: None },
    Node { id: 7, name: "D0", parent: Some(8) },
    Node { id: 8, name: "D1", parent: Some(9) },
    Node { id: 9, name: "D2", parent: Some(10) },
    Node { id: 10, name: "D3", parent: Some(11) },
    Node { id: 11, name: "D4", parent: Some(12) },
    Node { id: 12, name: "D5", parent: Some(13) },
    Node { id: 13, name: "D6", parent: Some(14) },
    Node { id: 14, name: "D7", parent: Some(15) },
    Node { id: 15, name: "D8", parent: None },
];

const STATES: &[&dyn State<Log, Event>] = &[
    &NODES[0], &NODES[1], &NODES[2], &NODES[3], &NODES[4], &NODES[5], &NODES[6], &NODES[7],
    &NODES[8], &NODES[9], &NODES[10], &NODES[11], &NODES[12], &NODES[13], &NODES[14], &NODES[15],
];

fn run(active: StateId, event: Event) -> (Result<(), Fault>, StateId, Vec<String>) {
    let mut machine = Machine::new(STATES, active);
    let mut log = Log { lines: Vec::new() };
    let result = machine.dispatch(&mut log, &event);
    (result, machine.active(), log.lines)
}

fn event(handler: StateId, kind: Kind, target: StateId) -> Event {
    Event { handler, kind, target, act: true }
}

#[test]
fn construction_runs_no_hook() {
    let machine = Machine::new(STATES, A1);
    assert_eq!(machine.active(), A1);
}

#[test]
fn first_answer_on_the_way_up_wins() {
    let (result, active, lines) = run(A1, event(A, Kind::Internal, A));
    assert_eq!(result, Ok(()));
    assert_eq!(active, A1);
    assert_eq!(lines, vec!["ask A1", "ask A", "act"]);
}

#[test]
fn internal_from_the_root_touches_no_state() {
    let (result, active, lines) = run(B1, event(ROOT, Kind::Internal, ROOT));
    assert_eq!(result, Ok(()));
    assert_eq!(active, B1);
    assert_eq!(lines, vec!["ask B1", "ask B", "ask Root", "act"]);
}

#[test]
fn internal_without_behavior_only_asks() {
    let (result, active, lines) =
        run(A1, Event { handler: A1, kind: Kind::Internal, target: A1, act: false });
    assert_eq!(result, Ok(()));
    assert_eq!(active, A1);
    assert_eq!(lines, vec!["ask A1"]);
}

#[test]
fn unhandled_event_is_a_fault_without_hooks() {
    let (result, active, lines) = run(A1, event(NOBODY, Kind::Local, B));
    assert_eq!(result, Err(Fault::Unhandled));
    assert_eq!(active, A1);
    assert_eq!(lines, vec!["ask A1", "ask A", "ask Root"]);
}

#[test]
fn local_across_branches_spares_the_root() {
    let (result, active, lines) = run(A1, event(A1, Kind::Local, B1));
    assert_eq!(result, Ok(()));
    assert_eq!(active, B1);
    assert_eq!(lines, vec!["ask A1", "exit A1", "exit A", "act", "enter B", "enter B1"]);
}

#[test]
fn external_across_branches_crosses_the_root() {
    let (result, active, lines) = run(A1, event(A1, Kind::External, B1));
    assert_eq!(result, Ok(()));
    assert_eq!(active, B1);
    assert_eq!(
        lines,
        vec![
            "ask A1", "exit A1", "exit A", "exit Root", "act", "enter Root", "enter B",
            "enter B1"
        ]
    );
}

#[test]
fn local_between_siblings_spares_the_parent() {
    let (result, active, lines) = run(A1, event(A1, Kind::Local, A2));
    assert_eq!(result, Ok(()));
    assert_eq!(active, A2);
    assert_eq!(lines, vec!["ask A1", "exit A1", "act", "enter A2"]);
}

#[test]
fn external_between_siblings_crosses_the_parent() {
    let (result, active, lines) = run(A1, event(A1, Kind::External, A2));
    assert_eq!(result, Ok(()));
    assert_eq!(active, A2);
    assert_eq!(lines, vec!["ask A1", "exit A1", "exit A", "act", "enter A", "enter A2"]);
}

#[test]
fn external_self_transition_leaves_and_enters_once() {
    let (result, active, lines) = run(A1, event(A1, Kind::External, A1));
    assert_eq!(result, Ok(()));
    assert_eq!(active, A1);
    assert_eq!(lines, vec!["ask A1", "exit A1", "act", "enter A1"]);
}

#[test]
fn local_self_transition_runs_the_behavior_only() {
    let (result, active, lines) = run(A1, event(A1, Kind::Local, A1));
    assert_eq!(result, Ok(()));
    assert_eq!(active, A1);
    assert_eq!(lines, vec!["ask A1", "act"]);
}

#[test]
fn local_to_an_ancestor_does_not_leave_it() {
    let (result, active, lines) = run(A1, event(A1, Kind::Local, A));
    assert_eq!(result, Ok(()));
    assert_eq!(active, A);
    assert_eq!(lines, vec!["ask A1", "exit A1", "act"]);
}

#[test]
fn external_to_an_ancestor_enters_it_again() {
    let (result, active, lines) = run(A1, event(A1, Kind::External, A));
    assert_eq!(result, Ok(()));
    assert_eq!(active, A);
    assert_eq!(lines, vec!["ask A1", "exit A1", "exit A", "act", "enter A"]);
}

#[test]
fn local_to_a_descendant_does_not_enter_the_source() {
    let (result, active, lines) = run(A, event(A, Kind::Local, A1));
    assert_eq!(result, Ok(()));
    assert_eq!(active, A1);
    assert_eq!(lines, vec!["ask A", "act", "enter A1"]);
}

#[test]
fn external_to_a_descendant_leaves_the_source_first() {
    let (result, active, lines) = run(A, event(A, Kind::External, A1));
    assert_eq!(result, Ok(()));
    assert_eq!(active, A1);
    assert_eq!(lines, vec!["ask A", "exit A", "act", "enter A", "enter A1"]);
}

#[test]
fn answer_of_an_ancestor_starts_at_the_active_state() {
    let (result, active, lines) = run(A1, event(A, Kind::Local, B));
    assert_eq!(result, Ok(()));
    assert_eq!(active, B);
    assert_eq!(lines, vec!["ask A1", "ask A", "exit A1", "exit A", "act", "enter B"]);
}

#[test]
fn chain_of_full_depth_is_crossed() {
    assert_eq!(MAX_DEPTH, 8);
    let (result, active, lines) = run(D1, event(D1, Kind::Local, D8));
    assert_eq!(result, Ok(()));
    assert_eq!(active, D8);
    assert_eq!(
        lines,
        vec![
            "ask D1", "exit D1", "exit D2", "exit D3", "exit D4", "exit D5", "exit D6",
            "exit D7", "act"
        ]
    );
}

#[test]
fn source_chain_beyond_the_depth_is_a_fault() {
    let (result, active, lines) = run(D0, event(D0, Kind::Local, D8));
    assert_eq!(result, Err(Fault::DepthExceeded));
    assert_eq!(active, D0);
    assert_eq!(lines, vec!["ask D0"]);
}

#[test]
fn target_chain_beyond_the_depth_is_a_fault() {
    let (result, active, lines) = run(D8, event(D8, Kind::External, D0));
    assert_eq!(result, Err(Fault::DepthExceeded));
    assert_eq!(active, D8);
    assert_eq!(lines, vec!["ask D8"]);
}

#[test]
fn internal_transition_works_at_any_depth() {
    let (result, active, lines) = run(D0, event(D8, Kind::Internal, D8));
    assert_eq!(result, Ok(()));
    assert_eq!(active, D0);
    assert_eq!(
        lines,
        vec![
            "ask D0", "ask D1", "ask D2", "ask D3", "ask D4", "ask D5", "ask D6", "ask D7",
            "ask D8", "act"
        ]
    );
}

#[test]
fn external_self_transition_beyond_the_depth_is_a_fault() {
    let (result, active, lines) = run(D0, event(D0, Kind::External, D0));
    assert_eq!(result, Err(Fault::DepthExceeded));
    assert_eq!(active, D0);
    assert_eq!(lines, vec!["ask D0"]);
}

#[test]
fn local_self_transition_beyond_the_depth_is_a_fault() {
    let (result, active, lines) = run(D0, event(D0, Kind::Local, D0));
    assert_eq!(result, Err(Fault::DepthExceeded));
    assert_eq!(active, D0);
    assert_eq!(lines, vec!["ask D0"]);
}

#[test]
fn self_transition_at_full_depth_takes_place() {
    let (result, active, lines) = run(D1, event(D1, Kind::External, D1));
    assert_eq!(result, Ok(()));
    assert_eq!(active, D1);
    assert_eq!(lines, vec!["ask D1", "exit D1", "act", "enter D1"]);
}

#[test]
fn self_transition_answered_above_a_deep_state_is_a_fault() {
    let (result, active, lines) = run(D0, event(D1, Kind::External, D0));
    assert_eq!(result, Err(Fault::DepthExceeded));
    assert_eq!(active, D0);
    assert_eq!(lines, vec!["ask D0", "ask D1"]);
}

#[test]
fn states_of_two_trees_have_no_common_ancestor() {
    let (result, active, lines) = run(A1, event(A1, Kind::Local, ISLAND));
    assert_eq!(result, Err(Fault::NoCommonAncestor));
    assert_eq!(active, A1);
    assert_eq!(lines, vec!["ask A1"]);
}

#[test]
fn traverse_carries_out_a_given_transition() {
    let mut machine = Machine::new(STATES, A2);
    let mut log = Log { lines: Vec::new() };
    let sent = event(A2, Kind::Local, B1);
    let result = machine.traverse(&mut log, &sent, Transition::External(B, Some(&NOTE)));
    assert_eq!(result, Ok(()));
    assert_eq!(machine.active(), B);
    assert_eq!(
        log.lines,
        vec!["exit A2", "exit A", "exit Root", "act", "enter Root", "enter B"]
    );
    let result = machine.traverse(&mut log, &sent, Transition::Unknown);
    assert_eq!(result, Err(Fault::Unhandled));
    assert_eq!(machine.active(), B);
    assert_eq!(log.lines.len(), 6);
}

#[test]
fn repeated_cycle_repeats_its_hooks() {
    let mut machine = Machine::new(STATES, A1);
    let mut log = Log { lines: Vec::new() };
    for round in 0..50 {
        assert_eq!(machine.dispatch(&mut log, &event(A1, Kind::Local, A2)), Ok(()));
        assert_eq!(machine.dispatch(&mut log, &event(A, Kind::External, B1)), Ok(()));
        assert_eq!(machine.dispatch(&mut log, &event(ROOT, Kind::Local, A1)), Ok(()));
        assert_eq!(machine.active(), A1);
        let count = |line: &str| log.lines.iter().filter(|l| l.as_str() == line).count();
        assert_eq!(count("exit A1"), round + 1);
        assert_eq!(count("enter A2"), round + 1);
        assert_eq!(count("exit A2"), round + 1);
        assert_eq!(count("exit A"), round + 1);
        assert_eq!(count("enter A"), round + 1);
        assert_eq!(count("enter B"), round + 1);
        assert_eq!(count("exit B"), round + 1);
        assert_eq!(count("exit Root"), round + 1);
        assert_eq!(count("enter Root"), round + 1);
        assert_eq!(count("enter B1"), round + 1);
        assert_eq!(count("exit B1"), round + 1);
        assert_eq!(count("enter A1"), round + 1);
        assert_eq!(count("act"), 3 * (round + 1));
    }
}

#[test]
fn each_fault_has_its_own_message() {
    assert_eq!(Fault::Unhandled.message(), "Unhandled event passed through root state!");
    assert_eq!(Fault::DepthExceeded.message(), "State tree depth limit exceeded!");
    assert_eq!(Fault::NoCommonAncestor.message(), "Common ancestor has not been found!");
}

use statig::hierarchy::Hierarchy;
use statig::machine::{MachineError, StateMachine};
use statig::response::Response;
use statig::superstate::Superstate;

const BLINKING: usize = 0;
const LED_ON: usize = 1;
const LED_OFF: usize = 2;
const NOT_BLINKING: usize = 3;

#[derive(Debug, Clone, Copy, PartialEq, Eq)]
enum Event {
    TimerElapsed,
    ButtonPressed,
    Other,
}

/// Records every call the engine makes; handlers follow a fixed table of
/// (level, event) -> response, answering `Super` otherwise.
struct Recorder {
    log: Vec<String>,
    rules: Vec<(usize, Event, Response)>,
}

impl Recorder {
    fn new(rules: Vec<(usize, Event, Response)>) -> Self {
        Recorder { log: Vec::new(), rules }
    }
}

impl Superstate for Recorder {
    type Event = Event;
    type Context = u32;

    fn call_handler(&mut self, level: usize, event: &Event, context: &mut u32) -> Response {
        *context += 1;
        let r = self
            .rules
            .iter()
            .find(|(l, e, _)| *l == level && e == event)
            .map(|(_, _, r)| *r)
            .unwrap_or(Response::Super);
        self.log.push(format!("handler {} {:?}", level, r));
        r
    }

    fn call_entry_action(&mut self, level: usize, _context: &mut u32) {
        self.log.push(format!("entry {}", level));
    }

    fn call_exit_action(&mut self, level: usize, _context: &mut u32) {
        self.log.push(format!("exit {}", level));
    }

    fn on_dispatch(&mut self, level: usize, _event: &Event) {
        self.log.push(format!("dispatch {}", level));
    }

    fn on_transition(&mut self, source: usize, target: usize) {
        self.log.push(format!("transition {} {}", source, target));
    }
}

fn blinky() -> StateMachine<Recorder> {
    let h = Hierarchy::new(vec![None, Some(BLINKING), Some(BLINKING), None]).unwrap();
    let rules = vec![
        (LED_ON, Event::TimerElapsed, Response::Transition(LED_OFF)),
        (LED_OFF, Event::TimerElapsed, Response::Transition(LED_ON)),
        (BLINKING, Event::ButtonPressed, Response::Transition(NOT_BLINKING)),
        (NOT_BLINKING, Event::ButtonPressed, Response::Transition(LED_ON)),
    ];
    StateMachine::new(h, Recorder::new(rules), LED_ON)
}

fn started_blinky(ctx: &mut u32) -> StateMachine<Recorder> {
    let mut sm = blinky();
    sm.init(ctx).unwrap();
    sm
}

fn log_since(sm: &StateMachine<Recorder>, from: usize) -> Vec<String> {
    sm.model().log[from..].to_vec()
}

#[test]
fn init_enters_initial_chain_outermost_first() {
    let mut ctx = 0u32;
    let mut sm = blinky();
    assert!(!sm.is_initialized());
    assert_eq!(sm.init(&mut ctx), Ok(()));
    assert!(sm.is_initialized());
    assert_eq!(sm.model().log, vec!["entry 0", "entry 1"]);
    assert_eq!(sm.state(), LED_ON);
}

#[test]
fn init_twice_is_refused() {
    let mut ctx = 0u32;
    let mut sm = started_blinky(&mut ctx);
    assert_eq!(sm.init(&mut ctx), Err(MachineError::AlreadyInitialized));
    assert_eq!(sm.model().log.len(), 2);
}

#[test]
fn handle_before_init_is_refused() {
    let mut ctx = 0u32;
    let mut sm = blinky();
    assert_eq!(sm.handle(&Event::TimerElapsed, &mut ctx), Err(MachineError::NotInitialized));
    assert!(sm.model().log.is_empty());
    assert_eq!(sm.state(), LED_ON);
    assert_eq!(ctx, 0);
}

#[test]
fn timer_moves_between_sibling_leaves() {
    let mut ctx = 0u32;
    let mut sm = started_blinky(&mut ctx);
    let from = sm.model().log.len();
    assert_eq!(sm.handle(&Event::TimerElapsed, &mut ctx), Ok(()));
    assert_eq!(sm.state(), LED_OFF);
    assert_eq!(
        log_since(&sm, from),
        vec!["dispatch 1", "handler 1 Transition(2)", "exit 1", "entry 2", "transition 1 2"]
    );
    assert_eq!(ctx, 1);
}

#[test]
fn button_bubbles_to_superstate_and_leaves_it() {
    let mut ctx = 0u32;
    let mut sm = started_blinky(&mut ctx);
    sm.handle(&Event::TimerElapsed, &mut ctx).unwrap();
    let from = sm.model().log.len();
    assert_eq!(sm.handle(&Event::ButtonPressed, &mut ctx), Ok(()));
    assert_eq!(sm.state(), NOT_BLINKING);
    assert_eq!(
        log_since(&sm, from),
        vec![
            "dispatch 2",
            "handler 2 Super",
            "dispatch 0",
            "handler 0 Transition(3)",
            "exit 2",
            "exit 0",
            "entry 3",
            "transition 2 3",
        ]
    );
}

#[test]
fn button_returns_into_superstate() {
    let mut ctx = 0u32;
    let mut sm = started_blinky(&mut ctx);
    sm.handle(&Event::TimerElapsed, &mut ctx).unwrap();
    sm.handle(&Event::ButtonPressed, &mut ctx).unwrap();
    let from = sm.model().log.len();
    assert_eq!(sm.handle(&Event::ButtonPressed, &mut ctx), Ok(()));
    assert_eq!(sm.state(), LED_ON);
    assert_eq!(
        log_since(&sm, from),
        vec![
            "dispatch 3",
            "handler 3 Transition(1)",
            "exit 3",
            "entry 0",
            "entry 1",
            "transition 3 1",
        ]
    );
}

#[test]
fn unhandled_event_climbs_to_the_top_and_stops() {
    let mut ctx = 0u32;
    let mut sm = started_blinky(&mut ctx);
    let from = sm.model().log.len();
    assert_eq!(sm.handle(&Event::Other, &mut ctx), Ok(()));
    assert_eq!(sm.state(), LED_ON);
    assert_eq!(
        log_since(&sm, from),
        vec!["dispatch 1", "handler 1 Super", "dispatch 0", "handler 0 Super"]
    );
}

#[test]
fn handled_event_stops_dispatch_without_transition() {
    let mut ctx = 0u32;
    let h = Hierarchy::new(vec![None, Some(0)]).unwrap();
    let rules = vec![(1, Event::Other, Response::Handled), (0, Event::Other, Response::Transition(0))];
    let mut sm = StateMachine::new(h, Recorder::new(rules), 1);
    sm.init(&mut ctx).unwrap();
    let from = sm.model().log.len();
    assert_eq!(sm.handle(&Event::Other, &mut ctx), Ok(()));
    assert_eq!(log_since(&sm, from), vec!["dispatch 1", "handler 1 Handled"]);
    assert_eq!(sm.state(), 1);
}

#[test]
fn unknown_target_is_refused() {
    let mut ctx = 0u32;
    let h = Hierarchy::new(vec![None, Some(0)]).unwrap();
    let rules = vec![(1, Event::Other, Response::Transition(7))];
    let mut sm = StateMachine::new(h, Recorder::new(rules), 1);
    sm.init(&mut ctx).unwrap();
    let from = sm.model().log.len();
    assert_eq!(sm.handle(&Event::Other, &mut ctx), Err(MachineError::UnknownState(7)));
    assert_eq!(log_since(&sm, from), vec!["dispatch 1", "handler 1 Transition(7)"]);
    assert_eq!(sm.state(), 1);
}

#[test]
fn self_transition_runs_only_the_hook() {
    let mut ctx = 0u32;
    let mut sm = started_blinky(&mut ctx);
    let from = sm.model().log.len();
    sm.transition(LED_ON, &mut ctx);
    assert_eq!(sm.state(), LED_ON);
    assert_eq!(log_since(&sm, from), vec!["transition 1 1"]);
}

/// 0 <- 1 <- 2 <- 3 is a chain of depth 4; 4 sits directly under 0.
fn deep() -> Hierarchy {
    Hierarchy::new(vec![None, Some(0), Some(1), Some(2), Some(0)]).unwrap()
}

#[test]
fn deep_leaf_to_shallow_leaf_climbs_the_deeper_chain_first() {
    let mut ctx = 0u32;
    let rules = vec![(3, Event::Other, Response::Transition(4))];
    let mut sm = StateMachine::new(deep(), Recorder::new(rules), 3);
    sm.init(&mut ctx).unwrap();
    assert_eq!(sm.model().log, vec!["entry 0", "entry 1", "entry 2", "entry 3"]);
    let from = sm.model().log.len();
    assert_eq!(sm.handle(&Event::Other, &mut ctx), Ok(()));
    assert_eq!(sm.state(), 4);
    assert_eq!(
        log_since(&sm, from),
        vec!["dispatch 3", "handler 3 Transition(4)", "exit 3", "exit 2", "exit 1", "entry 4", "transition 3 4"]
    );
}

#[test]
fn shallow_leaf_to_deep_leaf_enters_outermost_first() {
    let mut ctx = 0u32;
    let mut sm = StateMachine::new(deep(), Recorder::new(vec![]), 4);
    sm.init(&mut ctx).unwrap();
    let from = sm.model().log.len();
    sm.transition(3, &mut ctx);
    assert_eq!(
        log_since(&sm, from),
        vec!["exit 4", "entry 1", "entry 2", "entry 3", "transition 4 3"]
    );
}

#[test]
fn exit_and_enter_run_the_given_number_of_levels() {
    let mut ctx = 0u32;
    let mut sm = StateMachine::new(deep(), Recorder::new(vec![]), 3);
    sm.exit(3, 2, &mut ctx);
    sm.enter(3, 3, &mut ctx);
    sm.exit(2, 0, &mut ctx);
    sm.enter(2, 0, &mut ctx);
    assert_eq!(sm.model().log, vec!["exit 3", "exit 2", "entry 1", "entry 2", "entry 3"]);
}

#[test]
fn dispatch_returns_the_first_answer_that_is_not_super() {
    let mut ctx = 0u32;
    let rules = vec![(1, Event::Other, Response::Handled), (2, Event::Other, Response::Super)];
    let mut sm = StateMachine::new(deep(), Recorder::new(rules), 3);
    assert_eq!(sm.dispatch(3, &Event::Other, &mut ctx), Response::Handled);
    assert_eq!(
        sm.model().log,
        vec!["dispatch 3", "handler 3 Super", "dispatch 2", "handler 2 Super", "dispatch 1", "handler 1 Handled"]
    );
    assert_eq!(ctx, 3);
}

#[test]
fn depths_count_levels_up_to_the_root() {
    let h = deep();
    assert_eq!(h.len(), 5);
    assert_eq!(h.depth_of(0), 1);
    assert_eq!(h.depth_of(3), 4);
    assert_eq!(h.depth_of(4), 2);
    assert_eq!(h.superstate(3), Some(2));
    assert_eq!(h.superstate(0), None);
}

#[test]
fn common_ancestor_depth_values() {
    let h = deep();
    assert_eq!(h.common_ancestor_depth(3, 4), 1);
    assert_eq!(h.common_ancestor_depth(4, 3), 1);
    assert_eq!(h.common_ancestor_depth(3, 2), 3);
    assert_eq!(h.common_ancestor_depth(3, 3), 4);
    assert_eq!(h.common_ancestor_depth(4, 4), 2);
    let b = Hierarchy::new(vec![None, Some(0), Some(0), None]).unwrap();
    assert_eq!(b.common_ancestor_depth(1, 2), 1);
    assert_eq!(b.common_ancestor_depth(2, 3), 0);
    assert_eq!(b.common_ancestor_depth(3, 2), 0);
}

#[test]
fn common_ancestor_depth_is_symmetric_on_every_pair() {
    let h = deep();
    for a in 0..5 {
        for b in 0..5 {
            assert_eq!(h.common_ancestor_depth(a, b), h.common_ancestor_depth(b, a));
        }
        assert_eq!(h.common_ancestor_depth(a, a), h.depth_of(a));
    }
}

#[test]
fn hierarchy_rejects_parent_not_below_child() {
    assert!(Hierarchy::new(vec![Some(0)]).is_none());
    assert!(Hierarchy::new(vec![None, Some(2), None]).is_none());
    assert!(Hierarchy::new(vec![]).is_some());
}

#[test]
fn same_state_compares_kinds() {
    assert!(Hierarchy::same_state(2, 2));
    assert!(!Hierarchy::same_state(1, 2));
}

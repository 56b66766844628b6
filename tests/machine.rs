use smlang_macros::codegen::generate_code;
use smlang_macros::model::{
    get_lifetimes, GenericArg, InputState, StateMachine, StateTransition, TypeRef, TypeShape,
};
use smlang_macros::parser::{BuildError, ParsedStateMachine};
use vstd::seq::Seq;
use smlang_macros::runtime::{Call, Machine, MachineContext, RuntimeError, Tagged};
use smlang_macros::validation::validate;

fn plain(text: &str) -> TypeRef {
    TypeRef { text: text.to_string(), shape: TypeShape::Path { segments: vec![vec![]] } }
}

fn s(x: &str) -> String {
    x.to_string()
}

struct T {
    start: bool,
    wildcard: bool,
    from: &'static str,
    from_ty: Option<TypeRef>,
    event: &'static str,
    event_ty: Option<TypeRef>,
    guard: Option<&'static str>,
    action: Option<&'static str>,
    to: &'static str,
    to_ty: Option<TypeRef>,
}

fn t(from: &'static str, event: &'static str, to: &'static str) -> T {
    T {
        start: false,
        wildcard: false,
        from,
        from_ty: None,
        event,
        event_ty: None,
        guard: None,
        action: None,
        to,
        to_ty: None,
    }
}

impl T {
    fn start(mut self) -> T {
        self.start = true;
        self
    }
    fn wildcard(mut self) -> T {
        self.wildcard = true;
        self
    }
    fn guard(mut self, g: &'static str) -> T {
        self.guard = Some(g);
        self
    }
    fn action(mut self, a: &'static str) -> T {
        self.action = Some(a);
        self
    }
    fn from_ty(mut self, ty: TypeRef) -> T {
        self.from_ty = Some(ty);
        self
    }
    fn to_ty(mut self, ty: TypeRef) -> T {
        self.to_ty = Some(ty);
        self
    }
    fn event_ty(mut self, ty: TypeRef) -> T {
        self.event_ty = Some(ty);
        self
    }
    fn build(self) -> StateTransition {
        StateTransition {
            in_state: InputState {
                name: s(self.from),
                start: self.start,
                wildcard: self.wildcard,
                data_type: self.from_ty,
            },
            event: s(self.event),
            event_data_type: self.event_ty,
            guard: self.guard.map(s),
            action: self.action.map(s),
            out_state: s(self.to),
            out_state_data_type: self.to_ty,
        }
    }
}

fn spec(ts: Vec<T>) -> StateMachine {
    StateMachine {
        name: None,
        temporary_context_type: None,
        guard_error: None,
        transitions: ts.into_iter().map(|t| t.build()).collect(),
    }
}

fn build(ts: Vec<T>) -> Result<ParsedStateMachine, BuildError> {
    ParsedStateMachine::new(spec(ts))
}

/// Records every call; guards named `fail` refuse, others pass; every
/// action makes the payload 42.
#[derive(Default)]
struct Log {
    calls: Vec<String>,
    seen_state_data: Vec<Option<u32>>,
}

impl MachineContext for Log {
    type StateData = u32;
    type EventData = u32;
    type GuardError = &'static str;
    type TemporaryContext = u32;

    fn calls(&self) -> Seq<Call<u32, u32, &'static str>> {
        Seq::empty()
    }

    fn guard(
        &mut self,
        temporary_context: &mut u32,
        guard: &String,
        state_data: Option<&u32>,
        _event_data: Option<&u32>,
    ) -> Result<(), &'static str> {
        *temporary_context += 1;
        self.calls.push(format!("guard {}", guard));
        self.seen_state_data.push(state_data.copied());
        if guard == "fail" {
            Err("refused")
        } else {
            Ok(())
        }
    }

    fn action(
        &mut self,
        temporary_context: &mut u32,
        action: &String,
        _state_data: Option<&u32>,
        _event_data: Option<&u32>,
    ) -> Option<u32> {
        *temporary_context += 10;
        self.calls.push(format!("action {}", action));
        Some(42)
    }

    fn on_entry(&mut self, state: &String) {
        self.calls.push(format!("entry {}", state));
    }

    fn on_exit(&mut self, state: &String) {
        self.calls.push(format!("exit {}", state));
    }
}

fn event(tag: &str) -> Tagged<u32> {
    Tagged { tag: s(tag), data: None }
}

fn machine(ts: Vec<T>) -> Machine<Log> {
    let model = build(ts).ok().expect("the specification is accepted");
    Machine::new(model, Log::default(), None).expect("the start state has no payload")
}

#[test]
fn one_start_state_is_accepted() {
    let m = build(vec![t("S0", "E", "S1").start(), t("S1", "E", "S0")]).ok().unwrap();
    assert_eq!(m.starting_state, "S0");
    assert_eq!(m.states, vec![s("S0"), s("S1")]);
    assert_eq!(m.events, vec![s("E")]);
    assert_eq!(m.transitions.len(), 2);
}

#[test]
fn no_start_state_is_rejected() {
    let r = build(vec![t("S0", "E", "S1"), t("S1", "E", "S0")]);
    assert!(matches!(r, Err(BuildError::MissingStartState)));
}

#[test]
fn two_start_states_are_rejected() {
    let r = build(vec![t("S0", "E", "S1").start(), t("S1", "E", "S0").start()]);
    assert!(matches!(r, Err(BuildError::MultipleStartStates)));
}

#[test]
fn repeated_state_event_pair_is_rejected() {
    let r = build(vec![t("S0", "E", "S1").start(), t("S0", "E", "S0")]);
    match r {
        Err(BuildError::DuplicateTransition { state, event }) => {
            assert_eq!(state, "S0");
            assert_eq!(event, "E");
        }
        _ => panic!("expected a duplicate transition"),
    }
}

#[test]
fn wildcard_clashing_with_explicit_transition_is_rejected() {
    let r = build(vec![
        t("S0", "Go", "S1").start(),
        t("S1", "Reset", "S0"),
        t("_", "Reset", "S0").wildcard(),
    ]);
    assert!(matches!(r, Err(BuildError::DuplicateTransition { .. })));
}

#[test]
fn data_state_without_action_is_rejected() {
    let r = build(vec![t("S0", "E", "S1").start().to_ty(plain("u32"))]);
    match r {
        Err(BuildError::MissingActionForDataState { state }) => assert_eq!(state, "S1"),
        _ => panic!("expected a missing action"),
    }
    assert!(build(vec![t("S0", "E", "S1").start().action("make").to_ty(plain("u32"))]).is_ok());
}

#[test]
fn differing_payload_types_are_rejected() {
    let r = build(vec![
        t("S0", "E", "S1").start().action("a").to_ty(plain("u32")),
        t("S1", "F", "S0").from_ty(plain("u64")),
    ]);
    assert!(matches!(r, Err(BuildError::TypeMismatch { .. })));
    let r = build(vec![
        t("S0", "E", "S1").start().event_ty(plain("u32")),
        t("S1", "E", "S0"),
    ]);
    match r {
        Err(BuildError::TypeMismatch { name }) => assert_eq!(name, "E"),
        _ => panic!("expected a type mismatch"),
    }
}

#[test]
fn payload_declared_after_bare_mentions_is_accepted() {
    let m = build(vec![
        t("D0", "ToD1", "D1").start().action("to_d2"),
        t("D1", "ToD2", "D2").from_ty(plain("Option<Events>")),
    ])
    .ok()
    .unwrap();
    assert_eq!(m.state_data.entries.len(), 1);
    assert_eq!(m.state_data.entries[0].name, "D1");
    assert_eq!(m.state_data.entries[0].text, "Option<Events>");
}

#[test]
fn reference_without_lifetime_is_rejected() {
    let r = build(vec![t("S0", "E", "S1").start().event_ty(TypeRef {
        text: s("&u32"),
        shape: TypeShape::Reference { lifetime: None },
    })]);
    assert!(matches!(r, Err(BuildError::UndefinedLifetime { .. })));
}

#[test]
fn lifetimes_are_collected_once() {
    let wrapped = TypeRef {
        text: s("Wrapper<'a, u8, 'b>"),
        shape: TypeShape::Path {
            segments: vec![vec![
                GenericArg::Lifetime(s("a")),
                GenericArg::Other,
                GenericArg::Lifetime(s("b")),
            ]],
        },
    };
    assert_eq!(get_lifetimes(&wrapped).ok().unwrap(), vec![s("a"), s("b")]);
    let by_ref = TypeRef { text: s("&'a u8"), shape: TypeShape::Reference { lifetime: Some(s("a")) } };
    let m = build(vec![
        t("S0", "E", "S1").start().event_ty(wrapped),
        t("S1", "F", "S0").event_ty(by_ref),
    ])
    .ok()
    .unwrap();
    assert_eq!(m.event_data.all_lifetimes, vec![s("a"), s("b")]);
    assert!(m.event_data.entries[1].is_reference);
}

#[test]
fn wildcard_expands_over_every_state() {
    let m = build(vec![
        t("S0", "Go", "S1").start(),
        t("S1", "Go", "S2"),
        t("_", "Reset", "S0").wildcard(),
    ])
    .ok()
    .unwrap();
    let resets: Vec<&String> =
        m.transitions.iter().filter(|e| e.event == "Reset").map(|e| &e.in_state).collect();
    assert_eq!(resets, vec![&s("S0"), &s("S1"), &s("S2")]);
}

#[test]
fn equality_ignores_payload() {
    let a: Tagged<u32> = Tagged { tag: s("S1"), data: Some(1) };
    let b: Tagged<u32> = Tagged { tag: s("S1"), data: Some(2) };
    let c: Tagged<u32> = Tagged { tag: s("S2"), data: Some(1) };
    assert!(a == b);
    assert!(a != c);
}

#[test]
fn undefined_event_is_invalid() {
    let mut m = machine(vec![t("S0", "E1", "S1").start()]);
    let r = m.process_event(&mut 0, event("E2"));
    assert!(matches!(r, Err(RuntimeError::InvalidEvent)));
    assert_eq!(m.state().tag, "S0");
    assert!(m.context().calls.is_empty());
}

#[test]
fn failing_guard_skips_action_and_hooks() {
    let mut m = machine(vec![t("S0", "E", "S1").start().guard("fail").action("act")]);
    let r = m.process_event(&mut 0, event("E"));
    assert!(matches!(r, Err(RuntimeError::GuardFailed("refused"))));
    assert_eq!(m.state().tag, "S0");
    assert_eq!(m.context().calls, vec![s("guard fail")]);
}

#[test]
fn exit_hook_runs_before_entry_hook() {
    let mut m = machine(vec![t("S0", "E", "S1").start().guard("ok").action("act"), t("S1", "E", "S1")]);
    assert!(m.process_event(&mut 0, event("E")).is_ok());
    assert!(m.process_event(&mut 0, event("E")).is_ok());
    assert_eq!(
        m.context().calls,
        vec![
            s("guard ok"),
            s("action act"),
            s("exit S0"),
            s("entry S1"),
            s("exit S1"),
            s("entry S1")
        ]
    );
}

#[test]
fn action_payload_reaches_the_next_guard() {
    let mut m = machine(vec![
        t("S0", "E1", "S1").start().action("produce").to_ty(plain("u32")),
        t("S1", "E2", "S2").from_ty(plain("u32")).guard("pass"),
    ]);
    let entered = m.process_event(&mut 0, event("E1")).ok().unwrap();
    assert_eq!(entered.tag, "S1");
    assert_eq!(entered.data, Some(42));
    assert!(m.process_event(&mut 0, event("E2")).is_ok());
    assert_eq!(m.context().seen_state_data, vec![Some(42)]);
    assert_eq!(m.state().tag, "S2");
    assert_eq!(m.state().data, None);
}

#[test]
fn always_failing_guard_keeps_the_state() {
    let mut m = machine(vec![t("S0", "Go", "S1").start(), t("S1", "E", "S2").guard("fail")]);
    assert!(m.process_event(&mut 0, event("Go")).is_ok());
    for _ in 0..5 {
        assert!(matches!(m.process_event(&mut 0, event("E")), Err(RuntimeError::GuardFailed(_))));
        assert_eq!(m.state().tag, "S1");
    }
}

#[test]
fn reset_from_any_state() {
    let ts = || {
        vec![
            t("S0", "A", "S1").start(),
            t("S1", "B", "S2"),
            t("_", "Reset", "S0").wildcard(),
        ]
    };
    for (path, from) in [(vec![], "S0"), (vec!["A"], "S1"), (vec!["A", "B"], "S2")] {
        let mut m = machine(ts());
        for e in path {
            assert!(m.process_event(&mut 0, event(e)).is_ok());
        }
        assert_eq!(m.state().tag, from);
        let before = m.context().calls.len();
        assert!(m.process_event(&mut 0, event("Reset")).is_ok());
        assert_eq!(m.state().tag, "S0");
        assert_eq!(m.context().calls[before..].to_vec(), vec![format!("exit {}", from), s("entry S0")]);
    }
}

#[test]
fn generation_is_sorted_and_repeatable() {
    let ts = || {
        vec![
            t("Idle", "Start", "Running").start().guard("ready").action("launch"),
            t("Running", "Stop", "Idle").action("launch"),
            t("Running", "Pause", "Paused").guard("ready"),
            t("Paused", "Start", "Running").action("launch"),
        ]
    };
    let m1 = build(ts()).ok().unwrap();
    let m2 = build(ts()).ok().unwrap();
    let p1 = generate_code(&m1);
    let p2 = generate_code(&m2);
    let names = |v: &Vec<smlang_macros::codegen::Variant>| -> Vec<String> {
        v.iter().map(|x| x.name.clone()).collect()
    };
    assert_eq!(names(&p1.states), vec![s("Idle"), s("Paused"), s("Running")]);
    assert_eq!(names(&p1.events), vec![s("Pause"), s("Start"), s("Stop")]);
    assert_eq!(names(&p1.states), names(&p2.states));
    let arms = |p: &smlang_macros::codegen::CodePlan| -> Vec<(String, String)> {
        p.arms.iter().map(|a| (a.mapping.in_state.clone(), a.mapping.event.clone())).collect()
    };
    assert_eq!(
        arms(&p1),
        vec![
            (s("Idle"), s("Start")),
            (s("Paused"), s("Start")),
            (s("Running"), s("Pause")),
            (s("Running"), s("Stop"))
        ]
    );
    assert_eq!(arms(&p1), arms(&p2));
    assert_eq!(p1.guards, vec![0]);
    assert_eq!(p1.actions, vec![0]);
    assert_eq!(p1.hooks[0].snake, "idle");
    assert_eq!(p1.starting_state, "Idle");
}

#[test]
fn hook_names_are_snake_case() {
    let m = build(vec![t("WaitingForInput", "E", "DoneState").start()]).ok().unwrap();
    let p = generate_code(&m);
    let snakes: Vec<String> = p.hooks.iter().map(|h| h.snake.clone()).collect();
    assert_eq!(snakes, vec![s("done_state"), s("waiting_for_input")]);
}

#[test]
fn payload_types_are_laid_out() {
    let m = build(vec![
        t("S0", "E", "S1").start().action("make").to_ty(plain("u32")).event_ty(plain("u8")),
    ])
    .ok()
    .unwrap();
    let p = generate_code(&m);
    assert_eq!(p.states[1].data, Some(s("u32")));
    assert_eq!(p.events[0].data, Some(s("u8")));
    assert!(p.arms[0].event_data && p.arms[0].out_data && !p.arms[0].in_data);
    assert_eq!(p.starting_data, None);
    assert!(!p.arms[0].event_is_reference);
    assert!(p.arms[0].event_lifetimes.is_empty());
}

#[test]
fn arms_are_grouped_by_state_with_their_lifetimes() {
    let by_ref = TypeRef { text: s("&'a u8"), shape: TypeShape::Reference { lifetime: Some(s("a")) } };
    let m = build(vec![
        t("A", "X", "B").start().event_ty(by_ref),
        t("A", "Y", "B"),
        t("B", "Z", "A"),
    ])
    .ok()
    .unwrap();
    let p = generate_code(&m);
    assert_eq!(p.rows, vec![0, 2]);
    assert!(p.arms[0].event_is_reference);
    assert_eq!(p.arms[0].event_lifetimes, vec![s("a")]);
    assert!(p.arms[1].event_lifetimes.is_empty());
}

#[test]
fn unreachable_states_are_all_reported() {
    let m = build(vec![t("S0", "E", "S1").start(), t("S2", "E", "S0"), t("S3", "E", "S0")])
        .ok()
        .unwrap();
    assert_eq!(validate(&m), Err(vec![s("S2"), s("S3")]));
    let ok = build(vec![t("S0", "E", "S1").start(), t("S1", "E", "S0")]).ok().unwrap();
    assert_eq!(validate(&ok), Ok(()));
}

#[test]
fn payload_state_never_entered_by_an_action_is_rejected() {
    let r = build(vec![t("S0", "E", "S0").start(), t("X", "F", "S0").from_ty(plain("u8"))]);
    match r {
        Err(BuildError::MissingActionForDataState { state }) => assert_eq!(state, "X"),
        _ => panic!("expected a missing action"),
    }
}

#[test]
fn start_payload_is_given_exactly_when_declared() {
    let with_data = || {
        build(vec![t("S0", "E", "S0").start().from_ty(plain("u32")).action("keep").to_ty(plain("u32"))])
            .ok()
            .unwrap()
    };
    assert!(Machine::new(with_data(), Log::default(), None).is_none());
    let m = Machine::new(with_data(), Log::default(), Some(7)).unwrap();
    assert_eq!(m.state().data, Some(7));
    let plain_start = build(vec![t("S0", "E", "S0").start()]).ok().unwrap();
    assert!(Machine::new(plain_start, Log::default(), Some(7)).is_none());
}

#[test]
fn temporary_context_reaches_guard_and_action() {
    let mut m = machine(vec![t("S0", "E", "S1").start().guard("ok").action("act")]);
    let mut tc: u32 = 0;
    assert!(m.process_event(&mut tc, event("E")).is_ok());
    assert_eq!(tc, 11);
    m.context_mut().calls.clear();
    assert!(m.context().calls.is_empty());
    assert_eq!(m.state().tag, "S1");
}

use smlang_macros::grammar::{
    parse_state_machine, parse_transitions, Delimiter, Expected, Token,
};
use smlang_macros::model::{get_lifetimes, GenericArg, TypeShape};
use smlang_macros::parser::ParsedStateMachine;
use vstd::seq::Seq;
use smlang_macros::runtime::{Call, Machine, MachineContext, Tagged};

fn id(s: &str) -> Token {
    Token::Ident(s.to_string())
}

fn p(c: char) -> Token {
    Token::Punct { ch: c, joint: false }
}

fn joint(c: char) -> Token {
    Token::Punct { ch: c, joint: true }
}

fn group(delimiter: Delimiter, text: &str, tokens: Vec<Token>) -> Token {
    Token::Group { delimiter, text: text.to_string(), tokens, shape: TypeShape::Other }
}

fn typed_group(text: &str, tokens: Vec<Token>, shape: TypeShape) -> Token {
    Token::Group { delimiter: Delimiter::Parenthesis, text: text.to_string(), tokens, shape }
}

fn paren_ty(name: &str) -> Token {
    group(Delimiter::Parenthesis, name, vec![id(name)])
}

fn spec(transitions: Vec<Token>) -> Vec<Token> {
    vec![id("transitions"), p(':'), group(Delimiter::Brace, "", transitions)]
}

#[test]
fn transitions_are_parsed() {
    let toks = vec![
        p('*'), id("S0"), p('+'), id("E1"), p('/'), id("act"), p('='), id("S1"), paren_ty("u32"),
        p(','),
        id("S1"), paren_ty("u32"), p('+'), id("E2"), group(Delimiter::Bracket, "pass", vec![id("pass")]),
        p('='), id("S2"), p(','),
    ];
    let ts = parse_transitions(&toks).ok().unwrap();
    assert_eq!(ts.len(), 2);
    assert!(ts[0].in_state.start);
    assert_eq!(ts[0].in_state.name, "S0");
    assert_eq!(ts[0].action, Some("act".to_string()));
    assert_eq!(ts[0].out_state_data_type.as_ref().unwrap().text, "u32");
    assert!(!ts[1].in_state.start);
    assert_eq!(ts[1].guard, Some("pass".to_string()));
    assert_eq!(ts[1].in_state.data_type.as_ref().unwrap().text, "u32");
    assert_eq!(ts[1].out_state, "S2");
}

#[test]
fn wildcard_is_recognised() {
    let toks = vec![id("_"), p('+'), id("Reset"), p('='), id("S0")];
    let ts = parse_transitions(&toks).ok().unwrap();
    assert!(ts[0].in_state.wildcard);
    let starred = vec![p('*'), id("_"), p('+'), id("Reset"), p('='), id("S0")];
    assert!(parse_transitions(&starred).is_err());
}

#[test]
fn missing_plus_is_reported() {
    let toks = vec![id("S0"), id("E"), p('='), id("S1")];
    let e = parse_transitions(&toks).err().unwrap();
    assert_eq!(e.position, 1);
    assert!(matches!(e.expected, Expected::Punct('+')));
}

#[test]
fn trailing_tokens_are_reported() {
    let toks = vec![id("S0"), p('+'), id("E"), p('='), id("S1"), id("S2")];
    let e = parse_transitions(&toks).err().unwrap();
    assert_eq!(e.position, 5);
    assert!(matches!(e.expected, Expected::End));
}

#[test]
fn headers_are_parsed() {
    let mut toks = vec![
        id("name"), p(':'), id("Looping"), p(','),
        id("temporary_context"), p(':'), p('&'), id("mut"), id("u32"), p(','),
        id("guard_error"), p(':'), id("Result"), p('<'), id("u8"), p(','), id("u16"), p('>'), p(','),
    ];
    toks.extend(spec(vec![p('*'), id("S0"), p('+'), id("E"), p('='), id("S1")]));
    let sm = parse_state_machine(&toks).ok().unwrap();
    assert_eq!(sm.name, Some("Looping".to_string()));
    let ctx = sm.temporary_context_type.unwrap();
    assert_eq!(ctx.text, "& mut u32");
    assert_eq!(sm.guard_error.unwrap().text, "Result < u8 , u16 >");
    assert_eq!(sm.transitions.len(), 1);
}

#[test]
fn group_text_keeps_delimiters_in_header_types() {
    let mut toks = vec![
        id("guard_error"), p(':'), group(Delimiter::Parenthesis, "u8 , u8", vec![id("u8"), p(','), id("u8")]),
        p(','),
    ];
    toks.extend(spec(vec![p('*'), id("S0"), p('+'), id("E"), p('='), id("S1")]));
    let sm = parse_state_machine(&toks).ok().unwrap();
    assert_eq!(sm.guard_error.unwrap().text, "(u8 , u8)");
}

#[test]
fn unknown_header_is_reported() {
    let toks = vec![id("states"), p(':'), id("X")];
    let e = parse_state_machine(&toks).err().unwrap();
    assert_eq!(e.position, 0);
    assert!(matches!(e.expected, Expected::Header));
}

#[test]
fn missing_transitions_are_reported() {
    let toks = vec![id("name"), p(':'), id("X")];
    let e = parse_state_machine(&toks).err().unwrap();
    assert_eq!(e.position, 3);
    assert!(matches!(e.expected, Expected::Transitions));
}

#[test]
fn payload_lifetimes_come_from_group_outline() {
    let inner = vec![id("Wrapper"), p('<'), joint('\''), id("a"), p(','), id("u8"), p('>')];
    let toks = spec(vec![
        p('*'), id("S0"), p('+'), id("E"),
        typed_group(
            "Wrapper < 'a , u8 >",
            inner,
            TypeShape::Path {
                segments: vec![vec![GenericArg::Lifetime("a".to_string()), GenericArg::Other]],
            },
        ),
        p('='), id("S1"),
    ]);
    let sm = parse_state_machine(&toks).ok().unwrap();
    let t = sm.transitions[0].event_data_type.as_ref().unwrap();
    assert_eq!(get_lifetimes(t).ok().unwrap(), vec!["a".to_string()]);
    let m = ParsedStateMachine::new(sm).ok().unwrap();
    assert_eq!(m.event_data.all_lifetimes, vec!["a".to_string()]);
}

#[test]
fn reference_payload_lifetime_comes_from_group_outline() {
    let inner = vec![p('&'), joint('\''), id("b"), id("str")];
    let toks = spec(vec![
        p('*'), id("S0"), p('+'), id("E"),
        typed_group("& 'b str", inner, TypeShape::Reference { lifetime: Some("b".to_string()) }),
        p('='), id("S1"),
    ]);
    let sm = parse_state_machine(&toks).ok().unwrap();
    let t = sm.transitions[0].event_data_type.as_ref().unwrap();
    assert!(matches!(&t.shape, TypeShape::Reference { lifetime: Some(l) } if l == "b"));
}

#[test]
fn guard_must_be_one_name() {
    let toks = vec![
        id("S0"), p('+'), id("E"),
        group(Delimiter::Bracket, "a b", vec![id("a"), id("b")]),
        p('='), id("S1"),
    ];
    let e = parse_transitions(&toks).err().unwrap();
    assert_eq!(e.position, 3);
    assert!(matches!(e.expected, Expected::Guard));
}

struct Quiet;
impl MachineContext for Quiet {
    type StateData = ();
    type EventData = ();
    type GuardError = ();
    type TemporaryContext = ();

    fn calls(&self) -> Seq<Call<(), (), ()>> {
        Seq::empty()
    }
    fn guard(&mut self, _: &mut (), _: &String, _: Option<&()>, _: Option<&()>) -> Result<(), ()> {
        Err(())
    }
    fn action(&mut self, _: &mut (), _: &String, _: Option<&()>, _: Option<&()>) -> Option<()> {
        None
    }
    fn on_entry(&mut self, _: &String) {}
    fn on_exit(&mut self, _: &String) {}
}

#[test]
fn parsed_specification_runs() {
    let toks = spec(vec![
        p('*'), id("State1"), p('+'), id("Event1"), p('='), id("State2"), p(','),
        id("State2"), p('+'), id("Event2"), group(Delimiter::Bracket, "guard_fail", vec![id("guard_fail")]),
        p('='), id("State3"), p(','),
    ]);
    let model = ParsedStateMachine::new(parse_state_machine(&toks).ok().unwrap()).ok().unwrap();
    let mut m = Machine::new(model, Quiet, None).unwrap();
    let go = |tag: &str| Tagged::<()> { tag: tag.to_string(), data: None };
    assert!(m.process_event(&mut (), go("Event1")).is_ok());
    assert!(m.process_event(&mut (), go("Event2")).is_err());
    assert_eq!(m.state().tag, "State2");
}

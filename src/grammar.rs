//! The grammar of a specification, over a token tree of the library's own:
//!
//! ```text
//! spec       := (header ',')* 'transitions' ':' '{' transition (',' transition)* [','] '}' [',']
//! header     := 'name' ':' ident | 'temporary_context' ':' type | 'guard_error' ':' type
//! transition := ['*'] (ident | '_') ['(' type ')'] '+' ident ['(' type ')']
//!               ['[' guard ']'] ['/' action] '=' ident ['(' type ')']
//! ```

use vstd::prelude::*;
use vstd::string::StringExecFns;
use crate::model::{
    strings_view, InputState, StateMachine, StateTransition, TypeRef, TypeShape,
};

verus! {

pub enum Delimiter {
    Parenthesis,
    Brace,
    Bracket,
    NoDelimiter,
}

/// A token tree. A group carries its source text besides its tokens, and
/// the outline of the type that its tokens write, where they write one.
pub enum Token {
    Ident(String),
    /// A punctuation character; `joint` when the next one follows it directly.
    Punct { ch: char, joint: bool },
    Literal(String),
    Group { delimiter: Delimiter, text: String, tokens: Vec<Token>, shape: TypeShape },
}

/// What the grammar sees of a token.
pub enum Piece {
    Ident(Seq<char>),
    Punct(char),
    Literal(Seq<char>),
    Group(Delimiter, Seq<char>),
    /// A bracketed group that is not one name alone.
    Unnamed(Seq<char>),
}

/// The group holds one name, which is also its text.
pub open spec fn names_itself(tokens: Seq<Token>, text: Seq<char>) -> bool {
    tokens.len() == 1 && tokens[0] is Ident && tokens[0]->Ident_0@ == text
}

pub open spec fn piece(t: Token) -> Piece {
    match t {
        Token::Ident(s) => Piece::Ident(s@),
        Token::Punct { ch, .. } => Piece::Punct(ch),
        Token::Literal(s) => Piece::Literal(s@),
        Token::Group { delimiter, text, tokens, .. } => if delimiter is Bracket && !names_itself(
            tokens@,
            text@,
        ) {
            Piece::Unnamed(text@)
        } else {
            Piece::Group(delimiter, text@)
        },
    }
}

pub open spec fn pieces(ts: Seq<Token>) -> Seq<Piece> {
    ts.map_values(|t: Token| piece(t))
}

/// What the parser expected where it stopped.
pub enum Expected {
    Ident,
    Punct(char),
    /// A guard: one identifier in brackets.
    Guard,
    /// A type in parentheses.
    Type,
    /// The end of the item.
    End,
    /// `name`, `temporary_context`, `guard_error` or `transitions`.
    Header,
    /// The `transitions: { ... }` block.
    Transitions,
}

/// A syntax error: the index of the offending token within its token list
/// (or the list's length, at its end), and what was expected there.
pub struct ParseError {
    pub position: usize,
    pub expected: Expected,
}

pub open spec fn type_pieces(o: Option<TypeRef>) -> Seq<Piece> {
    match o {
        Some(t) => seq![Piece::Group(Delimiter::Parenthesis, t.text@)],
        None => Seq::empty(),
    }
}

/// The tokens that write transition `t`.
pub open spec fn transition_pieces(t: StateTransition) -> Seq<Piece> {
    (if t.in_state.start {
        seq![Piece::Punct('*')]
    } else {
        Seq::empty()
    }) + seq![Piece::Ident(t.in_state.name@)] + type_pieces(t.in_state.data_type) + seq![
        Piece::Punct('+'),
        Piece::Ident(t.event@),
    ] + type_pieces(t.event_data_type) + match t.guard {
        Some(g) => seq![Piece::Group(Delimiter::Bracket, g@)],
        None => Seq::empty(),
    } + match t.action {
        Some(a) => seq![Piece::Punct('/'), Piece::Ident(a@)],
        None => Seq::empty(),
    } + seq![Piece::Punct('='), Piece::Ident(t.out_state@)] + type_pieces(t.out_state_data_type)
}

/// The in-state is a wildcard exactly when it is written `_`, and a
/// wildcard is never the start.
pub open spec fn well_marked(t: StateTransition) -> bool {
    &&& t.in_state.wildcard == (t.in_state.name@ == seq!['_'])
    &&& !(t.in_state.start && t.in_state.wildcard)
}

proof fn lemma_extend(toks: Seq<Token>, lo: int, pos: int)
    requires
        0 <= lo <= pos < toks.len(),
    ensures
        pieces(toks.subrange(lo, pos + 1)) == pieces(toks.subrange(lo, pos)).push(piece(toks[pos])),
{
    assert(pieces(toks.subrange(lo, pos + 1)) =~= pieces(toks.subrange(lo, pos)).push(
        piece(toks[pos]),
    ));
}

fn punct_at(toks: &Vec<Token>, pos: usize, hi: usize, c: char) -> (r: bool)
    requires
        hi <= toks.len(),
    ensures
        r == (pos < hi && piece(toks@[pos as int]) == Piece::Punct(c)),
{
    if pos < hi {
        match &toks[pos] {
            Token::Punct { ch, .. } => *ch == c,
            _ => false,
        }
    } else {
        false
    }
}

fn ident_at(toks: &Vec<Token>, pos: usize, hi: usize) -> (r: Option<String>)
    requires
        hi <= toks.len(),
    ensures
        match r {
            Some(n) => pos < hi && piece(toks@[pos as int]) == Piece::Ident(n@),
            None => !(pos < hi && toks@[pos as int] is Ident),
        },
{
    if pos < hi {
        match &toks[pos] {
            Token::Ident(n) => Some(n.clone()),
            _ => None,
        }
    } else {
        None
    }
}

fn is_group(toks: &Vec<Token>, pos: usize, hi: usize, d: Delimiter) -> (r: bool)
    requires
        hi <= toks.len(),
    ensures
        r == (pos < hi && toks@[pos as int] is Group && toks@[pos as int]->Group_delimiter == d),
{
    if pos < hi {
        match &toks[pos] {
            Token::Group { delimiter, .. } => match (delimiter, d) {
                (Delimiter::Parenthesis, Delimiter::Parenthesis) => true,
                (Delimiter::Brace, Delimiter::Brace) => true,
                (Delimiter::Bracket, Delimiter::Bracket) => true,
                (Delimiter::NoDelimiter, Delimiter::NoDelimiter) => true,
                _ => false,
            },
            _ => false,
        }
    } else {
        false
    }
}

/// The payload type in parentheses at `pos`, if there is one.
fn type_at(toks: &Vec<Token>, pos: usize, hi: usize) -> (r: Option<TypeRef>)
    requires
        hi <= toks.len(),
    ensures
        match r {
            Some(t) => pos < hi && piece(toks@[pos as int]) == Piece::Group(
                Delimiter::Parenthesis,
                t.text@,
            ),
            None => !(pos < hi && toks@[pos as int] is Group && toks@[pos as int]->Group_delimiter
                is Parenthesis),
        },
{
    if is_group(toks, pos, hi, Delimiter::Parenthesis) {
        match &toks[pos] {
            Token::Group { text, shape, .. } => Some(TypeRef { text: text.clone(), shape: shape.clone() }),
            _ => None,
        }
    } else {
        None
    }
}

/// The guard in brackets at `pos`: one identifier, which is also the group's text.
fn guard_at(toks: &Vec<Token>, pos: usize, hi: usize) -> (r: Option<String>)
    requires
        hi <= toks.len(),
    ensures
        match r {
            Some(g) => pos < hi && piece(toks@[pos as int]) == Piece::Group(
                Delimiter::Bracket,
                g@,
            ),
            None => !(pos < hi && piece(toks@[pos as int]) matches Piece::Group(
                Delimiter::Bracket,
                _,
            )),
        },
{
    if is_group(toks, pos, hi, Delimiter::Bracket) {
        match &toks[pos] {
            Token::Group { text, tokens, .. } => {
                let inner = tokens.len();
                match ident_at(tokens, 0, inner) {
                    Some(g) => {
                        if inner == 1 && g == *text {
                            Some(g)
                        } else {
                            None
                        }
                    },
                    None => None,
                }
            },
            _ => None,
        }
    } else {
        None
    }
}

fn is_underscore(s: &String) -> (r: bool)
    ensures
        r == (s@ == seq!['_']),
{
    let underscore = "_".to_owned();
    proof {
        reveal_strlit("_");
    }
    assert(underscore@ =~= seq!['_']);
    *s == underscore
}

proof fn lemma_concat(toks: Seq<Token>, a: int, b: int, c: int)
    requires
        0 <= a <= b <= c <= toks.len(),
    ensures
        pieces(toks.subrange(a, c)) == pieces(toks.subrange(a, b)) + pieces(toks.subrange(b, c)),
{
    assert(pieces(toks.subrange(a, c)) =~= pieces(toks.subrange(a, b)) + pieces(
        toks.subrange(b, c),
    ));
}

proof fn lemma_one(toks: Seq<Token>, pos: int)
    requires
        0 <= pos < toks.len(),
    ensures
        pieces(toks.subrange(pos, pos + 1)) == seq![piece(toks[pos])],
{
    assert(pieces(toks.subrange(pos, pos + 1)) =~= seq![piece(toks[pos])]);
}

proof fn lemma_empty(toks: Seq<Token>, pos: int)
    requires
        0 <= pos <= toks.len(),
    ensures
        pieces(toks.subrange(pos, pos)) == Seq::<Piece>::empty(),
{
    assert(pieces(toks.subrange(pos, pos)) =~= Seq::<Piece>::empty());
}

/// Where an optional payload type that may start at `pos` ends.
pub open spec fn after_type(ts: Seq<Token>, pos: int, hi: int) -> int {
    if pos < hi && piece(ts[pos]) matches Piece::Group(Delimiter::Parenthesis, _) {
        pos + 1
    } else {
        pos
    }
}

/// An optional payload type at `pos`, and the position after it.
fn optional_type(toks: &Vec<Token>, pos: usize, hi: usize) -> (r: (Option<TypeRef>, usize))
    requires
        pos <= hi <= toks.len(),
    ensures
        pos <= r.1 <= hi,
        r.1 == after_type(toks@, pos as int, hi as int),
        pieces(toks@.subrange(pos as int, r.1 as int)) == type_pieces(r.0),
{
    let ty = type_at(toks, pos, hi);
    if ty.is_some() {
        proof {
            lemma_one(toks@, pos as int);
        }
        (ty, pos + 1)
    } else {
        proof {
            lemma_empty(toks@, pos as int);
        }
        (ty, pos)
    }
}

/// A name at `pos` after the punctuation `c`, and the position after both.
fn punct_then_ident(toks: &Vec<Token>, pos: usize, hi: usize, c: char) -> (r: Result<(String, usize), ParseError>)
    requires
        pos <= hi <= toks.len(),
    ensures
        match r {
            Ok((n, p)) => p == pos + 2 && p <= hi && pieces(toks@.subrange(pos as int, p as int))
                == seq![Piece::Punct(c), Piece::Ident(n@)],
            Err(e) => pos <= e.position <= hi,
        },
        r is Ok <==> (pos + 1 < hi && piece(toks@[pos as int]) == Piece::Punct(c)
            && toks@[pos + 1] is Ident),
{
    if !punct_at(toks, pos, hi, c) {
        return Err(ParseError { position: pos, expected: Expected::Punct(c) });
    }
    match ident_at(toks, pos + 1, hi) {
        Some(n) => {
            assert(pieces(toks@.subrange(pos as int, pos + 2)) =~= seq![
                Piece::Punct(c),
                Piece::Ident(n@),
            ]);
            Ok((n, pos + 2))
        },
        None => Err(ParseError { position: pos + 1, expected: Expected::Ident }),
    }
}

pub open spec fn in_state_pieces(s: InputState) -> Seq<Piece> {
    (if s.start {
        seq![Piece::Punct('*')]
    } else {
        Seq::empty()
    }) + seq![Piece::Ident(s.name@)] + type_pieces(s.data_type)
}

/// Where the in-state's name stands: after the start mark, if any.
pub open spec fn name_pos(ts: Seq<Token>, lo: int, hi: int) -> int {
    if lo < hi && piece(ts[lo]) == Piece::Punct('*') {
        lo + 1
    } else {
        lo
    }
}

/// The tokens from `lo` begin with an in-state.
pub open spec fn in_state_ok(ts: Seq<Token>, lo: int, hi: int) -> bool {
    let q = name_pos(ts, lo, hi);
    &&& q < hi
    &&& ts[q] is Ident
    &&& !(q > lo && ts[q]->Ident_0@ == seq!['_'])
}

fn parse_in_state(toks: &Vec<Token>, lo: usize, hi: usize) -> (r: Result<(InputState, usize), ParseError>)
    requires
        lo <= hi <= toks.len(),
    ensures
        match r {
            Ok((s, p)) => {
                &&& lo <= p <= hi
                &&& pieces(toks@.subrange(lo as int, p as int)) == in_state_pieces(s)
                &&& s.wildcard == (s.name@ == seq!['_'])
                &&& !(s.start && s.wildcard)
            },
            Err(e) => lo <= e.position <= hi,
        },
        r is Ok <==> in_state_ok(toks@, lo as int, hi as int),
        r matches Ok((_, p)) ==> p == after_type(
            toks@,
            name_pos(toks@, lo as int, hi as int) + 1,
            hi as int,
        ),
{
    let start = punct_at(toks, lo, hi, '*');
    let pos = if start {
        lo + 1
    } else {
        lo
    };
    let name = match ident_at(toks, pos, hi) {
        Some(n) => n,
        None => return Err(ParseError { position: pos, expected: Expected::Ident }),
    };
    let wildcard = is_underscore(&name);
    if start && wildcard {
        return Err(ParseError { position: pos, expected: Expected::Ident });
    }
    let (data_type, end) = optional_type(toks, pos + 1, hi);
    proof {
        if start {
            lemma_one(toks@, lo as int);
        } else {
            lemma_empty(toks@, lo as int);
        }
        lemma_one(toks@, pos as int);
        lemma_concat(toks@, lo as int, pos as int, pos + 1);
        lemma_concat(toks@, lo as int, pos + 1, end as int);
    }
    let s = InputState { name, start, wildcard, data_type };
    assert(pieces(toks@.subrange(lo as int, end as int)) =~= in_state_pieces(s));
    Ok((s, end))
}

pub open spec fn guard_action_pieces(guard: Option<String>, action: Option<String>) -> Seq<Piece> {
    (match guard {
        Some(g) => seq![Piece::Group(Delimiter::Bracket, g@)],
        None => Seq::empty(),
    }) + match action {
        Some(a) => seq![Piece::Punct('/'), Piece::Ident(a@)],
        None => Seq::empty(),
    }
}

pub open spec fn after_guard(ts: Seq<Token>, lo: int, hi: int) -> int {
    if lo < hi && piece(ts[lo]) matches Piece::Group(Delimiter::Bracket, _) {
        lo + 1
    } else {
        lo
    }
}

pub open spec fn after_action(ts: Seq<Token>, pos: int, hi: int) -> int {
    if pos < hi && piece(ts[pos]) == Piece::Punct('/') {
        pos + 2
    } else {
        pos
    }
}

/// The optional guard and action from `lo` are well formed.
pub open spec fn guard_action_ok(ts: Seq<Token>, lo: int, hi: int) -> bool {
    let pos = after_guard(ts, lo, hi);
    &&& !(lo < hi && ts[lo] is Group && ts[lo]->Group_delimiter is Bracket && !(piece(
        ts[lo],
    ) matches Piece::Group(Delimiter::Bracket, _)))
    &&& (pos < hi && piece(ts[pos]) == Piece::Punct('/')) ==> (pos + 1 < hi && ts[pos + 1] is Ident)
}

fn parse_guard_action(toks: &Vec<Token>, lo: usize, hi: usize) -> (r: Result<(Option<String>, Option<String>, usize), ParseError>)
    requires
        lo <= hi <= toks.len(),
    ensures
        match r {
            Ok((g, a, p)) => lo <= p <= hi && pieces(toks@.subrange(lo as int, p as int))
                == guard_action_pieces(g, a),
            Err(e) => lo <= e.position <= hi,
        },
        r is Ok <==> guard_action_ok(toks@, lo as int, hi as int),
        r matches Ok((_, _, p)) ==> p == after_action(
            toks@,
            after_guard(toks@, lo as int, hi as int),
            hi as int,
        ),
{
    let (guard, pos) = if is_group(toks, lo, hi, Delimiter::Bracket) {
        match guard_at(toks, lo, hi) {
            Some(g) => {
                proof {
                    lemma_one(toks@, lo as int);
                }
                (Some(g), lo + 1)
            },
            None => return Err(ParseError { position: lo, expected: Expected::Guard }),
        }
    } else {
        proof {
            lemma_empty(toks@, lo as int);
        }
        (None, lo)
    };
    let (action, end) = if punct_at(toks, pos, hi, '/') {
        match punct_then_ident(toks, pos, hi, '/') {
            Ok((a, p)) => (Some(a), p),
            Err(e) => return Err(e),
        }
    } else {
        proof {
            lemma_empty(toks@, pos as int);
        }
        (None, pos)
    };
    proof {
        lemma_concat(toks@, lo as int, pos as int, end as int);
    }
    assert(pieces(toks@.subrange(lo as int, end as int)) =~= guard_action_pieces(guard, action));
    Ok((guard, action, end))
}

proof fn lemma_piece_at(ts: Seq<Token>, lo: int, hi: int, i: int)
    requires
        0 <= lo <= hi <= ts.len(),
        0 <= i < hi - lo,
    ensures
        pieces(ts.subrange(lo, hi))[i] == piece(ts[lo + i]),
{
}

/// The tokens `ts[lo..hi]` are laid out as a transition: each step of the
/// parser finds what it looks for, and the last ends at `hi`.
pub open spec fn layout_ok(ts: Seq<Token>, lo: int, hi: int) -> bool {
    let plus_pos = after_type(ts, name_pos(ts, lo, hi) + 1, hi);
    let event_ty_pos = plus_pos + 2;
    let guard_pos = after_type(ts, event_ty_pos, hi);
    let equals_pos = after_action(ts, after_guard(ts, guard_pos, hi), hi);
    let out_ty_pos = equals_pos + 2;
    &&& in_state_ok(ts, lo, hi)
    &&& plus_pos + 1 < hi && piece(ts[plus_pos]) == Piece::Punct('+') && ts[plus_pos + 1] is Ident
    &&& guard_action_ok(ts, guard_pos, hi)
    &&& equals_pos + 1 < hi && piece(ts[equals_pos]) == Piece::Punct('=') && ts[equals_pos + 1] is Ident
    &&& after_type(ts, out_ty_pos, hi) == hi
}

proof fn lemma_split(ts: Seq<Token>, lo: int, hi: int, x: Seq<Piece>, y: Seq<Piece>)
    requires
        0 <= lo <= hi <= ts.len(),
        pieces(ts.subrange(lo, hi)) == x + y,
    ensures
        lo + x.len() <= hi,
        pieces(ts.subrange(lo, lo + x.len())) == x,
        pieces(ts.subrange(lo + x.len(), hi)) == y,
{
    assert(pieces(ts.subrange(lo, lo + x.len())) =~= (x + y).subrange(0, x.len() as int));
    assert(pieces(ts.subrange(lo + x.len(), hi)) =~= (x + y).subrange(x.len() as int, (x + y).len() as int));
    assert((x + y).subrange(0, x.len() as int) =~= x);
    assert((x + y).subrange(x.len() as int, (x + y).len() as int) =~= y);
}

proof fn lemma_fits_in_state(ts: Seq<Token>, lo: int, hi: int, s: InputState)
    requires
        0 <= lo,
        lo + in_state_pieces(s).len() < hi <= ts.len(),
        pieces(ts.subrange(lo, lo + in_state_pieces(s).len())) == in_state_pieces(s),
        piece(ts[lo + in_state_pieces(s).len()]) == Piece::Punct('+'),
        s.wildcard == (s.name@ == seq!['_']),
        !(s.start && s.wildcard),
    ensures
        in_state_ok(ts, lo, hi),
        after_type(ts, name_pos(ts, lo, hi) + 1, hi) == lo + in_state_pieces(s).len(),
{
    let a = in_state_pieces(s);
    let m = lo + a.len();
    assert forall|i: int| 0 <= i < a.len() implies #[trigger] piece(ts[lo + i]) == a[i] by {
        lemma_piece_at(ts, lo, m, i);
    }
    let st: int = if s.start { 1 } else { 0 };
    assert(piece(ts[lo + 0]) == a[0]);
    assert(name_pos(ts, lo, hi) == lo + st);
    assert(piece(ts[lo + st]) == a[st]);
    if s.data_type is Some {
        assert(piece(ts[lo + (st + 1)]) == a[st + 1]);
    }
}

proof fn lemma_fits_guard_action(ts: Seq<Token>, lo: int, hi: int, g: Option<String>, a: Option<String>)
    requires
        0 <= lo,
        lo + guard_action_pieces(g, a).len() < hi <= ts.len(),
        pieces(ts.subrange(lo, lo + guard_action_pieces(g, a).len())) == guard_action_pieces(g, a),
        piece(ts[lo + guard_action_pieces(g, a).len()]) == Piece::Punct('='),
    ensures
        guard_action_ok(ts, lo, hi),
        after_action(ts, after_guard(ts, lo, hi), hi) == lo + guard_action_pieces(g, a).len(),
{
    let c = guard_action_pieces(g, a);
    let m = lo + c.len();
    assert forall|i: int| 0 <= i < c.len() implies #[trigger] piece(ts[lo + i]) == c[i] by {
        lemma_piece_at(ts, lo, m, i);
    }
    let gl: int = if g is Some { 1 } else { 0 };
    assert(piece(ts[lo + 0]) == if c.len() > 0 { c[0] } else { Piece::Punct('=') });
    assert(after_guard(ts, lo, hi) == lo + gl);
    if a is Some {
        assert(piece(ts[lo + gl]) == c[gl]);
        assert(piece(ts[lo + (gl + 1)]) == c[gl + 1]);
    }
}

/// Where the tokens `ts[lo..hi]` write some transition, they are laid out
/// as one.
#[verifier::spinoff_prover]
#[verifier::rlimit(60)]
proof fn lemma_written_is_laid_out(ts: Seq<Token>, lo: int, hi: int, t: StateTransition)
    requires
        0 <= lo <= hi <= ts.len(),
        well_marked(t),
        pieces(ts.subrange(lo, hi)) == transition_pieces(t),
    ensures
        layout_ok(ts, lo, hi),
{
    let a = in_state_pieces(t.in_state);
    let ev = type_pieces(t.event_data_type);
    let b = seq![Piece::Punct('+'), Piece::Ident(t.event@)] + ev;
    let c = guard_action_pieces(t.guard, t.action);
    let d = seq![Piece::Punct('='), Piece::Ident(t.out_state@)] + type_pieces(
        t.out_state_data_type,
    );
    assert(transition_pieces(t) =~= a + (b + (c + d)));
    lemma_split(ts, lo, hi, a, b + (c + d));
    let plus_pos = lo + a.len();
    lemma_split(ts, plus_pos, hi, b, c + d);
    let guard_pos = plus_pos + b.len();
    lemma_split(ts, guard_pos, hi, c, d);
    let equals_pos = guard_pos + c.len();
    lemma_piece_at(ts, plus_pos, hi, 0);
    lemma_piece_at(ts, plus_pos, hi, 1);
    lemma_fits_in_state(ts, lo, hi, t.in_state);
    lemma_piece_at(ts, equals_pos, hi, 0);
    lemma_piece_at(ts, equals_pos, hi, 1);
    lemma_fits_guard_action(ts, guard_pos, hi, t.guard, t.action);
    lemma_piece_at(ts, plus_pos, hi, 2);
    if ev.len() == 0 {
        assert((b + (c + d))[2] == (c + d)[0]);
        if c.len() > 0 {
            assert((c + d)[0] == c[0]);
        } else {
            assert((c + d)[0] == d[0]);
        }
    }
    assert(after_type(ts, plus_pos + 2, hi) == guard_pos);
    if t.out_state_data_type is Some {
        lemma_piece_at(ts, equals_pos, hi, 2);
    }
}

/// Parses the transition written by `toks[lo..hi]`.
#[verifier::spinoff_prover]
#[verifier::rlimit(60)]
pub fn parse_transition(toks: &Vec<Token>, lo: usize, hi: usize) -> (r: Result<StateTransition, ParseError>)
    requires
        lo <= hi <= toks.len(),
    ensures
        match r {
            Ok(t) => pieces(toks@.subrange(lo as int, hi as int)) == transition_pieces(t)
                && well_marked(t),
            Err(e) => lo <= e.position <= hi,
        },
        (exists|t: StateTransition|
            well_marked(t) && pieces(toks@.subrange(lo as int, hi as int)) == transition_pieces(t))
            ==> r is Ok,
        layout_ok(toks@, lo as int, hi as int) ==> r is Ok,
{
    proof {
        if exists|t: StateTransition|
            well_marked(t) && pieces(toks@.subrange(lo as int, hi as int)) == transition_pieces(t) {
            let t = choose|t: StateTransition|
                well_marked(t) && pieces(toks@.subrange(lo as int, hi as int)) == transition_pieces(
                    t,
                );
            lemma_written_is_laid_out(toks@, lo as int, hi as int, t);
        }
    }
    let (in_state, plus_pos) = match parse_in_state(toks, lo, hi) {
        Ok(x) => x,
        Err(e) => return Err(e),
    };
    let (event, event_ty_pos) = match punct_then_ident(toks, plus_pos, hi, '+') {
        Ok(x) => x,
        Err(e) => return Err(e),
    };
    let (event_data_type, guard_pos) = optional_type(toks, event_ty_pos, hi);
    let (guard, action, equals_pos) = match parse_guard_action(toks, guard_pos, hi) {
        Ok(x) => x,
        Err(e) => return Err(e),
    };
    let (out_state, out_ty_pos) = match punct_then_ident(toks, equals_pos, hi, '=') {
        Ok(x) => x,
        Err(e) => return Err(e),
    };
    let (out_state_data_type, end_pos) = optional_type(toks, out_ty_pos, hi);
    if end_pos != hi {
        return Err(ParseError { position: end_pos, expected: Expected::End });
    }
    let t = StateTransition {
        in_state,
        event,
        event_data_type,
        guard,
        action,
        out_state,
        out_state_data_type,
    };
    proof {
        let ts = toks@;
        lemma_concat(ts, lo as int, plus_pos as int, event_ty_pos as int);
        lemma_concat(ts, lo as int, event_ty_pos as int, guard_pos as int);
        lemma_concat(ts, lo as int, guard_pos as int, equals_pos as int);
        lemma_concat(ts, lo as int, equals_pos as int, out_ty_pos as int);
        lemma_concat(ts, lo as int, out_ty_pos as int, end_pos as int);
    }
    assert(pieces(toks@.subrange(lo as int, hi as int)) =~= transition_pieces(t));
    Ok(t)
}

/// The pieces after the last comma.
pub open spec fn open_item(ps: Seq<Piece>) -> Seq<Piece>
    decreases ps.len(),
{
    if ps.len() == 0 {
        Seq::empty()
    } else if ps.last() == Piece::Punct(',') {
        Seq::empty()
    } else {
        open_item(ps.drop_last()).push(ps.last())
    }
}

/// The non-empty comma-separated items that a comma has closed.
pub open spec fn closed_items(ps: Seq<Piece>) -> Seq<Seq<Piece>>
    decreases ps.len(),
{
    if ps.len() == 0 {
        Seq::empty()
    } else if ps.last() == Piece::Punct(',') {
        let p = closed_items(ps.drop_last());
        let o = open_item(ps.drop_last());
        if o.len() > 0 {
            p.push(o)
        } else {
            p
        }
    } else {
        closed_items(ps.drop_last())
    }
}

/// The non-empty comma-separated items of `ps`, in order.
pub open spec fn items(ps: Seq<Piece>) -> Seq<Seq<Piece>> {
    if open_item(ps).len() > 0 {
        closed_items(ps).push(open_item(ps))
    } else {
        closed_items(ps)
    }
}

/// Some transition is written `p`.
pub open spec fn writes_transition(p: Seq<Piece>) -> bool {
    exists|t: StateTransition| well_marked(t) && transition_pieces(t) == p
}

proof fn lemma_closed_prefix(ps: Seq<Piece>, k: int)
    requires
        0 <= k <= ps.len(),
    ensures
        closed_items(ps.take(k)).len() <= closed_items(ps).len(),
        forall|j: int| 0 <= j < closed_items(ps.take(k)).len() ==> #[trigger] closed_items(ps.take(k))[j]
            == closed_items(ps)[j],
    decreases ps.len(),
{
    if k < ps.len() {
        assert(ps.drop_last().take(k) =~= ps.take(k));
        lemma_closed_prefix(ps.drop_last(), k);
    } else {
        assert(ps.take(k) =~= ps);
    }
}

pub open spec fn transitions_pieces(ts: Seq<StateTransition>) -> Seq<Seq<Piece>> {
    ts.map_values(|t: StateTransition| transition_pieces(t))
}

/// Parses the comma-separated transitions written by `toks`; empty items
/// (a trailing comma) are skipped.
pub fn parse_transitions(toks: &Vec<Token>) -> (r: Result<Vec<StateTransition>, ParseError>)
    ensures
        match r {
            Ok(ts) => transitions_pieces(ts@) == items(pieces(toks@))
                && forall|i: int| 0 <= i < ts.len() ==> well_marked(#[trigger] ts@[i]),
            Err(e) => e.position <= toks.len(),
        },
        (forall|i: int|
            0 <= i < items(pieces(toks@)).len() ==> writes_transition(
                #[trigger] items(pieces(toks@))[i],
            )) ==> r is Ok,
{
    let ghost ps = pieces(toks@);
    let n = toks.len();
    let mut out: Vec<StateTransition> = Vec::new();
    let mut lo: usize = 0;
    let mut i: usize = 0;
    assert(ps.take(0) =~= Seq::<Piece>::empty());
    assert(transitions_pieces(out@) =~= Seq::<Seq<Piece>>::empty());
    proof {
        lemma_empty(toks@, 0);
    }
    while i < n
        invariant
            n == toks.len(),
            ps == pieces(toks@),
            lo <= i <= n,
            transitions_pieces(out@) == closed_items(ps.take(i as int)),
            pieces(toks@.subrange(lo as int, i as int)) == open_item(ps.take(i as int)),
            forall|k: int| 0 <= k < out.len() ==> well_marked(#[trigger] out@[k]),
        decreases n - i,
    {
        let ghost pre = ps.take(i as int);
        assert(ps.take(i + 1).drop_last() =~= pre);
        assert(ps.take(i + 1).last() == piece(toks@[i as int]));
        if punct_at(toks, i, n, ',') {
            if lo < i {
                let t = match parse_transition(toks, lo, i) {
                    Ok(t) => t,
                    Err(e) => {
                        proof {
                            let x = open_item(pre);
                            assert(closed_items(ps.take(i + 1)) == closed_items(pre).push(x));
                            lemma_closed_prefix(ps, i + 1);
                            assert(ps.take(n as int) =~= ps);
                            let j = closed_items(pre).len() as int;
                            assert(closed_items(ps.take(i + 1))[j] == x);
                            assert(items(ps)[j] == closed_items(ps)[j]);
                            if forall|k: int| 0 <= k < items(ps).len() ==> writes_transition(
                                #[trigger] items(ps)[k],
                            ) {
                                assert(writes_transition(items(ps)[j]));
                                let t = choose|t: StateTransition|
                                    well_marked(t) && transition_pieces(t) == x;
                                assert(well_marked(t) && pieces(
                                    toks@.subrange(lo as int, i as int),
                                ) == transition_pieces(t));
                            }
                        }
                        return Err(e);
                    },
                };
                let ghost prev = out@;
                out.push(t);
                assert(transitions_pieces(out@) =~= transitions_pieces(prev).push(
                    transition_pieces(t),
                ));
            } else {
                assert(open_item(pre).len() == 0);
            }
            lo = i + 1;
            proof {
                lemma_empty(toks@, lo as int);
            }
        } else {
            proof {
                lemma_extend(toks@, lo as int, i as int);
            }
        }
        i = i + 1;
    }
    assert(ps.take(n as int) =~= ps);
    if lo < n {
        let t = match parse_transition(toks, lo, n) {
            Ok(t) => t,
            Err(e) => {
                proof {
                    let x = open_item(ps);
                    let j = closed_items(ps).len() as int;
                    assert(items(ps)[j] == x);
                    if forall|k: int| 0 <= k < items(ps).len() ==> writes_transition(
                        #[trigger] items(ps)[k],
                    ) {
                        assert(writes_transition(items(ps)[j]));
                        let t = choose|t: StateTransition| well_marked(t) && transition_pieces(t) == x;
                        assert(well_marked(t) && pieces(toks@.subrange(lo as int, n as int))
                            == transition_pieces(t));
                    }
                }
                return Err(e);
            },
        };
        let ghost prev = out@;
        out.push(t);
        assert(transitions_pieces(out@) =~= transitions_pieces(prev).push(transition_pieces(t)));
    } else {
        assert(open_item(ps).len() == 0);
    }
    Ok(out)
}

/// The parts with `sep` between each two.
pub open spec fn joined(parts: Seq<Seq<char>>, sep: Seq<char>) -> Seq<char>
    decreases parts.len(),
{
    if parts.len() == 0 {
        Seq::empty()
    } else if parts.len() == 1 {
        parts[0]
    } else {
        joined(parts.drop_last(), sep) + sep + parts.last()
    }
}

/// Relies on `String::from(char)`: the string of that one character.
#[verifier::external_body]
fn char_string(c: char) -> (r: String)
    ensures
        r@ == seq![c],
{
    String::from(c)
}

/// The parts, in order, with the separator between each two.
fn join_strings(parts: &Vec<String>, sep: &str) -> (r: String)
    ensures
        r@ == joined(strings_view(parts@), sep@),
{
    let mut r = String::new();
    let mut i: usize = 0;
    assert(strings_view(parts@.take(0)) =~= Seq::<Seq<char>>::empty());
    while i < parts.len()
        invariant
            i <= parts.len(),
            r@ == joined(strings_view(parts@.take(i as int)), sep@),
        decreases parts.len() - i,
    {
        let ghost ps = strings_view(parts@.take(i + 1));
        assert(ps.drop_last() =~= strings_view(parts@.take(i as int)));
        assert(ps.last() == parts@[i as int]@);
        if i > 0 {
            r.append(sep);
        } else {
            assert(ps =~= seq![parts@[0]@]);
        }
        r.append(parts[i].as_str());
        i = i + 1;
    }
    assert(parts@.take(i as int) =~= parts@);
    r
}

pub open spec fn open_char(d: Delimiter) -> Seq<char> {
    match d {
        Delimiter::Parenthesis => seq!['('],
        Delimiter::Brace => seq!['{'],
        Delimiter::Bracket => seq!['['],
        Delimiter::NoDelimiter => Seq::empty(),
    }
}

pub open spec fn close_char(d: Delimiter) -> Seq<char> {
    match d {
        Delimiter::Parenthesis => seq![')'],
        Delimiter::Brace => seq!['}'],
        Delimiter::Bracket => seq![']'],
        Delimiter::NoDelimiter => Seq::empty(),
    }
}

/// How a token is written.
pub open spec fn text_of(p: Piece) -> Seq<char> {
    match p {
        Piece::Ident(s) => s,
        Piece::Punct(c) => seq![c],
        Piece::Literal(s) => s,
        Piece::Group(d, t) => open_char(d) + t + close_char(d),
        Piece::Unnamed(t) => seq!['['] + t + seq![']'],
    }
}

fn token_text(t: &Token) -> (r: String)
    ensures
        r@ == text_of(piece(*t)),
{
    match t {
        Token::Ident(s) => s.clone(),
        Token::Punct { ch, .. } => char_string(*ch),
        Token::Literal(s) => s.clone(),
        Token::Group { delimiter, text, .. } => {
            let (open, close) = match delimiter {
                Delimiter::Parenthesis => ('(', ')'),
                Delimiter::Brace => ('{', '}'),
                Delimiter::Bracket => ('[', ']'),
                Delimiter::NoDelimiter => {
                    return text.clone();
                },
            };
            let parts = vec![char_string(open), text.clone(), char_string(close)];
            let empty = String::new();
            let r = join_strings(&parts, empty.as_str());
            assert(strings_view(parts@) =~= seq![seq![open], text@, seq![close]]);
            assert(strings_view(parts@).drop_last().drop_last() =~= seq![seq![open]]);
            assert(strings_view(parts@).drop_last() =~= seq![seq![open], text@]);
            assert(empty@ =~= Seq::<char>::empty());
            assert(joined(seq![seq![open]], empty@) == seq![open]);
            assert(joined(seq![seq![open], text@], empty@) =~= seq![open] + text@);
            assert(r@ =~= seq![open] + text@ + seq![close]);
            assert(seq![open] == open_char(*delimiter) && seq![close] == close_char(*delimiter));
            assert(text_of(piece(*t)) == seq![open] + text@ + seq![close]);
            assert(r@ =~= text_of(piece(*t)));
            r
        },
    }
}

pub open spec fn texts(ts: Seq<Token>) -> Seq<Seq<char>> {
    ts.map_values(|t: Token| text_of(piece(t)))
}

/// The type written by `toks[lo..hi]`: its tokens' text, separated by
/// spaces. Header types are carried by their text alone: no lifetime
/// bookkeeping reads their outline.
fn type_from(toks: &Vec<Token>, lo: usize, hi: usize) -> (r: TypeRef)
    requires
        lo <= hi <= toks.len(),
    ensures
        r.text@ == joined(texts(toks@.subrange(lo as int, hi as int)), seq![' ']),
{
    let mut parts: Vec<String> = Vec::new();
    let mut i: usize = lo;
    while i < hi
        invariant
            lo <= i <= hi,
            hi <= toks.len(),
            strings_view(parts@) == texts(toks@.subrange(lo as int, i as int)),
        decreases hi - i,
    {
        let ghost prev = parts@;
        parts.push(token_text(&toks[i]));
        assert(strings_view(parts@) =~= strings_view(prev).push(text_of(piece(toks@[i as int]))));
        assert(texts(toks@.subrange(lo as int, i + 1)) =~= texts(toks@.subrange(lo as int, i as int)).push(
            text_of(piece(toks@[i as int])),
        ));
        i = i + 1;
    }
    let space = char_string(' ');
    TypeRef { text: join_strings(&parts, space.as_str()), shape: TypeShape::Other }
}

/// Where a type that began at `lo` and has reached `i`, inside `depth`
/// angle brackets, ends: at the first comma outside angle brackets, or at
/// `hi`. The `>` of an arrow `->` closes nothing.
pub open spec fn type_end_from(ts: Seq<Token>, lo: int, i: int, hi: int, depth: nat) -> int
    decreases hi - i,
{
    if i >= hi || i < 0 {
        hi
    } else if piece(ts[i]) == Piece::Punct(',') && depth == 0 {
        i
    } else if piece(ts[i]) == Piece::Punct('<') {
        type_end_from(ts, lo, i + 1, hi, depth + 1)
    } else if piece(ts[i]) == Piece::Punct('>') && !(i > lo && piece(ts[i - 1]) == Piece::Punct(
        '-',
    )) {
        type_end_from(ts, lo, i + 1, hi, if depth > 0 { (depth - 1) as nat } else { 0 })
    } else {
        type_end_from(ts, lo, i + 1, hi, depth)
    }
}

/// Where the type that starts at `lo` ends: at the first comma outside
/// angle brackets, or at `hi`.
fn type_end(toks: &Vec<Token>, lo: usize, hi: usize) -> (r: usize)
    requires
        lo <= hi <= toks.len(),
    ensures
        lo <= r <= hi,
        r < hi ==> piece(toks@[r as int]) == Piece::Punct(','),
        r == type_end_from(toks@, lo as int, lo as int, hi as int, 0),
{
    let mut depth: usize = 0;
    let mut i: usize = lo;
    while i < hi
        invariant
            lo <= i <= hi,
            hi <= toks.len(),
            depth <= i - lo,
            type_end_from(toks@, lo as int, lo as int, hi as int, 0) == type_end_from(
                toks@,
                lo as int,
                i as int,
                hi as int,
                depth as nat,
            ),
        decreases hi - i,
    {
        if punct_at(toks, i, hi, ',') && depth == 0 {
            return i;
        }
        if punct_at(toks, i, hi, '<') {
            depth = depth + 1;
        } else if punct_at(toks, i, hi, '>') && !(i > lo && punct_at(toks, i - 1, hi, '-')) {
            if depth > 0 {
                depth = depth - 1;
            }
        }
        i = i + 1;
    }
    hi
}

/// The header at `pos` is well formed: a known key, a colon, and a value of
/// the key's kind, where every item of a transitions block writes a
/// transition.
pub open spec fn header_ok(ts: Seq<Token>, pos: int) -> bool {
    let n = ts.len() as int;
    let lo = pos + 2;
    &&& 0 <= pos && lo <= n
    &&& ts[pos] is Ident
    &&& piece(ts[pos + 1]) == Piece::Punct(':')
    &&& {
        let key = ts[pos]->Ident_0@;
        if key == "name"@ {
            lo < n && ts[lo] is Ident
        } else if key == "temporary_context"@ || key == "guard_error"@ {
            type_end_from(ts, lo, lo, n, 0) > lo
        } else if key == "transitions"@ {
            &&& lo < n
            &&& ts[lo] is Group
            &&& ts[lo]->Group_delimiter is Brace
            &&& forall|i: int|
                0 <= i < items(pieces(ts[lo]->Group_tokens@)).len() ==> writes_transition(
                    #[trigger] items(pieces(ts[lo]->Group_tokens@))[i],
                )
        } else {
            false
        }
    }
}

/// Where the header at `pos` ends.
pub open spec fn header_end(ts: Seq<Token>, pos: int) -> int {
    let key = ts[pos]->Ident_0@;
    if key == "temporary_context"@ || key == "guard_error"@ {
        type_end_from(ts, pos + 2, pos + 2, ts.len() as int, 0)
    } else {
        pos + 3
    }
}

/// From `pos` on, the tokens are well-formed headers, each followed by a
/// comma but the last, and a transitions block is among them (or was
/// `seen` before `pos`).
pub open spec fn headers_ok(ts: Seq<Token>, pos: int, seen: bool) -> bool
    decreases ts.len() - pos,
{
    if pos >= ts.len() || pos < 0 {
        seen
    } else {
        let e = header_end(ts, pos);
        let now = seen || ts[pos]->Ident_0@ == "transitions"@;
        &&& header_ok(ts, pos)
        &&& pos < e
        &&& if e >= ts.len() {
            now
        } else {
            piece(ts[e]) == Piece::Punct(',') && headers_ok(ts, e + 1, now)
        }
    }
}

/// Among the well-formed headers from `pos` on, one has the key `key`.
pub open spec fn has_header(ts: Seq<Token>, pos: int, key: Seq<char>) -> bool
    decreases ts.len() - pos,
{
    if pos >= ts.len() || pos < 0 {
        false
    } else {
        let e = header_end(ts, pos);
        ts[pos]->Ident_0@ == key || (pos < e && e < ts.len() && has_header(ts, e + 1, key))
    }
}

fn is_word(s: &String, w: &str) -> (r: bool)
    ensures
        r == (s@ == w@),
{
    *s == w.to_owned()
}

/// `toks[k]` is the braced block of the `transitions:` header.
pub open spec fn declares_transitions(ts: Seq<Token>, k: int) -> bool {
    &&& 2 <= k < ts.len()
    &&& piece(ts[k - 2]) == Piece::Ident("transitions"@)
    &&& piece(ts[k - 1]) == Piece::Punct(':')
    &&& ts[k] is Group
    &&& ts[k]->Group_delimiter is Brace
}

/// The header `key: ` ends at `lo`, and its value is `toks[lo..hi]`.
pub open spec fn header_value(ts: Seq<Token>, key: Seq<char>, lo: int, hi: int) -> bool {
    &&& 2 <= lo <= hi <= ts.len()
    &&& piece(ts[lo - 2]) == Piece::Ident(key)
    &&& piece(ts[lo - 1]) == Piece::Punct(':')
}

pub open spec fn type_header(ts: Seq<Token>, key: Seq<char>, t: Option<TypeRef>) -> bool {
    t is Some ==> exists|lo: int, hi: int|
        header_value(ts, key, lo, hi) && t->0.text@ == joined(
            texts(#[trigger] ts.subrange(lo, hi)),
            seq![' '],
        )
}

/// Parses a whole specification: its headers, each followed by a comma but
/// the last, among them the block of transitions.
pub fn parse_state_machine(toks: &Vec<Token>) -> (r: Result<StateMachine, ParseError>)
    ensures
        match r {
            Ok(sm) => {
                &&& exists|k: int|
                    declares_transitions(toks@, k) && transitions_pieces(sm.transitions@) == items(
                        pieces((#[trigger] toks@[k])->Group_tokens@),
                    )
                &&& forall|i: int| 0 <= i < sm.transitions.len() ==> well_marked(
                    #[trigger] sm.transitions@[i],
                )
                &&& sm.name is Some ==> exists|k: int|
                    header_value(toks@, "name"@, k, k + 1) && piece(#[trigger] toks@[k])
                        == Piece::Ident(sm.name->0@)
                &&& type_header(toks@, "temporary_context"@, sm.temporary_context_type)
                &&& type_header(toks@, "guard_error"@, sm.guard_error)
            },
            Err(e) => e.position <= toks.len(),
        },
        headers_ok(toks@, 0, false) ==> (r matches Ok(sm) && {
            &&& sm.name is Some <==> has_header(toks@, 0, "name"@)
            &&& sm.temporary_context_type is Some <==> has_header(toks@, 0, "temporary_context"@)
            &&& sm.guard_error is Some <==> has_header(toks@, 0, "guard_error"@)
        }),
{
    let n = toks.len();
    let mut name: Option<String> = None;
    let mut temporary_context_type: Option<TypeRef> = None;
    let mut guard_error: Option<TypeRef> = None;
    let mut transitions: Option<Vec<StateTransition>> = None;
    let mut pos: usize = 0;
    while pos < n
        invariant
            n == toks.len(),
            pos <= n,
            transitions matches Some(ts) ==> {
                &&& exists|k: int|
                    declares_transitions(toks@, k) && transitions_pieces(ts@) == items(
                        pieces((#[trigger] toks@[k])->Group_tokens@),
                    )
                &&& forall|i: int| 0 <= i < ts.len() ==> well_marked(#[trigger] ts@[i])
            },
            name is Some ==> exists|k: int|
                header_value(toks@, "name"@, k, k + 1) && piece(#[trigger] toks@[k])
                    == Piece::Ident(name->0@),
            type_header(toks@, "temporary_context"@, temporary_context_type),
            type_header(toks@, "guard_error"@, guard_error),
            headers_ok(toks@, 0, false) ==> headers_ok(toks@, pos as int, transitions is Some),
            headers_ok(toks@, 0, false) ==> (has_header(toks@, 0, "name"@) <==> (name is Some
                || has_header(toks@, pos as int, "name"@))),
            headers_ok(toks@, 0, false) ==> (has_header(toks@, 0, "temporary_context"@) <==> (
            temporary_context_type is Some || has_header(toks@, pos as int, "temporary_context"@))),
            headers_ok(toks@, 0, false) ==> (has_header(toks@, 0, "guard_error"@) <==> (
            guard_error is Some || has_header(toks@, pos as int, "guard_error"@))),
        decreases n - pos,
    {
        proof {
            reveal_strlit("name");
            reveal_strlit("temporary_context");
            reveal_strlit("guard_error");
            reveal_strlit("transitions");
            assert("name"@.len() == 4 && "temporary_context"@.len() == 17);
            assert("guard_error"@.len() == 11 && "transitions"@.len() == 11);
            assert("guard_error"@[0] == 'g' && "transitions"@[0] == 't');
        }
        let key = match ident_at(toks, pos, n) {
            Some(k) => k,
            None => return Err(ParseError { position: pos, expected: Expected::Header }),
        };
        if !punct_at(toks, pos + 1, n, ':') {
            return Err(ParseError { position: pos + 1, expected: Expected::Punct(':') });
        }
        let lo = pos + 2;
        let next = if is_word(&key, "name") {
            match ident_at(toks, lo, n) {
                Some(v) => {
                    name = Some(v);
                    lo + 1
                },
                None => return Err(ParseError { position: lo, expected: Expected::Ident }),
            }
        } else if is_word(&key, "temporary_context") || is_word(&key, "guard_error") {
            let end = type_end(toks, lo, n);
            if end == lo {
                return Err(ParseError { position: lo, expected: Expected::Type });
            }
            let t = type_from(toks, lo, end);
            if is_word(&key, "guard_error") {
                guard_error = Some(t);
            } else {
                temporary_context_type = Some(t);
            }
            end
        } else if is_word(&key, "transitions") {
            if !is_group(toks, lo, n, Delimiter::Brace) {
                return Err(ParseError { position: lo, expected: Expected::Transitions });
            }
            match &toks[lo] {
                Token::Group { tokens, .. } => match parse_transitions(tokens) {
                    Ok(ts) => {
                        transitions = Some(ts);
                    },
                    Err(_) => return Err(ParseError { position: lo, expected: Expected::Transitions }),
                },
                _ => return Err(ParseError { position: lo, expected: Expected::Transitions }),
            }
            lo + 1
        } else {
            return Err(ParseError { position: pos, expected: Expected::Header });
        };
        if next < n {
            if !punct_at(toks, next, n, ',') {
                return Err(ParseError { position: next, expected: Expected::Punct(',') });
            }
            pos = next + 1;
        } else {
            pos = next;
        }
    }
    match transitions {
        Some(ts) => Ok(StateMachine { name, temporary_context_type, guard_error, transitions: ts }),
        None => Err(ParseError { position: n, expected: Expected::Transitions }),
    }
}

} // verus!

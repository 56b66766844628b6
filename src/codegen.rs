//! Code generation: lays out everything the generated program declares, in a
//! fixed order (states, then events, alphabetically), so that one model
//! always yields the same program.

use vstd::prelude::*;
use vstd::utf8::{encode_utf8, encode_utf8_decode_utf8};
use crate::model::{opt_view, strings_view, DataDefinitions, DataEntry, EventMapping, Slot};
use crate::parser::{table_view, ParsedStateMachine};
use crate::runtime::{find_slot, first_match};

verus! {

/// Lexicographic order on bytes.
pub open spec fn bytes_le(a: Seq<u8>, b: Seq<u8>) -> bool
    decreases a.len(),
{
    if a.len() == 0 {
        true
    } else if b.len() == 0 {
        false
    } else if a[0] != b[0] {
        a[0] < b[0]
    } else {
        bytes_le(a.drop_first(), b.drop_first())
    }
}

/// The order of `String`: by the bytes of its UTF-8 encoding.
pub open spec fn name_le(a: Seq<char>, b: Seq<char>) -> bool {
    bytes_le(encode_utf8(a), encode_utf8(b))
}

pub open spec fn sorted_names(v: Seq<String>) -> bool {
    forall|i: int, j: int| 0 <= i < j < v.len() ==> name_le(v[i]@, v[j]@)
}

/// Relies on `slice::sort`: it permutes the items into ascending order, and
/// `String` orders by the lexicographic order of its bytes.
#[verifier::external_body]
fn sort_strings(v: &mut Vec<String>)
    ensures
        final(v)@.to_multiset() == old(v)@.to_multiset(),
        sorted_names(final(v)@),
{
    v.sort();
}

pub open spec fn ascii_name(s: Seq<char>) -> bool {
    forall|i: int| 0 <= i < s.len() ==> (s[i] as u32) < 128
}

/// The snake-case form of a name.
pub uninterp spec fn snake_case_of(s: Seq<char>) -> Seq<char>;

/// Relies on `string_morph::to_snake_case`, which gives the snake-case form of
/// its input; it indexes characters by byte positions, so the name must be
/// ASCII.
#[verifier::external_body]
fn snake_case(s: &String) -> (r: String)
    requires
        ascii_name(s@),
    ensures
        r@ == snake_case_of(s@),
{
    string_morph::to_snake_case(s)
}

/// The payload type text recorded for `n`.
pub open spec fn data_text(es: Seq<DataEntry>, n: Seq<char>) -> Option<Seq<char>>
    decreases es.len(),
{
    if es.len() == 0 {
        None
    } else if es.last().name@ == n {
        Some(es.last().text@)
    } else {
        data_text(es.drop_last(), n)
    }
}

/// The entry recorded for `n`.
pub open spec fn entry_for(es: Seq<DataEntry>, n: Seq<char>) -> Option<DataEntry>
    decreases es.len(),
{
    if es.len() == 0 {
        None
    } else if es.last().name@ == n {
        Some(es.last())
    } else {
        entry_for(es.drop_last(), n)
    }
}

/// The lifetime parameters of the payload recorded for `n`.
pub open spec fn lifetimes_for(es: Seq<DataEntry>, n: Seq<char>) -> Seq<Seq<char>> {
    match entry_for(es, n) {
        Some(e) => strings_view(e.lifetimes@),
        None => Seq::empty(),
    }
}

/// The payload recorded for `n` is a reference.
pub open spec fn reference_for(es: Seq<DataEntry>, n: Seq<char>) -> bool {
    match entry_for(es, n) {
        Some(e) => e.is_reference,
        None => false,
    }
}

/// The lifetimes and reference flag of the payload recorded for `n`.
fn entry_facts(d: &DataDefinitions, n: &String) -> (r: (Vec<String>, bool))
    ensures
        strings_view(r.0@) == lifetimes_for(d.entries@, n@),
        r.1 == reference_for(d.entries@, n@),
{
    let es = &d.entries;
    let mut k: usize = es.len();
    assert(es@.take(k as int) =~= es@);
    while k > 0
        invariant
            k <= es.len(),
            es@ == d.entries@,
            entry_for(es@, n@) == entry_for(es@.take(k as int), n@),
        decreases k,
    {
        assert(es@.take(k as int).drop_last() =~= es@.take(k - 1));
        assert(es@.take(k as int).last() == es@[k - 1]);
        if es[k - 1].name == *n {
            assert(entry_for(es@.take(k as int), n@) == Some(es@[k - 1]));
            return (copy_strings(&es[k - 1].lifetimes), es[k - 1].is_reference);
        }
        k = k - 1;
    }
    let v: Vec<String> = Vec::new();
    assert(strings_view(v@) =~= Seq::<Seq<char>>::empty());
    (v, false)
}

/// The positions where a run of equal names begins.
pub open spec fn run_starts(ns: Seq<Seq<char>>) -> Seq<int>
    decreases ns.len(),
{
    if ns.len() == 0 {
        Seq::empty()
    } else {
        let p = run_starts(ns.drop_last());
        if ns.len() == 1 || ns.last() != ns[ns.len() - 2] {
            p.push(ns.len() - 1)
        } else {
            p
        }
    }
}

/// The text of the payload type recorded for `n`, if any.
pub(crate) fn data_of(d: &DataDefinitions, n: &String) -> (r: Option<String>)
    ensures
        opt_view(r) == data_text(d.entries@, n@),
{
    let es = &d.entries;
    let mut k: usize = es.len();
    assert(es@.take(k as int) =~= es@);
    while k > 0
        invariant
            k <= es.len(),
            es@ == d.entries@,
            data_text(es@, n@) == data_text(es@.take(k as int), n@),
        decreases k,
    {
        assert(es@.take(k as int).drop_last() =~= es@.take(k - 1));
        assert(es@.take(k as int).last() == es@[k - 1]);
        if es[k - 1].name == *n {
            assert(data_text(es@.take(k as int), n@) == Some(es@[k - 1].text@));
            return Some(es[k - 1].text.clone());
        }
        k = k - 1;
    }
    None
}

fn copy_strings(v: &Vec<String>) -> (r: Vec<String>)
    ensures
        r@ == v@,
{
    let mut r: Vec<String> = Vec::new();
    let mut i: usize = 0;
    while i < v.len()
        invariant
            i <= v.len(),
            r@ == v@.take(i as int),
        decreases v.len() - i,
    {
        r.push(v[i].clone());
        assert(r@ =~= v@.take(i + 1));
        i = i + 1;
    }
    assert(r@ =~= v@);
    r
}

fn copy_opt(o: &Option<String>) -> (r: Option<String>)
    ensures
        r == *o,
{
    match o {
        Some(s) => Some(s.clone()),
        None => None,
    }
}

/// A variant of the generated state or event type, with its payload's type.
pub struct Variant {
    pub name: String,
    pub data: Option<String>,
}

/// The entry and exit hooks of one state: `on_entry_<snake>`, `on_exit_<snake>`.
pub struct Hook {
    pub state: String,
    pub snake: String,
}

/// One arm of the dispatch: a table slot, and which of its in-state, event
/// and out-state carry payloads.
pub struct Arm {
    pub mapping: EventMapping,
    pub in_data: bool,
    pub event_data: bool,
    pub out_data: bool,
    /// The event's payload type is a reference, handed on as it is.
    pub event_is_reference: bool,
    /// The lifetime parameters of the event's payload.
    pub event_lifetimes: Vec<String>,
    /// The lifetime parameters of the out-state's payload.
    pub out_lifetimes: Vec<String>,
}

/// Everything the generated program declares, in the order it declares it.
pub struct CodePlan {
    pub states: Vec<Variant>,
    pub events: Vec<Variant>,
    pub hooks: Vec<Hook>,
    pub arms: Vec<Arm>,
    /// Where the arms of each in-state begin; they stand together.
    pub rows: Vec<usize>,
    /// For each distinct guard, the first arm that uses it.
    pub guards: Vec<usize>,
    /// For each distinct action, the first arm that uses it.
    pub actions: Vec<usize>,
    pub starting_state: String,
    pub starting_data: Option<String>,
    pub temporary_context: Option<String>,
    pub guard_error: Option<String>,
    pub state_lifetimes: Vec<String>,
    pub event_lifetimes: Vec<String>,
}

/// The slots of state `s`, one for each event of `es` that has one, in the
/// order of `es`.
pub open spec fn row(s: Seq<char>, es: Seq<Seq<char>>, sl: Seq<Slot>) -> Seq<Slot>
    decreases es.len(),
{
    if es.len() == 0 {
        Seq::empty()
    } else {
        let p = row(s, es.drop_last(), sl);
        match first_match(sl, s, es.last()) {
            Some(k) => p.push(sl[k]),
            None => p,
        }
    }
}

/// The slots in dispatch order: by state in the order of `ss`, then by event
/// in the order of `es`.
pub open spec fn dispatch_order(ss: Seq<Seq<char>>, es: Seq<Seq<char>>, sl: Seq<Slot>) -> Seq<Slot>
    decreases ss.len(),
{
    if ss.len() == 0 {
        Seq::empty()
    } else {
        dispatch_order(ss.drop_last(), es, sl) + row(ss.last(), es, sl)
    }
}

/// The positions in `names` where a name occurs for the first time.
pub open spec fn first_uses(names: Seq<Option<Seq<char>>>) -> Seq<int>
    decreases names.len(),
{
    if names.len() == 0 {
        Seq::empty()
    } else {
        let p = first_uses(names.drop_last());
        let n = names.last();
        if n is Some && !names.drop_last().contains(n) {
            p.push(names.len() - 1)
        } else {
            p
        }
    }
}

pub open spec fn arm_slots(arms: Seq<Arm>) -> Seq<Slot> {
    arms.map_values(|a: Arm| a.mapping@)
}

pub open spec fn indices(v: Seq<usize>) -> Seq<int> {
    v.map_values(|k: usize| k as int)
}

/// Sorted copies of the names, with the payload type of each.
fn variants(names: &Vec<String>, d: &DataDefinitions) -> (r: (Vec<String>, Vec<Variant>))
    ensures
        r.0@.to_multiset() == names@.to_multiset(),
        sorted_names(r.0@),
        r.1.len() == r.0.len(),
        forall|k: int| 0 <= k < r.1.len() ==> (#[trigger] r.1@[k]).name == r.0@[k] && opt_view(
            r.1@[k].data,
        ) == data_text(d.entries@, r.0@[k]@),
{
    let mut sorted = copy_strings(names);
    sort_strings(&mut sorted);
    let mut out: Vec<Variant> = Vec::new();
    let mut i: usize = 0;
    while i < sorted.len()
        invariant
            i <= sorted.len(),
            out.len() == i,
            forall|k: int| 0 <= k < i ==> (#[trigger] out@[k]).name == sorted@[k] && opt_view(
                out@[k].data,
            ) == data_text(d.entries@, sorted@[k]@),
        decreases sorted.len() - i,
    {
        out.push(Variant { name: sorted[i].clone(), data: data_of(d, &sorted[i]) });
        i = i + 1;
    }
    (sorted, out)
}

/// Where the arms of each in-state begin.
fn run_starts_of(arms: &Vec<Arm>) -> (r: Vec<usize>)
    ensures
        indices(r@) == run_starts(arm_slots(arms@).map_values(|s: Slot| s.in_state)),
{
    let ghost ns = arm_slots(arms@).map_values(|s: Slot| s.in_state);
    let mut r: Vec<usize> = Vec::new();
    let mut i: usize = 0;
    assert(indices(r@) =~= Seq::<int>::empty());
    while i < arms.len()
        invariant
            i <= arms.len(),
            ns == arm_slots(arms@).map_values(|s: Slot| s.in_state),
            ns.len() == arms.len(),
            indices(r@) == run_starts(ns.take(i as int)),
        decreases arms.len() - i,
    {
        let ghost pre = ns.take(i as int);
        assert(ns.take(i + 1).drop_last() =~= pre);
        assert(ns.take(i + 1).last() == arms@[i as int].mapping.in_state@);
        if i > 0 {
            assert(ns.take(i + 1)[i - 1] == arms@[i - 1].mapping.in_state@);
        }
        if i == 0 || !(arms[i].mapping.in_state == arms[i - 1].mapping.in_state) {
            let ghost prev = r@;
            r.push(i);
            assert(indices(r@) =~= indices(prev).push(i as int));
        }
        i = i + 1;
    }
    assert(ns.take(i as int) =~= ns);
    r
}

/// The positions of the first arm that uses each guard (or each action).
fn first_arms(arms: &Vec<Arm>, guards: bool) -> (r: Vec<usize>)
    ensures
        indices(r@) == first_uses(
            if guards {
                arm_slots(arms@).map_values(|s: Slot| s.guard)
            } else {
                arm_slots(arms@).map_values(|s: Slot| s.action)
            },
        ),
{
    let ghost names = if guards {
        arm_slots(arms@).map_values(|s: Slot| s.guard)
    } else {
        arm_slots(arms@).map_values(|s: Slot| s.action)
    };
    let mut r: Vec<usize> = Vec::new();
    let mut i: usize = 0;
    while i < arms.len()
        invariant
            i <= arms.len(),
            names.len() == arms.len(),
            forall|k: int| 0 <= k < arms.len() ==> #[trigger] names[k] == if guards {
                opt_view(arms@[k].mapping.guard)
            } else {
                opt_view(arms@[k].mapping.action)
            },
            indices(r@) == first_uses(names.take(i as int)),
        decreases arms.len() - i,
    {
        let cur = if guards {
            &arms[i].mapping.guard
        } else {
            &arms[i].mapping.action
        };
        let ghost pre = names.take(i as int);
        assert(names.take(i + 1).drop_last() =~= pre);
        assert(names.take(i + 1).last() == names[i as int]);
        if let Some(n) = cur {
            let mut j: usize = 0;
            let mut seen = false;
            while j < i
                invariant
                    j <= i,
                    i < arms.len(),
                    names.len() == arms.len(),
                    pre == names.take(i as int),
                    cur == if guards {
                        &arms@[i as int].mapping.guard
                    } else {
                        &arms@[i as int].mapping.action
                    },
                    *cur == Some(*n),
                    forall|k: int| 0 <= k < arms.len() ==> #[trigger] names[k] == if guards {
                        opt_view(arms@[k].mapping.guard)
                    } else {
                        opt_view(arms@[k].mapping.action)
                    },
                    seen ==> pre.contains(Some(n@)),
                    !seen ==> forall|k: int| 0 <= k < j ==> pre[k] != Some(n@),
                decreases i - j,
            {
                let other = if guards {
                    &arms[j].mapping.guard
                } else {
                    &arms[j].mapping.action
                };
                if let Some(o) = other {
                    if *o == *n {
                        seen = true;
                        assert(pre[j as int] == names[j as int]);
                    }
                }
                assert(pre[j as int] == names[j as int]);
                j = j + 1;
            }
            assert(names[i as int] == Some(n@));
            if !seen {
                r.push(i);
                assert(indices(r@) =~= first_uses(names.take(i as int)).push(i as int));
            }
        }
        i = i + 1;
    }
    assert(names.take(i as int) =~= names);
    r
}

/// `r` lays out the program generated from `sm`.
pub open spec fn lays_out(r: CodePlan, sm: ParsedStateMachine) -> bool {
    let ss = r.states@.map_values(|v: Variant| v.name@);
    let es = r.events@.map_values(|v: Variant| v.name@);
    &&& r.states@.map_values(|v: Variant| v.name).to_multiset() == sm.states@.to_multiset()
    &&& r.events@.map_values(|v: Variant| v.name).to_multiset() == sm.events@.to_multiset()
    &&& sorted_names(r.states@.map_values(|v: Variant| v.name))
    &&& sorted_names(r.events@.map_values(|v: Variant| v.name))
    &&& forall|k: int| 0 <= k < r.states.len() ==> opt_view((#[trigger] r.states@[k]).data)
        == data_text(sm.state_data.entries@, r.states@[k].name@)
    &&& forall|k: int| 0 <= k < r.events.len() ==> opt_view((#[trigger] r.events@[k]).data)
        == data_text(sm.event_data.entries@, r.events@[k].name@)
    &&& r.hooks.len() == r.states.len()
    &&& forall|k: int| 0 <= k < r.hooks.len() ==> (#[trigger] r.hooks@[k]).state@ == ss[k]
        && r.hooks@[k].snake@ == snake_case_of(ss[k])
    &&& arm_slots(r.arms@) == dispatch_order(ss, es, table_view(sm.transitions@))
    &&& forall|k: int| 0 <= k < r.arms.len() ==> {
        let a = #[trigger] r.arms@[k];
        &&& a.in_data == data_text(sm.state_data.entries@, a.mapping.in_state@) is Some
        &&& a.event_data == data_text(sm.event_data.entries@, a.mapping.event@) is Some
        &&& a.out_data == data_text(sm.state_data.entries@, a.mapping.out_state@) is Some
        &&& a.event_is_reference == reference_for(sm.event_data.entries@, a.mapping.event@)
        &&& strings_view(a.event_lifetimes@) == lifetimes_for(sm.event_data.entries@, a.mapping.event@)
        &&& strings_view(a.out_lifetimes@) == lifetimes_for(sm.state_data.entries@, a.mapping.out_state@)
    }
    &&& indices(r.rows@) == run_starts(arm_slots(r.arms@).map_values(|s: Slot| s.in_state))
    &&& indices(r.guards@) == first_uses(arm_slots(r.arms@).map_values(|s: Slot| s.guard))
    &&& indices(r.actions@) == first_uses(arm_slots(r.arms@).map_values(|s: Slot| s.action))
    &&& r.starting_state == sm.starting_state
    &&& opt_view(r.starting_data) == data_text(sm.state_data.entries@, sm.starting_state@)
    &&& opt_view(r.temporary_context) == match sm.temporary_context_type {
        Some(t) => Some(t.text@),
        None => None::<Seq<char>>,
    }
    &&& opt_view(r.guard_error) == match sm.guard_error {
        Some(t) => Some(t.text@),
        None => None::<Seq<char>>,
    }
    &&& r.state_lifetimes@ == sm.state_data.all_lifetimes@
    &&& r.event_lifetimes@ == sm.event_data.all_lifetimes@
}

/// Lays out the program generated from a model: its state and event types
/// sorted by name, one hook pair per state, the dispatch arms by state and
/// then event, and each guard and action declared once, where first used.
pub fn generate_code(sm: &ParsedStateMachine) -> (r: CodePlan)
    requires
        forall|k: int| 0 <= k < sm.states.len() ==> ascii_name(#[trigger] sm.states@[k]@),
    ensures
        lays_out(r, *sm),
{
    let (state_names, states) = variants(&sm.states, &sm.state_data);
    let (event_names, events) = variants(&sm.events, &sm.event_data);
    let ghost ss = strings_view(state_names@);
    let ghost es = strings_view(event_names@);
    let ghost sl = table_view(sm.transitions@);
    assert(states@.map_values(|v: Variant| v.name) =~= state_names@);
    assert(events@.map_values(|v: Variant| v.name) =~= event_names@);
    assert(states@.map_values(|v: Variant| v.name@) =~= ss);
    assert(events@.map_values(|v: Variant| v.name@) =~= es);

    let mut hooks: Vec<Hook> = Vec::new();
    let mut i: usize = 0;
    while i < state_names.len()
        invariant
            i <= state_names.len(),
            ss == strings_view(state_names@),
            state_names@.to_multiset() == sm.states@.to_multiset(),
            forall|k: int| 0 <= k < sm.states.len() ==> ascii_name(#[trigger] sm.states@[k]@),
            hooks.len() == i,
            forall|k: int| 0 <= k < i ==> (#[trigger] hooks@[k]).state@ == ss[k]
                && hooks@[k].snake@ == snake_case_of(ss[k]),
        decreases state_names.len() - i,
    {
        proof {
            lemma_in_multiset(state_names@, sm.states@, i as int);
            let k = choose|k: int| 0 <= k < sm.states.len() && sm.states@[k] == state_names@[i as int];
            assert(ascii_name(sm.states@[k]@));
        }
        let snake = snake_case(&state_names[i]);
        hooks.push(Hook { state: state_names[i].clone(), snake });
        i = i + 1;
    }

    let mut arms: Vec<Arm> = Vec::new();
    let mut i: usize = 0;
    assert(arm_slots(arms@) =~= Seq::<Slot>::empty());
    while i < state_names.len()
        invariant
            i <= state_names.len(),
            ss == strings_view(state_names@),
            es == strings_view(event_names@),
            sl == table_view(sm.transitions@),
            arm_slots(arms@) == dispatch_order(ss.take(i as int), es, sl),
            forall|k: int| 0 <= k < arms.len() ==> {
                let a = #[trigger] arms@[k];
                &&& a.in_data == data_text(sm.state_data.entries@, a.mapping.in_state@) is Some
                &&& a.event_data == data_text(sm.event_data.entries@, a.mapping.event@) is Some
                &&& a.out_data == data_text(sm.state_data.entries@, a.mapping.out_state@) is Some
                &&& a.event_is_reference == reference_for(sm.event_data.entries@, a.mapping.event@)
                &&& strings_view(a.event_lifetimes@) == lifetimes_for(sm.event_data.entries@, a.mapping.event@)
                &&& strings_view(a.out_lifetimes@) == lifetimes_for(sm.state_data.entries@, a.mapping.out_state@)
            },
        decreases state_names.len() - i,
    {
        let ghost before = arm_slots(arms@);
        assert(ss.take(i + 1).drop_last() =~= ss.take(i as int));
        assert(ss.take(i + 1).last() == state_names@[i as int]@);
        let mut j: usize = 0;
        assert(es.take(0) =~= Seq::<Seq<char>>::empty());
        while j < event_names.len()
            invariant
                i < state_names.len(),
                j <= event_names.len(),
                ss == strings_view(state_names@),
                es == strings_view(event_names@),
                sl == table_view(sm.transitions@),
                arm_slots(arms@) == before + row(state_names@[i as int]@, es.take(j as int), sl),
                forall|k: int| 0 <= k < arms.len() ==> {
                    let a = #[trigger] arms@[k];
                    &&& a.in_data == data_text(sm.state_data.entries@, a.mapping.in_state@) is Some
                    &&& a.event_data == data_text(sm.event_data.entries@, a.mapping.event@) is Some
                    &&& a.out_data == data_text(sm.state_data.entries@, a.mapping.out_state@) is Some
                    &&& a.event_is_reference == reference_for(sm.event_data.entries@, a.mapping.event@)
                    &&& strings_view(a.event_lifetimes@) == lifetimes_for(sm.event_data.entries@, a.mapping.event@)
                    &&& strings_view(a.out_lifetimes@) == lifetimes_for(sm.state_data.entries@, a.mapping.out_state@)
                &&& a.event_is_reference == reference_for(sm.event_data.entries@, a.mapping.event@)
                &&& strings_view(a.event_lifetimes@) == lifetimes_for(sm.event_data.entries@, a.mapping.event@)
                &&& strings_view(a.out_lifetimes@) == lifetimes_for(sm.state_data.entries@, a.mapping.out_state@)
                },
            decreases event_names.len() - j,
        {
            assert(es.take(j + 1).drop_last() =~= es.take(j as int));
            assert(es.take(j + 1).last() == event_names@[j as int]@);
            let ghost prev = arms@;
            match find_slot(&sm.transitions, &state_names[i], &event_names[j]) {
                Some(k) => {
                    proof {
                        crate::runtime::lemma_first_match_found(sl, state_names@[i as int]@, event_names@[j as int]@);
                    }
                    let m = &sm.transitions[k];
                    let mapping = EventMapping {
                        in_state: m.in_state.clone(),
                        event: m.event.clone(),
                        guard: copy_opt(&m.guard),
                        action: copy_opt(&m.action),
                        out_state: m.out_state.clone(),
                    };
                    let in_data = data_of(&sm.state_data, &m.in_state).is_some();
                    let event_data = data_of(&sm.event_data, &m.event).is_some();
                    let out_data = data_of(&sm.state_data, &m.out_state).is_some();
                    let (event_lifetimes, event_is_reference) = entry_facts(&sm.event_data, &m.event);
                    let (out_lifetimes, _) = entry_facts(&sm.state_data, &m.out_state);
                    arms.push(
                        Arm {
                            mapping,
                            in_data,
                            event_data,
                            out_data,
                            event_is_reference,
                            event_lifetimes,
                            out_lifetimes,
                        },
                    );
                    assert(arm_slots(arms@) =~= arm_slots(prev).push(sl[k as int]));
                },
                None => {},
            }
            j = j + 1;
        }
        assert(es.take(j as int) =~= es);
        i = i + 1;
    }
    assert(ss.take(i as int) =~= ss);

    let rows = run_starts_of(&arms);
    let guards = first_arms(&arms, true);
    let actions = first_arms(&arms, false);
    CodePlan {
        states,
        events,
        hooks,
        arms,
        rows,
        guards,
        actions,
        starting_state: sm.starting_state.clone(),
        starting_data: data_of(&sm.state_data, &sm.starting_state),
        temporary_context: match &sm.temporary_context_type {
            Some(t) => Some(t.text.clone()),
            None => None,
        },
        guard_error: match &sm.guard_error {
            Some(t) => Some(t.text.clone()),
            None => None,
        },
        state_lifetimes: copy_strings(&sm.state_data.all_lifetimes),
        event_lifetimes: copy_strings(&sm.event_data.all_lifetimes),
    }
}

proof fn lemma_bytes_le_antisymmetric(a: Seq<u8>, b: Seq<u8>)
    requires
        bytes_le(a, b),
        bytes_le(b, a),
    ensures
        a == b,
    decreases a.len(),
{
    if a.len() > 0 && b.len() > 0 {
        lemma_bytes_le_antisymmetric(a.drop_first(), b.drop_first());
        assert(a =~= seq![a[0]] + a.drop_first());
        assert(b =~= seq![b[0]] + b.drop_first());
    }
}

proof fn lemma_name_le_antisymmetric(a: Seq<char>, b: Seq<char>)
    requires
        name_le(a, b),
        name_le(b, a),
    ensures
        a == b,
{
    lemma_bytes_le_antisymmetric(encode_utf8(a), encode_utf8(b));
    encode_utf8_decode_utf8(a);
    encode_utf8_decode_utf8(b);
}

/// Two sorted arrangements of the same names are, name for name, the same.
pub proof fn lemma_sorted_unique(a: Seq<String>, b: Seq<String>)
    requires
        a.to_multiset() == b.to_multiset(),
        sorted_names(a),
        sorted_names(b),
    ensures
        strings_view(a) == strings_view(b),
    decreases a.len(),
{
    broadcast use vstd::seq_lib::group_to_multiset_ensures;

    a.to_multiset_ensures();
    b.to_multiset_ensures();
    if a.len() == 0 {
        assert(strings_view(a) =~= strings_view(b));
    } else {
        let x = a[0];
        assert(a.to_multiset().count(x) > 0);
        assert(b.contains(x));
        let j = choose|j: int| 0 <= j < b.len() && b[j] == x;
        assert(b.to_multiset().count(b[0]) > 0);
        assert(a.contains(b[0]));
        let i = choose|i: int| 0 <= i < a.len() && a[i] == b[0];
        if x != b[0] {
            assert(i > 0 && j > 0);
            assert(name_le(a[0]@, a[i]@));
            assert(name_le(b[0]@, b[j]@));
            lemma_name_le_antisymmetric(x@, b[0]@);
        }
        assert forall|k: int| 0 <= k <= j implies (#[trigger] b[k])@ == x@ by {
            if 0 < k && k < j {
                assert(name_le(b[0]@, b[k]@));
                assert(name_le(b[k]@, b[j]@));
                lemma_name_le_antisymmetric(b[k]@, x@);
            }
        }
        let a2 = a.drop_first();
        let b2 = b.remove(j);
        vstd::seq_lib::to_multiset_remove(a, 0);
        vstd::seq_lib::to_multiset_remove(b, j);
        assert(a.remove(0) =~= a2);
        assert forall|p: int, q: int| 0 <= p < q < b2.len() implies name_le(b2[p]@, b2[q]@) by {
            let from_p = if p < j { p } else { p + 1 };
            let from_q = if q < j { q } else { q + 1 };
            assert(b2[p] == b[from_p] && b2[q] == b[from_q]);
        }
        assert forall|p: int, q: int| 0 <= p < q < a2.len() implies name_le(a2[p]@, a2[q]@) by {
            assert(a2[p] == a[p + 1] && a2[q] == a[q + 1]);
        }
        lemma_sorted_unique(a2, b2);
        assert forall|k: int| 0 <= k < b.len() implies strings_view(a)[k] == strings_view(b)[k] by {
            if k == 0 {
            } else if k <= j {
                assert(strings_view(a2)[k - 1] == strings_view(b2)[k - 1]);
                assert(b2[k - 1] == b[k - 1]);
                assert(b[k - 1]@ == x@);
                assert(a2[k - 1] == a[k]);
                if k < j {
                    assert(b[k]@ == x@);
                } else {
                    assert(b[k] == x);
                }
            } else {
                assert(strings_view(a2)[k - 1] == strings_view(b2)[k - 1]);
                assert(b2[k - 1] == b[k]);
                assert(a2[k - 1] == a[k]);
            }
        }
        assert(strings_view(a) =~= strings_view(b));
    }
}

/// A model has one layout: two layouts of the same model declare the same
/// states, events, hooks, arms, guards and actions, in the same order.
pub proof fn lemma_layout_deterministic(sm: ParsedStateMachine, r1: CodePlan, r2: CodePlan)
    requires
        lays_out(r1, sm),
        lays_out(r2, sm),
    ensures
        r1.states@.map_values(|v: Variant| v.name@) == r2.states@.map_values(|v: Variant| v.name@),
        r1.events@.map_values(|v: Variant| v.name@) == r2.events@.map_values(|v: Variant| v.name@),
        forall|k: int| 0 <= k < r1.states.len() ==> opt_view((#[trigger] r1.states@[k]).data)
            == opt_view(r2.states@[k].data),
        forall|k: int| 0 <= k < r1.events.len() ==> opt_view((#[trigger] r1.events@[k]).data)
            == opt_view(r2.events@[k].data),
        r1.hooks.len() == r2.hooks.len(),
        forall|k: int| 0 <= k < r1.hooks.len() ==> (#[trigger] r1.hooks@[k]).snake@
            == r2.hooks@[k].snake@,
        arm_slots(r1.arms@) == arm_slots(r2.arms@),
        r1.rows@ == r2.rows@,
        r1.guards@ == r2.guards@,
        r1.actions@ == r2.actions@,
{
    let n1 = r1.states@.map_values(|v: Variant| v.name);
    let n2 = r2.states@.map_values(|v: Variant| v.name);
    let e1 = r1.events@.map_values(|v: Variant| v.name);
    let e2 = r2.events@.map_values(|v: Variant| v.name);
    lemma_sorted_unique(n1, n2);
    lemma_sorted_unique(e1, e2);
    let ss1 = r1.states@.map_values(|v: Variant| v.name@);
    let ss2 = r2.states@.map_values(|v: Variant| v.name@);
    assert(ss1 =~= strings_view(n1));
    assert(ss2 =~= strings_view(n2));
    assert(r1.events@.map_values(|v: Variant| v.name@) =~= strings_view(e1));
    assert(r2.events@.map_values(|v: Variant| v.name@) =~= strings_view(e2));
    assert forall|k: int| 0 <= k < r1.states.len() implies opt_view((#[trigger] r1.states@[k]).data)
        == opt_view(r2.states@[k].data) by {
        assert(ss1[k] == ss2[k]);
    }
    assert forall|k: int| 0 <= k < r1.events.len() implies opt_view((#[trigger] r1.events@[k]).data)
        == opt_view(r2.events@[k].data) by {
        assert(strings_view(e1)[k] == strings_view(e2)[k]);
    }
    assert(ss1 == ss2);
    assert(arm_slots(r1.arms@) == arm_slots(r2.arms@));
    assert(indices(r1.guards@) == indices(r2.guards@));
    assert(indices(r1.actions@) == indices(r2.actions@));
    assert(r1.guards@.len() == indices(r1.guards@).len() && r2.guards@.len() == indices(r2.guards@).len());
    assert(r1.actions@.len() == indices(r1.actions@).len() && r2.actions@.len() == indices(r2.actions@).len());
    assert(indices(r1.rows@) == indices(r2.rows@));
    assert(r1.rows@.len() == indices(r1.rows@).len() && r2.rows@.len() == indices(r2.rows@).len());
    assert(r1.rows@ =~= r2.rows@) by {
        assert forall|k: int| 0 <= k < r1.rows.len() implies r1.rows@[k] == r2.rows@[k] by {
            assert(indices(r1.rows@)[k] == indices(r2.rows@)[k]);
        }
    }
    assert(r1.guards@ =~= r2.guards@) by {
        assert forall|k: int| 0 <= k < r1.guards.len() implies r1.guards@[k] == r2.guards@[k] by {
            assert(indices(r1.guards@)[k] == indices(r2.guards@)[k]);
        }
    }
    assert(r1.actions@ =~= r2.actions@) by {
        assert forall|k: int| 0 <= k < r1.actions.len() implies r1.actions@[k] == r2.actions@[k] by {
            assert(indices(r1.actions@)[k] == indices(r2.actions@)[k]);
        }
    }
}

proof fn lemma_in_multiset<A>(a: Seq<A>, b: Seq<A>, i: int)
    requires
        a.to_multiset() == b.to_multiset(),
        0 <= i < a.len(),
    ensures
        exists|k: int| 0 <= k < b.len() && b[k] == a[i],
{
    a.to_multiset_ensures();
    b.to_multiset_ensures();
    assert(a.to_multiset().count(a[i]) > 0);
}

} // verus!

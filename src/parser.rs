//! Semantic analysis: turns the declared transitions into the checked model
//! of the machine, with its states, events, payloads and transition table.

use vstd::prelude::*;
use crate::model::{
    get_lifetimes, lifetimes_of, opt_view, strings_view, DataDefinitions, DataEntry,
    EventMapping, Slot, StateMachine, StateTransition, TypeRef, TypeShape,
};

verus! {

/// Why a specification was rejected.
pub enum BuildError {
    MissingStartState,
    MultipleStartStates,
    /// A name recurs with a payload type that differs from its first one.
    TypeMismatch { name: String },
    /// A payload is a reference whose lifetime is not written.
    UndefinedLifetime { name: String },
    /// A (state, event) pair is given more than one transition.
    DuplicateTransition { state: String, event: String },
    /// A transition enters a state with a payload but has no action to make it.
    MissingActionForDataState { state: String },
}

/// One mention of a name, with the payload type written there, if any.
pub type Mention = (Seq<char>, Option<TypeRef>);

/// The payload type recorded for `n`; names are unique in `ft`.
pub open spec fn type_for(ft: Seq<(Seq<char>, TypeRef)>, n: Seq<char>) -> Option<TypeRef>
    decreases ft.len(),
{
    if ft.len() == 0 {
        None
    } else if ft.last().0 == n {
        Some(ft.last().1)
    } else {
        type_for(ft.drop_last(), n)
    }
}

/// Each name that is mentioned with a payload, with the first payload type
/// it was given, in the order those first payloads appear.
pub open spec fn first_types(ms: Seq<Mention>) -> Seq<(Seq<char>, TypeRef)>
    decreases ms.len(),
{
    if ms.len() == 0 {
        Seq::empty()
    } else {
        let p = first_types(ms.drop_last());
        let m = ms.last();
        if m.1 is Some && type_for(p, m.0) is None {
            p.push((m.0, m.1->0))
        } else {
            p
        }
    }
}

/// Once a name has been given a payload, every later mention of it gives
/// the same payload type.
pub open spec fn consistent(ms: Seq<Mention>) -> bool
    decreases ms.len(),
{
    ms.len() == 0 || {
        &&& consistent(ms.drop_last())
        &&& match type_for(first_types(ms.drop_last()), ms.last().0) {
            Some(t) => ms.last().1 is Some && ms.last().1->0.text@ == t.text@,
            None => true,
        }
    }
}

/// Every payload written has known lifetime parameters.
pub open spec fn lifetimes_defined(ms: Seq<Mention>) -> bool {
    forall|i: int| 0 <= i < ms.len() && (#[trigger] ms[i]).1 is Some
        ==> lifetimes_of(ms[i].1->0) is Some
}

/// `acc` extended by each of `ls` that it does not hold yet, in order.
pub open spec fn add_all(acc: Seq<Seq<char>>, ls: Seq<Seq<char>>) -> Seq<Seq<char>>
    decreases ls.len(),
{
    if ls.len() == 0 {
        acc
    } else {
        let p = add_all(acc, ls.drop_last());
        if p.contains(ls.last()) {
            p
        } else {
            p.push(ls.last())
        }
    }
}

/// Every lifetime parameter of the recorded payloads, each once, in order of
/// first use.
pub open spec fn lifetime_list(ft: Seq<(Seq<char>, TypeRef)>) -> Seq<Seq<char>>
    decreases ft.len(),
{
    if ft.len() == 0 {
        Seq::empty()
    } else {
        match lifetimes_of(ft.last().1) {
            Some(ls) => add_all(lifetime_list(ft.drop_last()), ls),
            None => lifetime_list(ft.drop_last()),
        }
    }
}

pub open spec fn no_dups(s: Seq<Seq<char>>) -> bool {
    forall|a: int, b: int| 0 <= a < b < s.len() ==> s[a] != s[b]
}

pub open spec fn unique_names(ft: Seq<(Seq<char>, TypeRef)>) -> bool {
    forall|a: int, b: int| 0 <= a < b < ft.len() ==> ft[a].0 != ft[b].0
}

/// The entry records the payload type `t`.
pub open spec fn entry_models(e: DataEntry, t: TypeRef) -> bool {
    &&& e.text@ == t.text@
    &&& e.is_reference == (t.shape is Reference)
    &&& lifetimes_of(t) == Some(strings_view(e.lifetimes@))
}

/// The definitions record exactly the payloads of the mentions `ms`.
pub open spec fn defs_model(d: DataDefinitions, ms: Seq<Mention>) -> bool {
    let ft = first_types(ms);
    &&& d.entries@.len() == ft.len()
    &&& forall|k: int| 0 <= k < ft.len() ==> (#[trigger] d.entries@[k]).name@ == ft[k].0
        && entry_models(d.entries@[k], ft[k].1)
    &&& strings_view(d.all_lifetimes@) == lifetime_list(ft)
}

proof fn lemma_type_for_none(ft: Seq<(Seq<char>, TypeRef)>, n: Seq<char>)
    ensures
        type_for(ft, n) is None <==> forall|k: int| 0 <= k < ft.len() ==> ft[k].0 != n,
    decreases ft.len(),
{
    if ft.len() > 0 {
        lemma_type_for_none(ft.drop_last(), n);
        assert forall|k: int| 0 <= k < ft.len() - 1 implies ft.drop_last()[k] == ft[k] by {}
    }
}

proof fn lemma_type_for_at(ft: Seq<(Seq<char>, TypeRef)>, k: int)
    requires
        unique_names(ft),
        0 <= k < ft.len(),
    ensures
        type_for(ft, ft[k].0) == Some(ft[k].1),
    decreases ft.len(),
{
    if k < ft.len() - 1 {
        assert(ft.drop_last()[k] == ft[k]);
        lemma_type_for_at(ft.drop_last(), k);
    }
}

proof fn lemma_first_types_unique(ms: Seq<Mention>)
    ensures
        unique_names(first_types(ms)),
    decreases ms.len(),
{
    if ms.len() > 0 {
        let p = first_types(ms.drop_last());
        lemma_first_types_unique(ms.drop_last());
        lemma_type_for_none(p, ms.last().0);
    }
}

proof fn lemma_add_all_no_dups(acc: Seq<Seq<char>>, ls: Seq<Seq<char>>)
    requires
        no_dups(acc),
    ensures
        no_dups(add_all(acc, ls)),
    decreases ls.len(),
{
    if ls.len() > 0 {
        lemma_add_all_no_dups(acc, ls.drop_last());
    }
}

proof fn lemma_lifetime_list_no_dups(ft: Seq<(Seq<char>, TypeRef)>)
    ensures
        no_dups(lifetime_list(ft)),
    decreases ft.len(),
{
    if ft.len() > 0 {
        lemma_lifetime_list_no_dups(ft.drop_last());
        if let Some(ls) = lifetimes_of(ft.last().1) {
            lemma_add_all_no_dups(lifetime_list(ft.drop_last()), ls);
        }
    }
}

/// The lifetime parameters recorded for a namespace are each listed once.
pub proof fn lemma_lifetimes_listed_once(d: DataDefinitions, ms: Seq<Mention>)
    requires
        defs_model(d, ms),
    ensures
        no_dups(strings_view(d.all_lifetimes@)),
{
    lemma_lifetime_list_no_dups(first_types(ms));
}

fn is_reference(t: &TypeRef) -> (r: bool)
    ensures
        r == (t.shape is Reference),
{
    match &t.shape {
        TypeShape::Reference { .. } => true,
        _ => false,
    }
}

/// Adds each lifetime not listed yet, in order.
fn add_lifetimes(all: &mut Vec<String>, new: &Vec<String>)
    ensures
        strings_view(final(all)@) == add_all(strings_view(old(all)@), strings_view(new@)),
{
    let ghost start = strings_view(all@);
    let mut i: usize = 0;
    while i < new.len()
        invariant
            i <= new.len(),
            strings_view(all@) == add_all(start, strings_view(new@.take(i as int))),
        decreases new.len() - i,
    {
        let mut j: usize = 0;
        let mut found = false;
        while j < all.len()
            invariant
                i < new.len(),
                j <= all.len(),
                found ==> strings_view(all@).contains(new@[i as int]@),
                !found ==> forall|k: int| 0 <= k < j ==> all@[k]@ != new@[i as int]@,
            decreases all.len() - j,
        {
            if all[j] == new[i] {
                found = true;
                assert(strings_view(all@)[j as int] == new@[i as int]@);
            }
            j = j + 1;
        }
        let ghost prev = all@;
        let ghost ls = strings_view(new@.take(i + 1));
        assert(ls.drop_last() =~= strings_view(new@.take(i as int)));
        assert(ls.last() == new@[i as int]@);
        if !found {
            all.push(new[i].clone());
            assert(strings_view(all@) =~= strings_view(prev).push(new@[i as int]@));
            assert(!strings_view(prev).contains(new@[i as int]@));
        }
        i = i + 1;
    }
    assert(new@.take(i as int) =~= new@);
}

/// The index of the entry named `key`, if there is one.
fn find_entry(entries: &Vec<DataEntry>, key: &String) -> (r: Option<usize>)
    ensures
        match r {
            Some(k) => k < entries.len() && entries@[k as int].name@ == key@,
            None => forall|k: int| 0 <= k < entries.len() ==> entries@[k].name@ != key@,
        },
{
    let mut k: usize = 0;
    while k < entries.len()
        invariant
            k <= entries.len(),
            forall|a: int| 0 <= a < k ==> entries@[a].name@ != key@,
        decreases entries.len() - k,
    {
        if entries[k].name == *key {
            return Some(k);
        }
        k = k + 1;
    }
    None
}

/// Records one mention of `key` with its payload type, checking it against
/// the payload that `key` was first given.
fn collect_data_type(
    key: &String,
    data_type: &Option<TypeRef>,
    definitions: &mut DataDefinitions,
    Ghost(ms): Ghost<Seq<Mention>>,
) -> (r: Result<(), BuildError>)
    requires
        defs_model(*old(definitions), ms),
        consistent(ms),
        lifetimes_defined(ms),
    ensures
        match r {
            Ok(()) => {
                &&& defs_model(*final(definitions), ms.push((key@, *data_type)))
                &&& consistent(ms.push((key@, *data_type)))
                &&& lifetimes_defined(ms.push((key@, *data_type)))
            },
            Err(_) => *final(definitions) == *old(definitions),
        },
        r matches Err(BuildError::TypeMismatch { .. }) <==> !consistent(ms.push((key@, *data_type))),
        r matches Err(BuildError::UndefinedLifetime { .. }) <==> (consistent(
            ms.push((key@, *data_type)),
        ) && (*data_type matches Some(t) && lifetimes_of(t) is None)),
        r is Err ==> r matches Err(BuildError::TypeMismatch { .. }) || r matches Err(
            BuildError::UndefinedLifetime { .. },
        ),
{
    let ghost ms2 = ms.push((key@, *data_type));
    let ghost ft = first_types(ms);
    assert(ms2.drop_last() =~= ms);
    proof {
        lemma_first_types_unique(ms);
        lemma_type_for_none(ft, key@);
    }
    let defined = match data_type {
        Some(t) => get_lifetimes(t).is_ok(),
        None => true,
    };
    assert(ms2[ms.len() as int] == (key@, *data_type));
    if defined {
        assert forall|i: int| 0 <= i < ms2.len() && (#[trigger] ms2[i]).1 is Some implies lifetimes_of(
            ms2[i].1->0,
        ) is Some by {
            if i < ms.len() {
                assert(ms2[i] == ms[i]);
            }
        }
    }
    match find_entry(&definitions.entries, key) {
        Some(k) => {
            proof {
                lemma_type_for_at(ft, k as int);
            }
            match data_type {
                None => Err(BuildError::TypeMismatch { name: key.clone() }),
                Some(t) => {
                    if t.text == definitions.entries[k].text {
                        assert(first_types(ms2) == ft);
                        assert(consistent(ms2));
                        if !defined {
                            return Err(BuildError::UndefinedLifetime { name: key.clone() });
                        }
                        Ok(())
                    } else {
                        Err(BuildError::TypeMismatch { name: key.clone() })
                    }
                },
            }
        },
        None => {
            assert forall|k: int| 0 <= k < ft.len() implies ft[k].0 != key@ by {
                assert(definitions.entries@[k].name@ == ft[k].0);
            }
            assert(type_for(ft, key@) is None);
            assert(consistent(ms2));
            match data_type {
                None => {
                    assert(first_types(ms2) == ft);
                    Ok(())
                },
                Some(t) => {
                    let lifetimes = match get_lifetimes(t) {
                        Ok(ls) => ls,
                        Err(_) => {
                            return Err(BuildError::UndefinedLifetime { name: key.clone() });
                        },
                    };
                    let ghost old_defs = *definitions;
                    add_lifetimes(&mut definitions.all_lifetimes, &lifetimes);
                    let entry = DataEntry {
                        name: key.clone(),
                        text: t.text.clone(),
                        is_reference: is_reference(t),
                        lifetimes,
                    };
                    definitions.entries.push(entry);
                    let ghost ft2 = first_types(ms2);
                    assert(ft2 == ft.push((key@, *t)));
                    assert(ft2.drop_last() =~= ft);
                    assert forall|k: int| 0 <= k < ft2.len() implies (
                    #[trigger] definitions.entries@[k]).name@ == ft2[k].0 && entry_models(
                        definitions.entries@[k],
                        ft2[k].1,
                    ) by {
                        if k < ft.len() {
                            assert(definitions.entries@[k] == old_defs.entries@[k]);
                        }
                    }
                    Ok(())
                },
            }
        },
    }
}

/// The state mentions of one transition: its in-state unless that is a
/// wildcard, then its out-state.
pub open spec fn transition_state_mentions(t: StateTransition) -> Seq<Mention> {
    if t.in_state.wildcard {
        seq![(t.out_state@, t.out_state_data_type)]
    } else {
        seq![(t.in_state.name@, t.in_state.data_type), (t.out_state@, t.out_state_data_type)]
    }
}

/// Every mention of a state name, in declaration order.
pub open spec fn state_mentions(ts: Seq<StateTransition>) -> Seq<Mention>
    decreases ts.len(),
{
    if ts.len() == 0 {
        Seq::empty()
    } else {
        state_mentions(ts.drop_last()) + transition_state_mentions(ts.last())
    }
}

/// Every mention of an event name, in declaration order.
pub open spec fn event_mentions(ts: Seq<StateTransition>) -> Seq<Mention>
    decreases ts.len(),
{
    if ts.len() == 0 {
        Seq::empty()
    } else {
        event_mentions(ts.drop_last()).push((ts.last().event@, ts.last().event_data_type))
    }
}

/// The names mentioned, each once, in order of first mention.
pub open spec fn distinct_names(ms: Seq<Mention>) -> Seq<Seq<char>>
    decreases ms.len(),
{
    if ms.len() == 0 {
        Seq::empty()
    } else {
        let p = distinct_names(ms.drop_last());
        if p.contains(ms.last().0) {
            p
        } else {
            p.push(ms.last().0)
        }
    }
}

/// How many transitions mark their in-state as the start.
pub open spec fn start_count(ts: Seq<StateTransition>) -> nat
    decreases ts.len(),
{
    if ts.len() == 0 {
        0
    } else {
        start_count(ts.drop_last()) + if ts.last().in_state.start {
            1nat
        } else {
            0nat
        }
    }
}

/// The table slot that transition `t` gives state `s`.
pub open spec fn slot_of(s: Seq<char>, t: StateTransition) -> Slot {
    Slot {
        in_state: s,
        event: t.event@,
        guard: opt_view(t.guard),
        action: opt_view(t.action),
        out_state: t.out_state@,
    }
}

/// The slots of one transition: one for each known state if its in-state is
/// a wildcard, else one for its in-state.
pub open spec fn slots_of(t: StateTransition, states: Seq<Seq<char>>) -> Seq<Slot> {
    if t.in_state.wildcard {
        states.map_values(|s: Seq<char>| slot_of(s, t))
    } else {
        seq![slot_of(t.in_state.name@, t)]
    }
}

/// The transitions with every wildcard expanded over `states`, in order.
pub open spec fn expand(ts: Seq<StateTransition>, states: Seq<Seq<char>>) -> Seq<Slot>
    decreases ts.len(),
{
    if ts.len() == 0 {
        Seq::empty()
    } else {
        expand(ts.drop_last(), states) + slots_of(ts.last(), states)
    }
}

/// No (state, event) pair has two slots.
pub open spec fn no_duplicate_slots(sl: Seq<Slot>) -> bool {
    forall|a: int, b: int|
        0 <= a < b < sl.len() ==> !(sl[a].in_state == sl[b].in_state && sl[a].event
            == sl[b].event)
}

/// Every slot that enters a state with a payload has an action to make it.
pub open spec fn actions_supplied(sl: Seq<Slot>, sms: Seq<Mention>) -> bool {
    forall|i: int|
        0 <= i < sl.len() && (#[trigger] sl[i]).action is None ==> type_for(
            first_types(sms),
            sl[i].out_state,
        ) is None
}

pub open spec fn table_view(v: Seq<EventMapping>) -> Seq<Slot> {
    v.map_values(|e: EventMapping| e@)
}

/// `n` is the name of a state marked as the start.
pub open spec fn is_start_name(ts: Seq<StateTransition>, n: Seq<char>) -> bool {
    exists|i: int| 0 <= i < ts.len() && (#[trigger] ts[i]).in_state.start && ts[i].in_state.name@ == n
}

/// Some slot with an action enters `n`.
pub open spec fn entered_by_action(sl: Seq<Slot>, n: Seq<char>) -> bool {
    exists|i: int| 0 <= i < sl.len() && (#[trigger] sl[i]).out_state == n && sl[i].action is Some
}

/// Every state with a payload, but the start, is entered by some slot with
/// an action, which makes that payload.
pub open spec fn payloads_supplied(sl: Seq<Slot>, sms: Seq<Mention>, ts: Seq<StateTransition>) -> bool {
    let ft = first_types(sms);
    forall|k: int|
        0 <= k < ft.len() && !is_start_name(ts, (#[trigger] ft[k]).0) ==> entered_by_action(
            sl,
            ft[k].0,
        )
}

/// Everything a specification must satisfy to be accepted.
pub open spec fn accepted(ts: Seq<StateTransition>) -> bool {
    let sms = state_mentions(ts);
    let ems = event_mentions(ts);
    let sl = expand(ts, distinct_names(sms));
    &&& start_count(ts) == 1
    &&& consistent(sms)
    &&& consistent(ems)
    &&& lifetimes_defined(sms)
    &&& lifetimes_defined(ems)
    &&& no_duplicate_slots(sl)
    &&& actions_supplied(sl, sms)
    &&& payloads_supplied(sl, sms, ts)
}

/// The transitions break the rule of one slot per (state, event) pair, and
/// no other.
pub open spec fn only_duplicates(ts: Seq<StateTransition>) -> bool {
    let sms = state_mentions(ts);
    let ems = event_mentions(ts);
    let sl = expand(ts, distinct_names(sms));
    &&& start_count(ts) == 1
    &&& consistent(sms) && consistent(ems)
    &&& lifetimes_defined(sms) && lifetimes_defined(ems)
    &&& !no_duplicate_slots(sl)
    &&& actions_supplied(sl, sms)
}

/// Some state with a payload is entered without an action to make it, or
/// (but for the start) never by a slot with an action; no other rule is
/// broken.
pub open spec fn only_missing_actions(ts: Seq<StateTransition>) -> bool {
    let sms = state_mentions(ts);
    let ems = event_mentions(ts);
    let sl = expand(ts, distinct_names(sms));
    &&& start_count(ts) == 1
    &&& consistent(sms) && consistent(ems)
    &&& lifetimes_defined(sms) && lifetimes_defined(ems)
    &&& no_duplicate_slots(sl)
    &&& !(actions_supplied(sl, sms) && payloads_supplied(sl, sms, ts))
}

/// The error `e` is one that the transitions `ts` do commit.
pub open spec fn explains(e: BuildError, ts: Seq<StateTransition>) -> bool {
    let sms = state_mentions(ts);
    let ems = event_mentions(ts);
    let sl = expand(ts, distinct_names(sms));
    match e {
        BuildError::MissingStartState => start_count(ts) == 0,
        BuildError::MultipleStartStates => start_count(ts) >= 2,
        BuildError::TypeMismatch { .. } => start_count(ts) == 1 && !(consistent(sms)
            && consistent(ems)),
        BuildError::UndefinedLifetime { .. } => start_count(ts) == 1 && !(lifetimes_defined(sms)
            && lifetimes_defined(ems)),
        BuildError::DuplicateTransition { .. } => start_count(ts) == 1 && !no_duplicate_slots(
            sl,
        ),
        BuildError::MissingActionForDataState { .. } => start_count(ts) == 1
            && !(actions_supplied(sl, sms) && payloads_supplied(sl, sms, ts)),
    }
}

proof fn lemma_consistent_take(ms: Seq<Mention>, n: int)
    requires
        consistent(ms),
        0 <= n <= ms.len(),
    ensures
        consistent(ms.take(n)),
    decreases ms.len(),
{
    if n < ms.len() {
        assert(ms.drop_last().take(n) =~= ms.take(n));
        lemma_consistent_take(ms.drop_last(), n);
    } else {
        assert(ms.take(n) =~= ms);
    }
}

proof fn lemma_state_mentions_prefix(ts: Seq<StateTransition>, i: int)
    requires
        0 <= i <= ts.len(),
    ensures
        state_mentions(ts.take(i)).len() <= state_mentions(ts).len(),
        state_mentions(ts.take(i)) == state_mentions(ts).take(state_mentions(ts.take(i)).len() as int),
    decreases ts.len(),
{
    if i < ts.len() {
        assert(ts.drop_last().take(i) =~= ts.take(i));
        lemma_state_mentions_prefix(ts.drop_last(), i);
        let a = state_mentions(ts.take(i));
        assert(a =~= state_mentions(ts).take(a.len() as int));
    } else {
        assert(ts.take(i) =~= ts);
        assert(state_mentions(ts) =~= state_mentions(ts).take(state_mentions(ts).len() as int));
    }
}

proof fn lemma_event_mentions_prefix(ts: Seq<StateTransition>, i: int)
    requires
        0 <= i <= ts.len(),
    ensures
        event_mentions(ts.take(i)).len() <= event_mentions(ts).len(),
        event_mentions(ts.take(i)) == event_mentions(ts).take(event_mentions(ts.take(i)).len() as int),
    decreases ts.len(),
{
    if i < ts.len() {
        assert(ts.drop_last().take(i) =~= ts.take(i));
        lemma_event_mentions_prefix(ts.drop_last(), i);
        let a = event_mentions(ts.take(i));
        assert(a =~= event_mentions(ts).take(a.len() as int));
    } else {
        assert(ts.take(i) =~= ts);
        assert(event_mentions(ts) =~= event_mentions(ts).take(event_mentions(ts).len() as int));
    }
}

proof fn lemma_expand_prefix(ts: Seq<StateTransition>, sv: Seq<Seq<char>>, i: int)
    requires
        0 <= i <= ts.len(),
    ensures
        expand(ts.take(i), sv).len() <= expand(ts, sv).len(),
        expand(ts.take(i), sv) == expand(ts, sv).take(expand(ts.take(i), sv).len() as int),
    decreases ts.len(),
{
    if i < ts.len() {
        assert(ts.drop_last().take(i) =~= ts.take(i));
        lemma_expand_prefix(ts.drop_last(), sv, i);
        let a = expand(ts.take(i), sv);
        assert(a =~= expand(ts, sv).take(a.len() as int));
    } else {
        assert(ts.take(i) =~= ts);
        assert(expand(ts, sv) =~= expand(ts, sv).take(expand(ts, sv).len() as int));
    }
}

/// Whether some slot with an action enters `n`.
fn supplies_payload(table: &Vec<EventMapping>, n: &String) -> (r: bool)
    ensures
        r == entered_by_action(table_view(table@), n@),
{
    let ghost sl = table_view(table@);
    let mut i: usize = 0;
    while i < table.len()
        invariant
            i <= table.len(),
            sl == table_view(table@),
            forall|j: int| 0 <= j < i ==> !(sl[j].out_state == n@ && sl[j].action is Some),
        decreases table.len() - i,
    {
        if table[i].out_state == *n && table[i].action.is_some() {
            assert(sl[i as int].out_state == n@ && sl[i as int].action is Some);
            return true;
        }
        i = i + 1;
    }
    false
}

/// Adds `n` to the names unless it is there already.
fn add_name(names: &mut Vec<String>, n: &String)
    ensures
        strings_view(final(names)@) == if strings_view(old(names)@).contains(n@) {
            strings_view(old(names)@)
        } else {
            strings_view(old(names)@).push(n@)
        },
{
    let mut k: usize = 0;
    while k < names.len()
        invariant
            k <= names.len(),
            forall|a: int| 0 <= a < k ==> names@[a]@ != n@,
        decreases names.len() - k,
    {
        if names[k] == *n {
            assert(strings_view(names@)[k as int] == n@);
            return;
        }
        k = k + 1;
    }
    let ghost prev = names@;
    names.push(n.clone());
    assert(strings_view(names@) =~= strings_view(prev).push(n@));
}

fn copy_name(o: &Option<String>) -> (r: Option<String>)
    ensures
        r == *o,
{
    match o {
        Some(s) => Some(s.clone()),
        None => None,
    }
}

/// Adds the slot that transition `t` gives `in_state` to the table, unless
/// the pair already has one or the slot would enter a state with a payload
/// without an action to make it.
fn add_transition(
    in_state: &String,
    t: &StateTransition,
    table: &mut Vec<EventMapping>,
    state_data: &DataDefinitions,
    Ghost(sms): Ghost<Seq<Mention>>,
) -> (r: Result<(), BuildError>)
    requires
        defs_model(*state_data, sms),
        no_duplicate_slots(table_view(old(table)@)),
    ensures
        match r {
            Ok(()) => {
                &&& table_view(final(table)@) == table_view(old(table)@).push(slot_of(in_state@, *t))
                &&& no_duplicate_slots(table_view(final(table)@))
                &&& actions_supplied(table_view(old(table)@), sms) ==> actions_supplied(
                    table_view(final(table)@),
                    sms,
                )
            },
            Err(_) => final(table)@ == old(table)@,
        },
        r matches Err(BuildError::DuplicateTransition { .. }) <==> !no_duplicate_slots(
            table_view(old(table)@).push(slot_of(in_state@, *t)),
        ),
        r matches Err(BuildError::MissingActionForDataState { .. }) <==> (no_duplicate_slots(
            table_view(old(table)@).push(slot_of(in_state@, *t)),
        ) && t.action is None && type_for(first_types(sms), t.out_state@) is Some),
        r matches Err(BuildError::MissingActionForDataState { .. }) ==> !actions_supplied(
            table_view(old(table)@).push(slot_of(in_state@, *t)),
            sms,
        ),
        r is Err ==> r matches Err(BuildError::DuplicateTransition { .. }) || r matches Err(
            BuildError::MissingActionForDataState { .. },
        ),
{
    let ghost slot = slot_of(in_state@, *t);
    let ghost old_view = table_view(table@);
    let ghost new_view = old_view.push(slot);
    let mut k: usize = 0;
    while k < table.len()
        invariant
            k <= table.len(),
            old_view == table_view(table@),
            new_view == old_view.push(slot),
            slot == slot_of(in_state@, *t),
            forall|a: int| 0 <= a < k ==> !(table@[a].in_state@ == in_state@ && table@[a].event@ == t.event@),
        decreases table.len() - k,
    {
        if table[k].in_state == *in_state && table[k].event == t.event {
            assert(new_view[k as int] == table@[k as int]@);
            assert(new_view[old_view.len() as int] == slot);
            return Err(BuildError::DuplicateTransition {
                state: in_state.clone(),
                event: t.event.clone(),
            });
        }
        k = k + 1;
    }
    assert forall|a: int, b: int| 0 <= a < b < new_view.len() implies !(new_view[a].in_state
        == new_view[b].in_state && new_view[a].event == new_view[b].event) by {
        if b == old_view.len() {
            assert(new_view[a] == table@[a]@);
        } else {
            assert(new_view[a] == old_view[a] && new_view[b] == old_view[b]);
        }
    }
    let ghost ft = first_types(sms);
    if t.action.is_none() {
        if let Some(e) = find_entry(&state_data.entries, &t.out_state) {
            proof {
                lemma_type_for_none(ft, t.out_state@);
                assert(state_data.entries@[e as int].name@ == ft[e as int].0);
                assert(new_view[old_view.len() as int] == slot);
            }
            return Err(BuildError::MissingActionForDataState { state: t.out_state.clone() });
        }
        proof {
            lemma_type_for_none(ft, t.out_state@);
            assert forall|a: int| 0 <= a < ft.len() implies ft[a].0 != t.out_state@ by {
                assert(state_data.entries@[a].name@ == ft[a].0);
            }
        }
    }
    table.push(EventMapping {
        in_state: in_state.clone(),
        event: t.event.clone(),
        guard: copy_name(&t.guard),
        action: copy_name(&t.action),
        out_state: t.out_state.clone(),
    });
    assert(table_view(table@) =~= new_view);
    assert forall|a: int| 0 <= a < new_view.len() && (#[trigger] new_view[a]).action is None
        && actions_supplied(old_view, sms) implies type_for(ft, new_view[a].out_state) is None by {
        if a < old_view.len() {
            assert(old_view[a] == new_view[a]);
        }
    }
    Ok(())
}

proof fn lemma_mentions_part(full: Seq<Mention>, part: Seq<Mention>)
    requires
        part.len() <= full.len(),
        part == full.take(part.len() as int),
    ensures
        consistent(full) ==> consistent(part),
        lifetimes_defined(full) ==> lifetimes_defined(part),
{
    if consistent(full) {
        lemma_consistent_take(full, part.len() as int);
    }
    assert forall|i: int| 0 <= i < part.len() implies part[i] == full[i] by {}
}

proof fn lemma_slots_part(full: Seq<Slot>, part: Seq<Slot>, sms: Seq<Mention>)
    requires
        part.len() <= full.len(),
        part == full.take(part.len() as int),
    ensures
        no_duplicate_slots(full) ==> no_duplicate_slots(part),
        actions_supplied(full, sms) ==> actions_supplied(part, sms),
{
    assert forall|i: int| 0 <= i < part.len() implies part[i] == full[i] by {}
}

proof fn lemma_single_start(ts: Seq<StateTransition>, i: int, j: int)
    requires
        start_count(ts) == 1,
        0 <= i < ts.len() && ts[i].in_state.start,
        0 <= j < ts.len() && ts[j].in_state.start,
    ensures
        i == j,
    decreases ts.len(),
{
    if i < ts.len() - 1 && j < ts.len() - 1 {
        assert(ts.drop_last()[i] == ts[i] && ts.drop_last()[j] == ts[j]);
        lemma_start_count_positive_at(ts.drop_last(), i);
        lemma_single_start(ts.drop_last(), i, j);
    } else if i < ts.len() - 1 {
        assert(ts.drop_last()[i] == ts[i]);
        lemma_start_count_positive_at(ts.drop_last(), i);
    } else if j < ts.len() - 1 {
        assert(ts.drop_last()[j] == ts[j]);
        lemma_start_count_positive_at(ts.drop_last(), j);
    }
}

proof fn lemma_start_count_positive_at(ts: Seq<StateTransition>, i: int)
    requires
        0 <= i < ts.len() && ts[i].in_state.start,
    ensures
        start_count(ts) >= 1,
    decreases ts.len(),
{
    if i < ts.len() - 1 {
        assert(ts.drop_last()[i] == ts[i]);
        lemma_start_count_positive_at(ts.drop_last(), i);
    }
}

/// The model of a specification is determined by its transitions: two
/// models of the same transitions agree on states, events, payloads, table
/// and start.
pub proof fn lemma_model_deterministic(
    m1: ParsedStateMachine,
    m2: ParsedStateMachine,
    ts: Seq<StateTransition>,
)
    requires
        start_count(ts) == 1,
        m1.models(ts),
        m2.models(ts),
    ensures
        strings_view(m1.states@) == strings_view(m2.states@),
        strings_view(m1.events@) == strings_view(m2.events@),
        table_view(m1.transitions@) == table_view(m2.transitions@),
        m1.starting_state@ == m2.starting_state@,
        same_definitions(m1.state_data, m2.state_data),
        same_definitions(m1.event_data, m2.event_data),
{
    let i = choose|i: int|
        0 <= i < ts.len() && (#[trigger] ts[i]).in_state.start && m1.starting_state@
            == ts[i].in_state.name@;
    let j = choose|j: int|
        0 <= j < ts.len() && (#[trigger] ts[j]).in_state.start && m2.starting_state@
            == ts[j].in_state.name@;
    lemma_single_start(ts, i, j);
    lemma_defs_deterministic(m1.state_data, m2.state_data, state_mentions(ts));
    lemma_defs_deterministic(m1.event_data, m2.event_data, event_mentions(ts));
}

/// The two definitions record the same names, payload types and lifetimes.
pub open spec fn same_definitions(a: DataDefinitions, b: DataDefinitions) -> bool {
    &&& a.entries@.len() == b.entries@.len()
    &&& forall|k: int| 0 <= k < a.entries@.len() ==> {
        &&& (#[trigger] a.entries@[k]).name@ == b.entries@[k].name@
        &&& a.entries@[k].text@ == b.entries@[k].text@
        &&& a.entries@[k].is_reference == b.entries@[k].is_reference
        &&& strings_view(a.entries@[k].lifetimes@) == strings_view(b.entries@[k].lifetimes@)
    }
    &&& strings_view(a.all_lifetimes@) == strings_view(b.all_lifetimes@)
}

proof fn lemma_defs_deterministic(a: DataDefinitions, b: DataDefinitions, ms: Seq<Mention>)
    requires
        defs_model(a, ms),
        defs_model(b, ms),
    ensures
        same_definitions(a, b),
{
    let ft = first_types(ms);
    assert forall|k: int| 0 <= k < a.entries@.len() implies {
        &&& (#[trigger] a.entries@[k]).name@ == b.entries@[k].name@
        &&& a.entries@[k].text@ == b.entries@[k].text@
        &&& a.entries@[k].is_reference == b.entries@[k].is_reference
        &&& strings_view(a.entries@[k].lifetimes@) == strings_view(b.entries@[k].lifetimes@)
    } by {
        assert(a.entries@[k].name@ == ft[k].0 && entry_models(a.entries@[k], ft[k].1));
        assert(b.entries@[k].name@ == ft[k].0 && entry_models(b.entries@[k], ft[k].1));
    }
}

proof fn lemma_in_mentions(ts: Seq<StateTransition>, i: int)
    requires
        0 <= i < ts.len(),
        !ts[i].in_state.wildcard,
    ensures
        state_mentions(ts).contains((ts[i].in_state.name@, ts[i].in_state.data_type)),
    decreases ts.len(),
{
    let m = (ts[i].in_state.name@, ts[i].in_state.data_type);
    let tail = transition_state_mentions(ts.last());
    if i == ts.len() - 1 {
        assert(state_mentions(ts)[state_mentions(ts.drop_last()).len() as int] == tail[0]);
    } else {
        assert(ts.drop_last()[i] == ts[i]);
        lemma_in_mentions(ts.drop_last(), i);
        let j = choose|j: int| 0 <= j < state_mentions(ts.drop_last()).len() && state_mentions(ts.drop_last())[j] == m;
        assert(state_mentions(ts)[j] == m);
    }
}

proof fn lemma_distinct_contains(ms: Seq<Mention>, j: int)
    requires
        0 <= j < ms.len(),
    ensures
        distinct_names(ms).contains(ms[j].0),
    decreases ms.len(),
{
    let p = distinct_names(ms.drop_last());
    if j < ms.len() - 1 {
        assert(ms.drop_last()[j] == ms[j]);
        lemma_distinct_contains(ms.drop_last(), j);
        let k = choose|k: int| 0 <= k < p.len() && p[k] == ms[j].0;
        assert(distinct_names(ms)[k] == ms[j].0);
    } else if !p.contains(ms.last().0) {
        assert(distinct_names(ms)[p.len() as int] == ms[j].0);
    }
}

/// The checked model of a state machine: its states and events, the payloads
/// they carry, and the transition table with every wildcard expanded.
pub struct ParsedStateMachine {
    pub temporary_context_type: Option<TypeRef>,
    pub guard_error: Option<TypeRef>,
    /// Each state once, in order of first mention.
    pub states: Vec<String>,
    pub starting_state: String,
    pub state_data: DataDefinitions,
    /// Each event once, in order of first mention.
    pub events: Vec<String>,
    pub event_data: DataDefinitions,
    /// One entry per (state, event) slot.
    pub transitions: Vec<EventMapping>,
}

impl ParsedStateMachine {
    /// This is the model that the transitions `ts` describe.
    pub open spec fn models(self, ts: Seq<StateTransition>) -> bool {
        let sms = state_mentions(ts);
        let ems = event_mentions(ts);
        &&& strings_view(self.states@) == distinct_names(sms)
        &&& strings_view(self.events@) == distinct_names(ems)
        &&& defs_model(self.state_data, sms)
        &&& defs_model(self.event_data, ems)
        &&& table_view(self.transitions@) == expand(ts, distinct_names(sms))
        &&& exists|i: int|
            0 <= i < ts.len() && (#[trigger] ts[i]).in_state.start && self.starting_state@
                == ts[i].in_state.name@
    }

    /// Builds the model of a specification, or names a rule that it breaks.
    pub fn new(sm: StateMachine) -> (r: Result<ParsedStateMachine, BuildError>)
        ensures
            r is Ok <==> accepted(sm.transitions@),
            start_count(sm.transitions@) == 0 <==> r matches Err(BuildError::MissingStartState),
            start_count(sm.transitions@) >= 2 <==> r matches Err(BuildError::MultipleStartStates),
            only_duplicates(sm.transitions@) ==> r matches Err(
                BuildError::DuplicateTransition { .. },
            ),
            only_missing_actions(sm.transitions@) ==> r matches Err(
                BuildError::MissingActionForDataState { .. },
            ),
            match r {
                Ok(m) => {
                    &&& forall|i: int|
                        0 <= i < sm.transitions@.len() && (#[trigger] sm.transitions@[i]).in_state.start
                            && !sm.transitions@[i].in_state.wildcard ==> strings_view(m.states@).contains(
                            sm.transitions@[i].in_state.name@,
                        )
                    &&& no_duplicate_slots(table_view(m.transitions@))
                    &&& actions_supplied(table_view(m.transitions@), state_mentions(sm.transitions@))
                    &&& payloads_supplied(
                        table_view(m.transitions@),
                        state_mentions(sm.transitions@),
                        sm.transitions@,
                    )
                    &&& m.models(sm.transitions@)
                    &&& m.temporary_context_type == sm.temporary_context_type
                    &&& m.guard_error == sm.guard_error
                },
                Err(e) => explains(e, sm.transitions@),
            },
    {
        let ghost ts = sm.transitions@;
        let n = sm.transitions.len();
        let mut num_start: usize = 0;
        let mut start_idx: usize = 0;
        let mut i: usize = 0;
        while i < n
            invariant
                n == ts.len(),
                ts == sm.transitions@,
                i <= n,
                num_start == start_count(ts.take(i as int)),
                num_start <= i,
                num_start > 0 ==> start_idx < i && ts[start_idx as int].in_state.start,
            decreases n - i,
        {
            assert(ts.take(i + 1).drop_last() =~= ts.take(i as int));
            if sm.transitions[i].in_state.start {
                if num_start == 0 {
                    start_idx = i;
                }
                num_start = num_start + 1;
            }
            i = i + 1;
        }
        assert(ts.take(n as int) =~= ts);
        if num_start == 0 {
            return Err(BuildError::MissingStartState);
        } else if num_start > 1 {
            return Err(BuildError::MultipleStartStates);
        }
        let starting_state = sm.transitions[start_idx].in_state.name.clone();

        let mut states: Vec<String> = Vec::new();
        let mut state_data = DataDefinitions { entries: Vec::new(), all_lifetimes: Vec::new() };
        let mut events: Vec<String> = Vec::new();
        let mut event_data = DataDefinitions { entries: Vec::new(), all_lifetimes: Vec::new() };
        let ghost sms = state_mentions(ts);
        let ghost ems = event_mentions(ts);
        assert(strings_view(states@) =~= Seq::<Seq<char>>::empty());
        assert(strings_view(state_data.all_lifetimes@) =~= Seq::<Seq<char>>::empty());
        assert(strings_view(event_data.all_lifetimes@) =~= Seq::<Seq<char>>::empty());
        assert(ts.take(0) =~= Seq::<StateTransition>::empty());

        let mut i: usize = 0;
        while i < n
            invariant
                n == ts.len(),
                ts == sm.transitions@,
                sms == state_mentions(ts),
                ems == event_mentions(ts),
                start_count(ts) == 1,
                i <= n,
                strings_view(states@) == distinct_names(state_mentions(ts.take(i as int))),
                strings_view(events@) == distinct_names(event_mentions(ts.take(i as int))),
                defs_model(state_data, state_mentions(ts.take(i as int))),
                defs_model(event_data, event_mentions(ts.take(i as int))),
                consistent(state_mentions(ts.take(i as int))),
                consistent(event_mentions(ts.take(i as int))),
                lifetimes_defined(state_mentions(ts.take(i as int))),
                lifetimes_defined(event_mentions(ts.take(i as int))),
            decreases n - i,
        {
            let t = &sm.transitions[i];
            let ghost m0 = state_mentions(ts.take(i as int));
            let ghost e0 = event_mentions(ts.take(i as int));
            let ghost m_in = m0.push((t.in_state.name@, t.in_state.data_type));
            assert(ts.take(i + 1).drop_last() =~= ts.take(i as int));
            assert(ts.take(i + 1).last() == *t);
            proof {
                lemma_state_mentions_prefix(ts, i + 1);
                lemma_event_mentions_prefix(ts, i + 1);
            }
            let ghost m1 = state_mentions(ts.take(i + 1));
            let ghost e1 = event_mentions(ts.take(i + 1));
            assert(e1 == e0.push((t.event@, t.event_data_type)));
            if !t.in_state.wildcard {
                assert(m1 =~= m_in.push((t.out_state@, t.out_state_data_type)));
                assert(distinct_names(m_in) == {
                    let p = distinct_names(m0);
                    if p.contains(t.in_state.name@) { p } else { p.push(t.in_state.name@) }
                }) by {
                    assert(m_in.drop_last() =~= m0);
                }
                add_name(&mut states, &t.in_state.name);
                match collect_data_type(
                    &t.in_state.name,
                    &t.in_state.data_type,
                    &mut state_data,
                    Ghost(m0),
                ) {
                    Err(e) => {
                        proof {
                            assert(m_in =~= m1.take(m_in.len() as int));
                            lemma_mentions_part(sms, m1);
                            lemma_mentions_part(m1, m_in);
                        }
                        return Err(e);
                    },
                    Ok(()) => {},
                }
                assert(m1.drop_last() =~= m_in);
            } else {
                assert(m1 =~= m0.push((t.out_state@, t.out_state_data_type)));
                assert(m1.drop_last() =~= m0);
            }
            add_name(&mut states, &t.out_state);
            match collect_data_type(
                &t.out_state,
                &t.out_state_data_type,
                &mut state_data,
                Ghost(m1.drop_last()),
            ) {
                Err(e) => {
                    proof {
                        lemma_mentions_part(sms, m1);
                    }
                    return Err(e);
                },
                Ok(()) => {},
            }
            assert(m1.drop_last().push(m1.last()) =~= m1);
            assert(e1.drop_last() =~= e0);
            add_name(&mut events, &t.event);
            match collect_data_type(&t.event, &t.event_data_type, &mut event_data, Ghost(e0)) {
                Err(e) => {
                    proof {
                        lemma_mentions_part(ems, e1);
                    }
                    return Err(e);
                },
                Ok(()) => {},
            }
            i = i + 1;
        }
        assert(ts.take(n as int) =~= ts);
        let ghost sv = strings_view(states@);

        let mut table: Vec<EventMapping> = Vec::new();
        assert(table_view(table@) =~= Seq::<Slot>::empty());
        let mut i: usize = 0;
        while i < n
            invariant
                n == ts.len(),
                ts == sm.transitions@,
                sms == state_mentions(ts),
                ems == event_mentions(ts),
                start_count(ts) == 1,
                consistent(sms),
                consistent(ems),
                lifetimes_defined(sms),
                lifetimes_defined(ems),
                defs_model(state_data, sms),
                sv == strings_view(states@),
                sv == distinct_names(sms),
                i <= n,
                table_view(table@) == expand(ts.take(i as int), sv),
                no_duplicate_slots(table_view(table@)),
                actions_supplied(table_view(table@), sms),
            decreases n - i,
        {
            let t = &sm.transitions[i];
            let ghost before = expand(ts.take(i as int), sv);
            assert(ts.take(i + 1).drop_last() =~= ts.take(i as int));
            assert(ts.take(i + 1).last() == *t);
            let ghost after = expand(ts.take(i + 1), sv);
            assert(after == before + slots_of(*t, sv));
            proof {
                lemma_expand_prefix(ts, sv, i + 1);
                lemma_slots_part(expand(ts, sv), after, sms);
            }
            if t.in_state.wildcard {
                let mut w: usize = 0;
                while w < states.len()
                    invariant
                        i < n,
                        n == ts.len(),
                        ts == sm.transitions@,
                        sms == state_mentions(ts),
                        t == ts[i as int],
                        t.in_state.wildcard,
                        sv == strings_view(states@),
                        sv == distinct_names(sms),
                        defs_model(state_data, sms),
                        after == before + slots_of(*t, sv),
                        no_duplicate_slots(expand(ts, sv)) ==> no_duplicate_slots(after),
                        actions_supplied(expand(ts, sv), sms) ==> actions_supplied(after, sms),
                        start_count(ts) == 1,
                        w <= states.len(),
                        table_view(table@) == before + slots_of(*t, sv).take(w as int),
                        no_duplicate_slots(table_view(table@)),
                        actions_supplied(table_view(table@), sms),
                    decreases states.len() - w,
                {
                    let ghost grown = before + slots_of(*t, sv).take(w + 1);
                    assert(slots_of(*t, sv)[w as int] == slot_of(states@[w as int]@, *t));
                    assert(grown =~= table_view(table@).push(slot_of(states@[w as int]@, *t)));
                    assert(grown =~= after.take(grown.len() as int));
                    proof {
                        lemma_slots_part(after, grown, sms);
                    }
                    match add_transition(&states[w], t, &mut table, &state_data, Ghost(sms)) {
                        Err(e) => {
                            return Err(e);
                        },
                        Ok(()) => {},
                    }
                    w = w + 1;
                }
                assert(slots_of(*t, sv).take(w as int) =~= slots_of(*t, sv));
            } else {
                assert(after =~= table_view(table@).push(slot_of(t.in_state.name@, *t)));
                match add_transition(&t.in_state.name, t, &mut table, &state_data, Ghost(sms)) {
                    Err(e) => {
                        return Err(e);
                    },
                    Ok(()) => {},
                }
            }
            i = i + 1;
        }
        assert(ts.take(n as int) =~= ts);
        assert(ts[start_idx as int].in_state.start);
        assert forall|i: int|
            0 <= i < ts.len() && (#[trigger] ts[i]).in_state.start && !ts[i].in_state.wildcard
                implies strings_view(states@).contains(ts[i].in_state.name@) by {
            lemma_in_mentions(ts, i);
            let j = choose|j: int| 0 <= j < sms.len() && sms[j] == (ts[i].in_state.name@, ts[i].in_state.data_type);
            lemma_distinct_contains(sms, j);
        }
        let ghost ft = first_types(sms);
        let ghost sl = table_view(table@);
        let mut k: usize = 0;
        while k < state_data.entries.len()
            invariant
                ts == sm.transitions@,
                start_count(ts) == 1,
                start_idx < ts.len() && ts[start_idx as int].in_state.start,
                starting_state@ == ts[start_idx as int].in_state.name@,
                ft == first_types(sms),
                sms == state_mentions(ts),
                sl == table_view(table@),
                sl == expand(ts, distinct_names(sms)),
                no_duplicate_slots(sl),
                defs_model(state_data, sms),
                k <= state_data.entries.len(),
                forall|j: int|
                    0 <= j < k && !is_start_name(ts, (#[trigger] ft[j]).0) ==> entered_by_action(
                        sl,
                        ft[j].0,
                    ),
            decreases state_data.entries.len() - k,
        {
            let name = &state_data.entries[k].name;
            assert(name@ == ft[k as int].0);
            if !(*name == starting_state) {
                if !supplies_payload(&table, name) {
                    proof {
                        assert forall|i: int| 0 <= i < ts.len() && (#[trigger] ts[i]).in_state.start
                            implies ts[i].in_state.name@ != name@ by {
                            lemma_single_start(ts, i, start_idx as int);
                        }
                        assert(!is_start_name(ts, ft[k as int].0));
                        assert(!payloads_supplied(sl, sms, ts));
                    }
                    return Err(BuildError::MissingActionForDataState { state: name.clone() });
                }
            } else {
                assert(is_start_name(ts, ft[k as int].0));
            }
            k = k + 1;
        }
        Ok(ParsedStateMachine {
            temporary_context_type: sm.temporary_context_type,
            guard_error: sm.guard_error,
            states,
            starting_state,
            state_data,
            events,
            event_data,
            transitions: table,
        })
    }
}

} // verus!

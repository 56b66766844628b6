//! A table-driven engine that runs a checked model: it looks up the slot of
//! the current state and the incoming event, asks the guard, runs the
//! action, and fires the exit hook of the old state and then the entry hook
//! of the new one.

use vstd::prelude::*;
use crate::model::{EventMapping, Slot};
use crate::parser::{table_view, ParsedStateMachine};
use crate::codegen::{data_of, data_text};
use vstd::std_specs::cmp::PartialEqSpec;

verus! {

/// A value of a state or event type: its tag and its payload, if any.
/// Two values are equal exactly when their tags are: payloads play no part.
pub struct Tagged<T> {
    pub tag: String,
    pub data: Option<T>,
}

impl<T> PartialEq for Tagged<T> {
    fn eq(&self, other: &Tagged<T>) -> (r: bool) {
        self.tag == other.tag
    }
}

impl<T> vstd::std_specs::cmp::PartialEqSpecImpl for Tagged<T> {
    open spec fn obeys_eq_spec() -> bool {
        true
    }

    open spec fn eq_spec(&self, other: &Tagged<T>) -> bool {
        self.tag@ == other.tag@
    }
}

/// Why an event was not taken.
pub enum RuntimeError<G> {
    /// No transition is defined for the current state and this event.
    InvalidEvent,
    /// The guard refused the transition, with what it gave as the reason.
    GuardFailed(G),
}

/// One call made into a context, with what it was given and what it
/// returned.
pub enum Call<S, E, G> {
    Guard { name: Seq<char>, state_data: Option<S>, event_data: Option<E>, result: Result<(), G> },
    Action { name: Seq<char>, state_data: Option<S>, event_data: Option<E>, made: Option<S> },
    Exit(Seq<char>),
    Entry(Seq<char>),
}

pub open spec fn deref_opt<T>(o: Option<&T>) -> Option<T> {
    match o {
        Some(x) => Some(*x),
        None => None,
    }
}

/// The user's side of a machine: its guards, actions and hooks, by name.
/// Each call is recorded in the context's log of calls.
pub trait MachineContext {
    type StateData;
    type EventData;
    type GuardError;
    /// Handed to every guard and action, without being stored in the machine.
    type TemporaryContext;

    /// Every call made into the context so far, in order.
    spec fn calls(&self) -> Seq<Call<Self::StateData, Self::EventData, Self::GuardError>>;

    fn guard(
        &mut self,
        temporary_context: &mut Self::TemporaryContext,
        guard: &String,
        state_data: Option<&Self::StateData>,
        event_data: Option<&Self::EventData>,
    ) -> (r: Result<(), Self::GuardError>)
        ensures
            final(self).calls() == old(self).calls().push(
                Call::Guard {
                    name: guard@,
                    state_data: deref_opt(state_data),
                    event_data: deref_opt(event_data),
                    result: r,
                },
            ),
    ;

    /// Makes the payload of the state that is entered.
    fn action(
        &mut self,
        temporary_context: &mut Self::TemporaryContext,
        action: &String,
        state_data: Option<&Self::StateData>,
        event_data: Option<&Self::EventData>,
    ) -> (r: Option<Self::StateData>)
        ensures
            final(self).calls() == old(self).calls().push(
                Call::Action {
                    name: action@,
                    state_data: deref_opt(state_data),
                    event_data: deref_opt(event_data),
                    made: r,
                },
            ),
    ;

    fn on_entry(&mut self, state: &String)
        ensures
            final(self).calls() == old(self).calls().push(Call::Entry(state@)),
    ;

    fn on_exit(&mut self, state: &String)
        ensures
            final(self).calls() == old(self).calls().push(Call::Exit(state@)),
    ;
}

/// The index of the first slot of `sl` for this state and event.
pub open spec fn first_match(sl: Seq<Slot>, state: Seq<char>, event: Seq<char>) -> Option<int>
    decreases sl.len(),
{
    if sl.len() == 0 {
        None
    } else {
        match first_match(sl.drop_last(), state, event) {
            Some(k) => Some(k),
            None => if sl.last().in_state == state && sl.last().event == event {
                Some(sl.len() - 1)
            } else {
                None
            },
        }
    }
}

/// The result with the state it hands back left out.
pub open spec fn outcome<T, G>(r: Result<&T, RuntimeError<G>>) -> Result<(), RuntimeError<G>> {
    match r {
        Ok(_) => Ok(()),
        Err(e) => Err(e),
    }
}

/// The calls `d` that taking an event through `slot` from state `from`
/// (with payload `sd`, the event carrying `ed`) makes, the result `r` and the
/// new payload `nd`: the guard, if any, gets both payloads; if it refuses,
/// nothing else is called and its error is the result. Otherwise the action,
/// if any, gets both payloads and makes the new payload; then the exit hook
/// of `from` and the entry hook of the out-state run, in that order.
pub open spec fn fired<S, E, G>(
    slot: Slot,
    from: Seq<char>,
    sd: Option<S>,
    ed: Option<E>,
    d: Seq<Call<S, E, G>>,
    r: Result<(), RuntimeError<G>>,
    nd: Option<S>,
) -> bool {
    let guarded = slot.guard is Some;
    let rest = if guarded { d.skip(1) } else { d };
    &&& guarded ==> d.len() >= 1 && d[0] is Guard && d[0]->Guard_name == slot.guard->0
        && d[0]->Guard_state_data == sd && d[0]->Guard_event_data == ed
    &&& if guarded && d[0]->Guard_result is Err {
        &&& d.len() == 1
        &&& r == Err::<(), RuntimeError<G>>(RuntimeError::GuardFailed(d[0]->Guard_result->Err_0))
    } else {
        &&& r is Ok
        &&& match slot.action {
            Some(a) => {
                &&& rest.len() == 3
                &&& rest[0] is Action && rest[0]->Action_name == a
                &&& rest[0]->Action_state_data == sd && rest[0]->Action_event_data == ed
                &&& nd == rest[0]->Action_made
                &&& rest[1] == Call::<S, E, G>::Exit(from)
                &&& rest[2] == Call::<S, E, G>::Entry(slot.out_state)
            },
            None => {
                &&& rest == seq![Call::<S, E, G>::Exit(from), Call::<S, E, G>::Entry(slot.out_state)]
                &&& nd is None
            },
        }
    }
}

/// Where the table holds the first slot for this state and event.
pub fn find_slot(table: &Vec<EventMapping>, state: &String, event: &String) -> (r: Option<usize>)
    ensures
        match r {
            Some(k) => first_match(table_view(table@), state@, event@) == Some(k as int),
            None => first_match(table_view(table@), state@, event@) is None,
        },
{
    let ghost sl = table_view(table@);
    let mut k: usize = 0;
    while k < table.len()
        invariant
            k <= table.len(),
            sl == table_view(table@),
            first_match(sl.take(k as int), state@, event@) is None,
        decreases table.len() - k,
    {
        assert(sl.take(k + 1).drop_last() =~= sl.take(k as int));
        if table[k].in_state == *state && table[k].event == *event {
            proof {
                lemma_first_match_prefix(sl, k as int + 1, state@, event@);
            }
            return Some(k);
        }
        k = k + 1;
    }
    assert(sl.take(k as int) =~= sl);
    None
}

/// A running state machine: the transition table, the current state with
/// its payload, and the user's context.
pub struct Machine<C: MachineContext> {
    table: Vec<EventMapping>,
    state: Tagged<C::StateData>,
    context: C,
}

impl<C: MachineContext> Machine<C> {
    pub closed spec fn table_spec(&self) -> Seq<Slot> {
        table_view(self.table@)
    }

    /// The current state's tag.
    pub closed spec fn state_spec(&self) -> Seq<char> {
        self.state.tag@
    }

    /// The current state's payload.
    pub closed spec fn data_spec(&self) -> Option<C::StateData> {
        self.state.data
    }

    /// Every call made into the context so far, in order.
    pub closed spec fn calls_spec(&self) -> Seq<Call<C::StateData, C::EventData, C::GuardError>> {
        self.context.calls()
    }

    /// A machine in the model's starting state. It takes a payload exactly
    /// when the starting state has one, and is `None` otherwise.
    pub fn new(model: ParsedStateMachine, context: C, state_data: Option<C::StateData>) -> (r: Option<Self>)
        ensures
            (r is Some) == ((state_data is Some) == (data_text(
                model.state_data.entries@,
                model.starting_state@,
            ) is Some)),
            r matches Some(m) ==> {
                &&& m.table_spec() == table_view(model.transitions@)
                &&& m.state_spec() == model.starting_state@
                &&& m.data_spec() == state_data
                &&& m.calls_spec() == context.calls()
            },
    {
        if state_data.is_some() != data_of(&model.state_data, &model.starting_state).is_some() {
            return None;
        }
        let tag = model.starting_state;
        Some(Machine { table: model.transitions, state: Tagged { tag, data: state_data }, context })
    }

    /// A machine in the given state.
    pub fn new_with_state(model: ParsedStateMachine, context: C, initial_state: Tagged<C::StateData>) -> (r: Self)
        ensures
            r.table_spec() == table_view(model.transitions@),
            r.state_spec() == initial_state.tag@,
            r.data_spec() == initial_state.data,
            r.calls_spec() == context.calls(),
    {
        Machine { table: model.transitions, state: initial_state, context }
    }

    pub fn state(&self) -> (r: &Tagged<C::StateData>)
        ensures
            r.tag@ == self.state_spec(),
            r.data == self.data_spec(),
    {
        &self.state
    }

    pub fn context(&self) -> (r: &C)
        ensures
            r.calls() == self.calls_spec(),
    {
        &self.context
    }

    /// The context, to change between events. The table and the state stay
    /// as they are.
    pub fn context_mut(&mut self) -> (r: &mut C)
        ensures
            r.calls() == old(self).calls_spec(),
            final(self).table_spec() == old(self).table_spec(),
            final(self).state_spec() == old(self).state_spec(),
            final(self).data_spec() == old(self).data_spec(),
    {
        &mut self.context
    }

    /// Takes an event. Where the table has no slot for the current state and
    /// the event, fails with `InvalidEvent` and calls nothing. Otherwise asks
    /// the slot's guard, if any; where it refuses, fails with its error and
    /// calls nothing more. Otherwise runs the action, the exit hook of the old
    /// state and then the entry hook of the new one, and enters the new state
    /// with the action's payload. On failure the state and payload are
    /// unchanged.
    pub fn process_event(
        &mut self,
        temporary_context: &mut C::TemporaryContext,
        event: Tagged<C::EventData>,
    ) -> (r: Result<&Tagged<C::StateData>, RuntimeError<C::GuardError>>)
        ensures
            final(self).table_spec() == old(self).table_spec(),
            final(self).calls_spec().len() >= old(self).calls_spec().len(),
            final(self).calls_spec().take(old(self).calls_spec().len() as int) == old(self).calls_spec(),
            r matches Ok(s) ==> s.tag@ == final(self).state_spec() && s.data == final(self).data_spec(),
            r is Err ==> final(self).state_spec() == old(self).state_spec() && final(self).data_spec()
                == old(self).data_spec(),
            match first_match(old(self).table_spec(), old(self).state_spec(), event.tag@) {
                None => {
                    &&& r matches Err(RuntimeError::InvalidEvent)
                    &&& final(self).calls_spec() == old(self).calls_spec()
                },
                Some(k) => {
                    let slot = old(self).table_spec()[k];
                    &&& fired(
                        slot,
                        old(self).state_spec(),
                        old(self).data_spec(),
                        event.data,
                        final(self).calls_spec().skip(old(self).calls_spec().len() as int),
                        outcome(r),
                        final(self).data_spec(),
                    )
                    &&& r is Ok ==> final(self).state_spec() == slot.out_state
                },
            },
    {
        let ghost start = self.context.calls();
        let k = match find_slot(&self.table, &self.state.tag, &event.tag) {
            None => {
                assert(self.context.calls().take(start.len() as int) =~= start);
                return Err(RuntimeError::InvalidEvent);
            },
            Some(k) => k,
        };
        proof {
            lemma_first_match_found(table_view(self.table@), self.state.tag@, event.tag@);
        }
        let ghost from = self.state.tag@;
        let ghost sd = self.state.data;
        let ghost slot = table_view(self.table@)[k as int];
        let mapping = &self.table[k];
        assert(mapping@ == slot);
        if let Some(g) = &mapping.guard {
            let passed = self.context.guard(temporary_context, g, self.state.data.as_ref(), event.data.as_ref());
            if let Err(e) = passed {
                let ghost d = self.context.calls().skip(start.len() as int);
                assert(d =~= seq![self.context.calls().last()]);
                assert(self.context.calls().take(start.len() as int) =~= start);
                return Err(RuntimeError::GuardFailed(e));
            }
        }
        let data = match &mapping.action {
            Some(a) => self.context.action(temporary_context, a, self.state.data.as_ref(), event.data.as_ref()),
            None => None,
        };
        let ghost before_hooks = self.context.calls();
        self.context.on_exit(&self.state.tag);
        self.context.on_entry(&mapping.out_state);
        let tag = mapping.out_state.clone();
        self.state = Tagged { tag, data };
        proof {
            let all = self.context.calls();
            let d = all.skip(start.len() as int);
            assert(all.take(start.len() as int) =~= start);
            assert(all =~= before_hooks.push(Call::Exit(from)).push(Call::Entry(slot.out_state)));
            let guarded = slot.guard is Some;
            let rest = if guarded { d.skip(1) } else { d };
            if guarded {
                assert(d[0] == all[start.len() as int]);
            }
            match slot.action {
                Some(_) => {
                    assert(rest =~= all.skip(before_hooks.len() - 1));
                },
                None => {
                    assert(rest =~= seq![Call::Exit(from), Call::Entry(slot.out_state)]);
                },
            }
        }
        Ok(&self.state)
    }
}

/// A law of the engine: every transition that fires, a self-transition
/// included, ends with exactly one exit hook, of the state left, then
/// exactly one entry hook, of the state entered; the guard and action come
/// before both.
pub proof fn lemma_exit_then_entry<S, E, G>(
    slot: Slot,
    from: Seq<char>,
    sd: Option<S>,
    ed: Option<E>,
    d: Seq<Call<S, E, G>>,
    r: Result<(), RuntimeError<G>>,
    nd: Option<S>,
)
    requires
        fired(slot, from, sd, ed, d, r, nd),
        r is Ok,
    ensures
        d.len() >= 2,
        d[d.len() - 2] == Call::<S, E, G>::Exit(from),
        d[d.len() - 1] == Call::<S, E, G>::Entry(slot.out_state),
        forall|i: int| 0 <= i < d.len() - 2 ==> (#[trigger] d[i]) is Guard || d[i] is Action,
{
    let rest = if slot.guard is Some { d.skip(1) } else { d };
    let off: int = if slot.guard is Some { 1 } else { 0 };
    assert(rest.len() >= 2);
    assert(d.len() == rest.len() + off);
    assert forall|i: int| off <= i < d.len() implies d[i] == rest[i - off] by {}
    assert(d[d.len() - 2] == rest[rest.len() - 2]);
    assert(d[d.len() - 1] == rest[rest.len() - 1]);
    assert forall|i: int| 0 <= i < d.len() - 2 implies (#[trigger] d[i]) is Guard || d[i] is Action by {
        if i >= off {
            assert(d[i] == rest[i - off]);
        }
    }
}

/// Equality of tagged values ignores payloads: values with the same tag are
/// equal whatever they carry, and values with different tags never are.
pub proof fn lemma_equal_by_tag<T>(a: Tagged<T>, b: Tagged<T>)
    ensures
        a.tag@ == b.tag@ ==> a.eq_spec(&b),
        a.tag@ != b.tag@ ==> !a.eq_spec(&b),
{
}

pub(crate) proof fn lemma_first_match_found(sl: Seq<Slot>, state: Seq<char>, event: Seq<char>)
    ensures
        match first_match(sl, state, event) {
            Some(k) => 0 <= k < sl.len() && sl[k].in_state == state && sl[k].event == event,
            None => forall|k: int| 0 <= k < sl.len() ==> !(sl[k].in_state == state && sl[k].event == event),
        },
    decreases sl.len(),
{
    if sl.len() > 0 {
        lemma_first_match_found(sl.drop_last(), state, event);
        assert forall|k: int| 0 <= k < sl.len() - 1 implies sl.drop_last()[k] == sl[k] by {}
    }
}

proof fn lemma_first_match_prefix(sl: Seq<Slot>, n: int, state: Seq<char>, event: Seq<char>)
    requires
        0 < n <= sl.len(),
        first_match(sl.take(n - 1), state, event) is None,
        sl[n - 1].in_state == state && sl[n - 1].event == event,
    ensures
        first_match(sl, state, event) == Some(n - 1),
    decreases sl.len(),
{
    assert(sl.take(n).drop_last() =~= sl.take(n - 1));
    if n < sl.len() {
        assert(sl.drop_last().take(n) =~= sl.take(n));
        assert(sl.drop_last().take(n - 1) =~= sl.take(n - 1));
        lemma_first_match_prefix(sl.drop_last(), n, state, event);
    } else {
        assert(sl.take(n) =~= sl);
        assert(sl.drop_last() =~= sl.take(n - 1));
    }
}

} // verus!

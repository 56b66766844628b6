//! Structural checks over a finished model that reject likely mistakes; all
//! findings are reported together.

use vstd::prelude::*;
use crate::model::{strings_view, Slot};
use crate::parser::{table_view, ParsedStateMachine};

verus! {

/// Some transition enters state `s`.
pub open spec fn is_target(sl: Seq<Slot>, s: Seq<char>) -> bool {
    exists|k: int| 0 <= k < sl.len() && (#[trigger] sl[k]).out_state == s
}

/// The states of `ss`, in order, that are not the start and that no
/// transition enters: the machine could never be in them.
pub open spec fn unreachable_states(ss: Seq<Seq<char>>, start: Seq<char>, sl: Seq<Slot>) -> Seq<Seq<char>>
    decreases ss.len(),
{
    if ss.len() == 0 {
        Seq::empty()
    } else {
        let p = unreachable_states(ss.drop_last(), start, sl);
        if ss.last() != start && !is_target(sl, ss.last()) {
            p.push(ss.last())
        } else {
            p
        }
    }
}

/// Whether some slot of the table enters `s`.
fn targeted(sm: &ParsedStateMachine, s: &String) -> (r: bool)
    ensures
        r == is_target(table_view(sm.transitions@), s@),
{
    let ghost sl = table_view(sm.transitions@);
    let mut k: usize = 0;
    while k < sm.transitions.len()
        invariant
            k <= sm.transitions.len(),
            sl == table_view(sm.transitions@),
            forall|a: int| 0 <= a < k ==> sl[a].out_state != s@,
        decreases sm.transitions.len() - k,
    {
        if sm.transitions[k].out_state == *s {
            assert(sl[k as int].out_state == s@);
            return true;
        }
        k = k + 1;
    }
    false
}

/// Accepts the model, or lists every state that the machine could never
/// enter, in the order of `states`.
pub fn validate(sm: &ParsedStateMachine) -> (r: Result<(), Vec<String>>)
    ensures
        ({
            let bad = unreachable_states(
                strings_view(sm.states@),
                sm.starting_state@,
                table_view(sm.transitions@),
            );
            match r {
                Ok(()) => bad.len() == 0,
                Err(v) => bad.len() > 0 && strings_view(v@) == bad,
            }
        }),
{
    let ghost ss = strings_view(sm.states@);
    let ghost sl = table_view(sm.transitions@);
    let mut bad: Vec<String> = Vec::new();
    let mut i: usize = 0;
    assert(strings_view(bad@) =~= Seq::<Seq<char>>::empty());
    while i < sm.states.len()
        invariant
            i <= sm.states.len(),
            ss == strings_view(sm.states@),
            sl == table_view(sm.transitions@),
            strings_view(bad@) == unreachable_states(ss.take(i as int), sm.starting_state@, sl),
        decreases sm.states.len() - i,
    {
        assert(ss.take(i + 1).drop_last() =~= ss.take(i as int));
        assert(ss.take(i + 1).last() == sm.states@[i as int]@);
        let s = &sm.states[i];
        if !(*s == sm.starting_state) && !targeted(sm, s) {
            let ghost prev = bad@;
            bad.push(s.clone());
            assert(strings_view(bad@) =~= strings_view(prev).push(s@));
        }
        i = i + 1;
    }
    assert(ss.take(i as int) =~= ss);
    if bad.len() == 0 {
        Ok(())
    } else {
        Err(bad)
    }
}

} // verus!

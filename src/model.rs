//! The data a specification is made of: payload type descriptors, the
//! declared transitions, and the resolved transition-table entries.

use vstd::prelude::*;

verus! {

/// One generic argument of a path segment, as far as lifetime bookkeeping
/// needs to know it.
#[derive(Clone)]
pub enum GenericArg {
    Lifetime(String),
    Other,
}

/// The outline of a payload type that decides which lifetime parameters it
/// carries.
#[derive(Clone)]
pub enum TypeShape {
    /// A reference type, `&'a T`, with its lifetime if one is written.
    Reference { lifetime: Option<String> },
    /// A path type; one list of generic arguments per path segment.
    Path { segments: Vec<Vec<GenericArg>> },
    /// Any other type (tuples, arrays, ...): it carries no lifetimes here.
    Other,
}

/// An opaque descriptor of a payload type: its source text and its outline.
/// Two descriptors denote the same type when their texts are equal.
pub struct TypeRef {
    pub text: String,
    pub shape: TypeShape,
}

/// The lifetimes written in one list of generic arguments, in order.
pub open spec fn arg_lifetimes(args: Seq<GenericArg>) -> Seq<Seq<char>>
    decreases args.len(),
{
    if args.len() == 0 {
        Seq::empty()
    } else {
        let rest = arg_lifetimes(args.drop_last());
        match args.last() {
            GenericArg::Lifetime(l) => rest.push(l@),
            GenericArg::Other => rest,
        }
    }
}

/// The lifetimes written in the generic arguments of each segment, in order.
pub open spec fn segment_lifetimes(segs: Seq<Vec<GenericArg>>) -> Seq<Seq<char>>
    decreases segs.len(),
{
    if segs.len() == 0 {
        Seq::empty()
    } else {
        segment_lifetimes(segs.drop_last()) + arg_lifetimes(segs.last()@)
    }
}

/// The lifetime parameters a payload type carries; `None` for a reference
/// type whose lifetime is not written, which cannot be used as a payload.
pub open spec fn lifetimes_of(t: TypeRef) -> Option<Seq<Seq<char>>> {
    match t.shape {
        TypeShape::Reference { lifetime } => match lifetime {
            Some(l) => Some(seq![l@]),
            None => None,
        },
        TypeShape::Path { segments } => Some(segment_lifetimes(segments@)),
        TypeShape::Other => Some(Seq::empty()),
    }
}

pub open spec fn strings_view(v: Seq<String>) -> Seq<Seq<char>> {
    v.map_values(|s: String| s@)
}

/// The in-state of a declared transition.
pub struct InputState {
    pub name: String,
    /// Marked with `*`: the machine starts here.
    pub start: bool,
    /// Stands for every declared state.
    pub wildcard: bool,
    pub data_type: Option<TypeRef>,
}

/// One declared transition: `in_state + event [guard] / action = out_state`.
pub struct StateTransition {
    pub in_state: InputState,
    pub event: String,
    pub event_data_type: Option<TypeRef>,
    pub guard: Option<String>,
    pub action: Option<String>,
    pub out_state: String,
    pub out_state_data_type: Option<TypeRef>,
}

/// A specification as written: its headers and its transitions in order.
pub struct StateMachine {
    pub name: Option<String>,
    pub temporary_context_type: Option<TypeRef>,
    pub guard_error: Option<TypeRef>,
    pub transitions: Vec<StateTransition>,
}

/// The resolved edge stored for one (state, event) slot of the table.
pub struct EventMapping {
    pub in_state: String,
    pub event: String,
    pub guard: Option<String>,
    pub action: Option<String>,
    pub out_state: String,
}

/// What an `EventMapping` denotes.
pub struct Slot {
    pub in_state: Seq<char>,
    pub event: Seq<char>,
    pub guard: Option<Seq<char>>,
    pub action: Option<Seq<char>>,
    pub out_state: Seq<char>,
}

pub open spec fn opt_view(o: Option<String>) -> Option<Seq<char>> {
    match o {
        Some(s) => Some(s@),
        None => None,
    }
}

impl View for EventMapping {
    type V = Slot;

    open spec fn view(&self) -> Slot {
        Slot {
            in_state: self.in_state@,
            event: self.event@,
            guard: opt_view(self.guard),
            action: opt_view(self.action),
            out_state: self.out_state@,
        }
    }
}

/// The payload recorded for one state or event name.
pub struct DataEntry {
    pub name: String,
    /// The payload type's text.
    pub text: String,
    /// The payload type is a reference, so it is passed on as it is.
    pub is_reference: bool,
    pub lifetimes: Vec<String>,
}

/// The payloads of one namespace (states or events), with every lifetime
/// parameter they use, each listed once.
pub struct DataDefinitions {
    pub entries: Vec<DataEntry>,
    pub all_lifetimes: Vec<String>,
}

/// A payload's lifetime parameters could not be determined.
pub struct UndefinedLifetime;

/// The lifetime parameters of a payload type, in the order they are written.
pub fn get_lifetimes(data_type: &TypeRef) -> (r: Result<Vec<String>, UndefinedLifetime>)
    ensures
        match r {
            Ok(ls) => lifetimes_of(*data_type) == Some(strings_view(ls@)),
            Err(_) => lifetimes_of(*data_type) is None,
        },
{
    let mut lifetimes: Vec<String> = Vec::new();
    match &data_type.shape {
        TypeShape::Reference { lifetime } => match lifetime {
            Some(l) => {
                lifetimes.push(l.clone());
                assert(strings_view(lifetimes@) =~= seq![l@]);
                Ok(lifetimes)
            },
            None => Err(UndefinedLifetime),
        },
        TypeShape::Path { segments } => {
            let mut i: usize = 0;
            while i < segments.len()
                invariant
                    i <= segments.len(),
                    strings_view(lifetimes@) == segment_lifetimes(segments@.take(i as int)),
                decreases segments.len() - i,
            {
                let args = &segments[i];
                let mut j: usize = 0;
                let ghost before = strings_view(lifetimes@);
                while j < args.len()
                    invariant
                        i < segments.len(),
                        args == segments@[i as int],
                        j <= args.len(),
                        strings_view(lifetimes@) == before + arg_lifetimes(args@.take(j as int)),
                    decreases args.len() - j,
                {
                    let ghost prev = lifetimes@;
                    assert(args@.take(j + 1).drop_last() =~= args@.take(j as int));
                    assert(args@.take(j + 1).last() == args@[j as int]);
                    if let GenericArg::Lifetime(l) = &args[j] {
                        lifetimes.push(l.clone());
                        assert(strings_view(lifetimes@) =~= strings_view(prev).push(l@));
                    }
                    assert(strings_view(lifetimes@) =~= before + arg_lifetimes(args@.take(j + 1)));
                    j = j + 1;
                }
                assert(args@.take(j as int) =~= args@);
                assert(segments@.take(i + 1).drop_last() =~= segments@.take(i as int));
                i = i + 1;
            }
            assert(segments@.take(i as int) =~= segments@);
            Ok(lifetimes)
        },
        TypeShape::Other => {
            assert(strings_view(lifetimes@) =~= Seq::<Seq<char>>::empty());
            Ok(lifetimes)
        },
    }
}

} // verus!

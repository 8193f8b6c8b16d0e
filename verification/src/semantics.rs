use crate::hierarchy::{acyclic, ancestors, first_common, have_common};
use crate::state::{Behavior, Fault, State, StateId, Transition, MAX_DEPTH};
use vstd::prelude::*;

verus! {

/// What the search for a handler yields from state `s` on, once `s` has
/// answered `t` and left the context `c`: the answer itself if it is one,
/// else whatever the ancestors of `s` make of the event.
pub open spec fn resume<S: State<C, E>, C: 'static, E: 'static>(
    tab: Seq<S>,
    s: StateId,
    t: Transition<C, E>,
    c: C,
    e: E,
) -> (Transition<C, E>, C)
    decreases tab[s as int].rank(), 0int,
    when acyclic(tab) && s < tab.len()
{
    if t is Unknown {
        match tab[s as int].parent_spec() {
            Some(p) => bubble(tab, p, c, e),
            None => (t, c),
        }
    } else {
        (t, c)
    }
}

/// The search for a handler: the first answer other than `Unknown` on the
/// way from `s` to its root, with the context as the states asked so far
/// have left it. `Unknown` if the root itself does not answer.
pub open spec fn bubble<S: State<C, E>, C: 'static, E: 'static>(
    tab: Seq<S>,
    s: StateId,
    c: C,
    e: E,
) -> (Transition<C, E>, C)
    decreases tab[s as int].rank(), 1int,
    when acyclic(tab) && s < tab.len()
{
    let (t, c1) = tab[s as int].transition_spec(c, e);
    resume(tab, s, t, c1, e)
}

/// The states to leave, in the order in which they are left: the source
/// chain below the common ancestor at position `top`, and the ancestor too
/// if the transition is external.
pub open spec fn exit_path(src: Seq<StateId>, top: int, external: bool) -> Seq<StateId> {
    src.take(if external { top + 1 } else { top })
}

/// A stretch of an ancestor chain, turned round: its last state comes first.
pub open spec fn outermost_first(chain: Seq<StateId>) -> Seq<StateId> {
    Seq::new(chain.len(), |k: int| chain[chain.len() - 1 - k])
}

/// The states to enter, in the order in which they are entered: the target
/// chain below the common ancestor at position `top`, outermost first,
/// preceded by the ancestor if the transition is external.
pub open spec fn entry_path(tgt: Seq<StateId>, top: int, external: bool) -> Seq<StateId> {
    outermost_first(tgt.take(if external { top + 1 } else { top }))
}

/// The context after the exit hooks of `path` have run in order.
pub open spec fn exit_all<S: State<C, E>, C: 'static, E: 'static>(
    tab: Seq<S>,
    path: Seq<StateId>,
    c: C,
) -> C
    decreases path.len(),
{
    if path.len() == 0 {
        c
    } else {
        tab[path.last() as int].exit_spec(exit_all(tab, path.drop_last(), c))
    }
}

/// The context after the entry hooks of `path` have run in order.
pub open spec fn enter_all<S: State<C, E>, C: 'static, E: 'static>(
    tab: Seq<S>,
    path: Seq<StateId>,
    c: C,
) -> C
    decreases path.len(),
{
    if path.len() == 0 {
        c
    } else {
        tab[path.last() as int].entry_spec(enter_all(tab, path.drop_last(), c))
    }
}

/// The context after the behavior of a transition, if it has one.
pub open spec fn behave<C, E>(behavior: Option<&'static dyn Behavior<C, E>>, c: C, e: E) -> C {
    match behavior {
        Some(action) => action.run_spec(c, e),
        None => c,
    }
}

/// What a transition does to the hierarchy: the states left, the behavior
/// run between, the states entered, and the state that is active at the end.
#[verifier::reject_recursive_types(C)]
#[verifier::reject_recursive_types(E)]
pub struct Route<C: 'static, E: 'static> {
    pub exits: Seq<StateId>,
    pub behavior: Option<&'static dyn Behavior<C, E>>,
    pub entries: Seq<StateId>,
    pub target: StateId,
}

/// The positions of the common ancestor in the chains of `source` and
/// `target`: the state itself where the two are one.
pub open spec fn meeting_point<S: State<C, E>, C: 'static, E: 'static>(
    tab: Seq<S>,
    source: StateId,
    target: StateId,
) -> (int, int) {
    if source == target {
        (0, 0)
    } else {
        first_common(ancestors(tab, source), ancestors(tab, target))
    }
}

/// The route of a local or external transition, or the fault that stops it.
/// Both chains must fit in `MAX_DEPTH` states, also where source and target
/// are one state; two different states must have a common ancestor as well.
pub open spec fn structural_route<S: State<C, E>, C: 'static, E: 'static>(
    tab: Seq<S>,
    source: StateId,
    target: StateId,
    external: bool,
    behavior: Option<&'static dyn Behavior<C, E>>,
) -> Result<Route<C, E>, Fault> {
    let src = ancestors(tab, source);
    let tgt = ancestors(tab, target);
    let (i, j) = meeting_point(tab, source, target);
    if src.len() > MAX_DEPTH || tgt.len() > MAX_DEPTH {
        Err(Fault::DepthExceeded)
    } else if source != target && !have_common(src, tgt) {
        Err(Fault::NoCommonAncestor)
    } else {
        Ok(
            Route {
                exits: exit_path(src, i, external),
                behavior,
                entries: entry_path(tgt, j, external),
                target,
            },
        )
    }
}

/// The route of any transition out of `source`, or the fault that stops it.
/// An internal transition builds no chain, so that no depth stops it.
pub open spec fn route<S: State<C, E>, C: 'static, E: 'static>(
    tab: Seq<S>,
    source: StateId,
    t: Transition<C, E>,
) -> Result<Route<C, E>, Fault> {
    match t {
        Transition::Unknown => Err(Fault::Unhandled),
        Transition::Internal(behavior) => Ok(
            Route { exits: Seq::empty(), behavior, entries: Seq::empty(), target: source },
        ),
        Transition::Local(target, behavior) => structural_route(tab, source, target, false, behavior),
        Transition::External(target, behavior) => structural_route(tab, source, target, true, behavior),
    }
}

/// The context after a route has been walked: every exit, then the
/// behavior, then every entry.
pub open spec fn walk<S: State<C, E>, C: 'static, E: 'static>(
    tab: Seq<S>,
    r: Route<C, E>,
    c: C,
    e: E,
) -> C {
    enter_all(tab, r.entries, behave(r.behavior, exit_all(tab, r.exits, c), e))
}

/// The new active state and context after transition `t` out of `source`,
/// or the fault that stops it before any hook has run.
pub open spec fn traverse_spec<S: State<C, E>, C: 'static, E: 'static>(
    tab: Seq<S>,
    source: StateId,
    t: Transition<C, E>,
    c: C,
    e: E,
) -> Result<(StateId, C), Fault> {
    match route(tab, source, t) {
        Ok(r) => Ok((r.target, walk(tab, r, c, e))),
        Err(fault) => Err(fault),
    }
}

/// The new active state and context after event `e` has been dispatched to
/// a machine whose active state is `active`, or the fault that stops it.
pub open spec fn dispatch_spec<S: State<C, E>, C: 'static, E: 'static>(
    tab: Seq<S>,
    active: StateId,
    c: C,
    e: E,
) -> Result<(StateId, C), Fault> {
    let (t, c1) = bubble(tab, active, c, e);
    traverse_spec(tab, active, t, c1, e)
}

/// The active state and context after the events of a sequence have been
/// dispatched one after the other, or the first fault on the way.
pub open spec fn run<S: State<C, E>, C: 'static, E: 'static>(
    tab: Seq<S>,
    active: StateId,
    c: C,
    events: Seq<E>,
) -> Result<(StateId, C), Fault>
    decreases events.len(),
{
    if events.len() == 0 {
        Ok((active, c))
    } else {
        match run(tab, active, c, events.drop_last()) {
            Ok((s, c1)) => dispatch_spec(tab, s, c1, events.last()),
            Err(fault) => Err(fault),
        }
    }
}

/// A sequence of events, `n` times over.
pub open spec fn repeated<E>(events: Seq<E>, n: nat) -> Seq<E>
    decreases n,
{
    if n == 0 {
        Seq::empty()
    } else {
        repeated(events, (n - 1) as nat) + events
    }
}

} // verus!

use crate::hierarchy::{
    acyclic, ancestors, have_common, is_first_common, lemma_ancestors_rank,
    lemma_ancestors_shape, lemma_first_common_exists, lemma_first_common_unique, meet_at,
};
use crate::semantics::{
    behave, bubble, dispatch_spec, enter_all, entry_path, exit_all, exit_path, meeting_point,
    repeated, route, run, structural_route, traverse_spec,
};
use crate::state::{Behavior, Fault, State, StateId, Transition, MAX_DEPTH};
use vstd::prelude::*;

verus! {

/// The context after the first `n` states of `chain` have each been offered
/// the event in turn.
pub open spec fn asked<S: State<C, E>, C: 'static, E: 'static>(
    tab: Seq<S>,
    chain: Seq<StateId>,
    c: C,
    e: E,
    n: nat,
) -> C
    decreases n,
{
    if n == 0 {
        c
    } else {
        tab[chain[n - 1] as int].transition_spec(asked(tab, chain, c, e, (n - 1) as nat), e).1
    }
}

/// What the state at position `k` of `chain` answers once those before it
/// have been asked.
pub open spec fn answer<S: State<C, E>, C: 'static, E: 'static>(
    tab: Seq<S>,
    chain: Seq<StateId>,
    c: C,
    e: E,
    k: nat,
) -> Transition<C, E> {
    tab[chain[k as int] as int].transition_spec(asked(tab, chain, c, e, k), e).0
}

/// The first `k` states of `chain` all decline the event.
pub open spec fn declined<S: State<C, E>, C: 'static, E: 'static>(
    tab: Seq<S>,
    chain: Seq<StateId>,
    c: C,
    e: E,
    k: nat,
) -> bool {
    forall|i: nat| i < k ==> #[trigger] answer(tab, chain, c, e, i) is Unknown
}

/// Asking a chain from its second state on, with the context that the first
/// state left, is asking the whole chain.
proof fn lemma_asked_shift<S: State<C, E>, C: 'static, E: 'static>(
    tab: Seq<S>,
    head: StateId,
    rest: Seq<StateId>,
    c: C,
    e: E,
    n: nat,
)
    requires
        n <= rest.len(),
    ensures
        asked(tab, seq![head] + rest, c, e, n + 1) == asked(
            tab,
            rest,
            tab[head as int].transition_spec(c, e).1,
            e,
            n,
        ),
    decreases n,
{
    let whole = seq![head] + rest;
    if n == 0 {
        assert(asked(tab, whole, c, e, 0) == c);
        assert(whole[0] == head);
    } else {
        lemma_asked_shift(tab, head, rest, c, e, (n - 1) as nat);
        assert(whole[n as int] == rest[n - 1]);
    }
}

/// While the states asked decline, the search goes on from the next state of
/// the chain with the context they have left.
proof fn lemma_bubble_skips_declined<S: State<C, E>, C: 'static, E: 'static>(
    tab: Seq<S>,
    s: StateId,
    c: C,
    e: E,
    k: nat,
)
    requires
        acyclic(tab),
        s < tab.len(),
        k < ancestors(tab, s).len(),
        declined(tab, ancestors(tab, s), c, e, k),
    ensures
        ancestors(tab, s)[k as int] < tab.len(),
        bubble(tab, s, c, e) == bubble(
            tab,
            ancestors(tab, s)[k as int],
            asked(tab, ancestors(tab, s), c, e, k),
            e,
        ),
    decreases k,
{
    let chain = ancestors(tab, s);
    lemma_ancestors_shape(tab, s);
    if k > 0 {
        assert(answer(tab, chain, c, e, 0) is Unknown);
        assert(tab[chain[0] as int].parent_spec() == Some(chain[1]));
        let p = chain[1];
        let c1 = tab[s as int].transition_spec(c, e).1;
        let rest = ancestors(tab, p);
        assert(chain =~= seq![s] + rest);
        assert(bubble(tab, s, c, e) == bubble(tab, p, c1, e));
        assert forall|i: nat| i < k - 1 implies #[trigger] answer(tab, rest, c1, e, i) is Unknown by {
            lemma_asked_shift(tab, s, rest, c, e, i);
            assert(answer(tab, chain, c, e, i + 1) is Unknown);
            assert(chain[i as int + 1] == rest[i as int]);
        }
        lemma_bubble_skips_declined(tab, p, c1, e, (k - 1) as nat);
        lemma_asked_shift(tab, s, rest, c, e, (k - 1) as nat);
        assert(chain[k as int] == rest[k - 1]);
    }
}

/// The handler chosen is the first state, on the way from the active state
/// to its root, whose answer is not `Unknown`: the states before it have
/// declined, and no state after it is asked, so that the context is as the
/// states up to the handler have left it.
pub proof fn law_first_answer_wins<S: State<C, E>, C: 'static, E: 'static>(
    tab: Seq<S>,
    s: StateId,
    c: C,
    e: E,
    k: nat,
)
    requires
        acyclic(tab),
        s < tab.len(),
        k < ancestors(tab, s).len(),
        declined(tab, ancestors(tab, s), c, e, k),
        !(answer(tab, ancestors(tab, s), c, e, k) is Unknown),
    ensures
        bubble(tab, s, c, e) == (
            answer(tab, ancestors(tab, s), c, e, k),
            asked(tab, ancestors(tab, s), c, e, k + 1),
        ),
{
    lemma_bubble_skips_declined(tab, s, c, e, k);
}

/// An event that every state from the active one up to its root declines is
/// a fault: the dispatch reports it as unhandled, and the only changes to
/// the context are those that the states made while declining.
pub proof fn law_unhandled_is_fatal<S: State<C, E>, C: 'static, E: 'static>(
    tab: Seq<S>,
    s: StateId,
    c: C,
    e: E,
)
    requires
        acyclic(tab),
        s < tab.len(),
        declined(tab, ancestors(tab, s), c, e, ancestors(tab, s).len()),
    ensures
        bubble(tab, s, c, e) == (
            Transition::<C, E>::Unknown,
            asked(tab, ancestors(tab, s), c, e, ancestors(tab, s).len()),
        ),
        dispatch_spec(tab, s, c, e) == Err::<(StateId, C), Fault>(Fault::Unhandled),
{
    let chain = ancestors(tab, s);
    lemma_ancestors_shape(tab, s);
    let k = (chain.len() - 1) as nat;
    assert(declined(tab, chain, c, e, k)) by {
        assert forall|i: nat| i < k implies #[trigger] answer(tab, chain, c, e, i) is Unknown by {}
    }
    lemma_bubble_skips_declined(tab, s, c, e, k);
    assert(answer(tab, chain, c, e, k) is Unknown);
}

/// An internal transition runs its behavior and nothing else: no state is
/// left or entered, and the active state stays, whichever ancestor of it
/// gave the answer.
pub proof fn law_internal_is_neutral<S: State<C, E>, C: 'static, E: 'static>(
    tab: Seq<S>,
    s: StateId,
    behavior: Option<&'static dyn Behavior<C, E>>,
    c: C,
    e: E,
)
    requires
        acyclic(tab),
        s < tab.len(),
    ensures
        route(tab, s, Transition::Internal(behavior)) matches Ok(r) && r.exits.len() == 0
            && r.entries.len() == 0 && r.target == s,
        traverse_spec(tab, s, Transition::Internal(behavior), c, e) == Ok::<(StateId, C), Fault>(
            (s, behave(behavior, c, e)),
        ),
        bubble(tab, s, c, e).0 == Transition::Internal(behavior) ==> dispatch_spec(tab, s, c, e) == Ok::<
            (StateId, C),
            Fault,
        >((s, behave(behavior, bubble(tab, s, c, e).1, e))),
{
}

/// An external transition of a state to itself leaves that state and enters
/// it again, once each and in that order, with the behavior between. The
/// state's own chain has to fit in `MAX_DEPTH` states, as for any transition
/// that names a target.
pub proof fn law_external_self_transition<S: State<C, E>, C: 'static, E: 'static>(
    tab: Seq<S>,
    s: StateId,
    behavior: Option<&'static dyn Behavior<C, E>>,
    c: C,
    e: E,
)
    requires
        acyclic(tab),
        s < tab.len(),
        ancestors(tab, s).len() <= MAX_DEPTH,
    ensures
        route(tab, s, Transition::External(s, behavior)) matches Ok(r) && r.exits == seq![s] && r.entries
            == seq![s] && r.target == s,
        traverse_spec(tab, s, Transition::External(s, behavior), c, e) == Ok::<(StateId, C), Fault>(
            (s, tab[s as int].entry_spec(behave(behavior, tab[s as int].exit_spec(c), e))),
        ),
{
    lemma_ancestors_shape(tab, s);
    let chain = ancestors(tab, s);
    let exits = exit_path(chain, 0, true);
    let entries = entry_path(chain, 0, true);
    assert(exits =~= seq![s]);
    assert(entries =~= seq![s]);
    assert(seq![s].drop_last() =~= Seq::<StateId>::empty());
    assert(exit_all(tab, seq![s], c) == tab[s as int].exit_spec(
        exit_all(tab, Seq::<StateId>::empty(), c),
    ));
    let between = behave(behavior, tab[s as int].exit_spec(c), e);
    assert(enter_all(tab, seq![s], between) == tab[s as int].entry_spec(
        enter_all(tab, Seq::<StateId>::empty(), between),
    ));
}

/// A state whose chain is longer than `MAX_DEPTH` cannot be the target of a
/// transition, not even of one from itself: the transition stops on a
/// fault, local or external. An internal transition names no target and
/// takes place.
pub proof fn law_depth_bounds_self_transition<S: State<C, E>, C: 'static, E: 'static>(
    tab: Seq<S>,
    s: StateId,
    behavior: Option<&'static dyn Behavior<C, E>>,
    c: C,
    e: E,
)
    requires
        acyclic(tab),
        s < tab.len(),
        ancestors(tab, s).len() > MAX_DEPTH,
    ensures
        traverse_spec(tab, s, Transition::Local(s, behavior), c, e) == Err::<(StateId, C), Fault>(
            Fault::DepthExceeded,
        ),
        traverse_spec(tab, s, Transition::External(s, behavior), c, e) == Err::<(StateId, C), Fault>(
            Fault::DepthExceeded,
        ),
        traverse_spec(tab, s, Transition::Internal(behavior), c, e) == Ok::<(StateId, C), Fault>(
            (s, behave(behavior, c, e)),
        ),
{
}

/// A transition from one state to another leaves the states of the source
/// chain below the common ancestor, innermost first, and enters the states
/// of the target chain below the common ancestor, outermost first. An
/// external transition also leaves the common ancestor, last, and enters it
/// again, first; a local one does not touch it. Every exit comes before the
/// behavior and every entry after it.
pub proof fn law_exit_entry_order<S: State<C, E>, C: 'static, E: 'static>(
    tab: Seq<S>,
    source: StateId,
    target: StateId,
    external: bool,
    behavior: Option<&'static dyn Behavior<C, E>>,
    c: C,
    e: E,
)
    requires
        acyclic(tab),
        source < tab.len(),
        target < tab.len(),
        structural_route(tab, source, target, external, behavior) is Ok,
    ensures
        ({
            let src = ancestors(tab, source);
            let tgt = ancestors(tab, target);
            let (i, j) = meeting_point(tab, source, target);
            let n: int = if external { 1 } else { 0 };
            let t = if external {
                Transition::External(target, behavior)
            } else {
                Transition::Local(target, behavior)
            };
            &&& is_first_common(src, tgt, i, j)
            &&& structural_route(tab, source, target, external, behavior) matches Ok(r) && {
                &&& r.target == target
                &&& r.behavior == behavior
                &&& r.exits.len() == i + n
                &&& forall|k: int| 0 <= k < i + n ==> #[trigger] r.exits[k] == src[k]
                &&& r.entries.len() == j + n
                &&& forall|k: int| 0 <= k < j + n ==> #[trigger] r.entries[k] == tgt[j + n - 1 - k]
                &&& traverse_spec(tab, source, t, c, e) == Ok::<(StateId, C), Fault>(
                    (target, enter_all(tab, r.entries, behave(behavior, exit_all(tab, r.exits, c), e))),
                )
            }
        }),
{
    let src = ancestors(tab, source);
    let tgt = ancestors(tab, target);
    lemma_ancestors_shape(tab, source);
    lemma_ancestors_shape(tab, target);
    if source == target {
        assert(meet_at(src, tgt, 0, 0));
    } else {
        lemma_first_common_exists(src, tgt);
    }
}

/// A local transition between two states under one parent leaves the one
/// and enters the other: the hooks of the parent they share do not run.
/// Where the chains are too long for the transition to take place, no hook
/// runs at all.
pub proof fn law_local_spares_shared_parent<S: State<C, E>, C: 'static, E: 'static>(
    tab: Seq<S>,
    s: StateId,
    t: StateId,
    parent: StateId,
    behavior: Option<&'static dyn Behavior<C, E>>,
    c: C,
    e: E,
)
    requires
        acyclic(tab),
        s < tab.len(),
        t < tab.len(),
        s != t,
        tab[s as int].parent_spec() == Some(parent),
        tab[t as int].parent_spec() == Some(parent),
    ensures
        ancestors(tab, s).len() == ancestors(tab, t).len(),
        match route(tab, s, Transition::Local(t, behavior)) {
            Ok(r) => r.exits == seq![s] && r.entries == seq![t] && r.target == t,
            Err(fault) => fault == Fault::DepthExceeded,
        },
        traverse_spec(tab, s, Transition::Local(t, behavior), c, e) == if ancestors(tab, s).len()
            <= MAX_DEPTH {
            Ok::<(StateId, C), Fault>(
                (t, tab[t as int].entry_spec(behave(behavior, tab[s as int].exit_spec(c), e))),
            )
        } else {
            Err::<(StateId, C), Fault>(Fault::DepthExceeded)
        },
{
    let src = ancestors(tab, s);
    let tgt = ancestors(tab, t);
    let up = ancestors(tab, parent);
    lemma_ancestors_shape(tab, s);
    lemma_ancestors_shape(tab, t);
    lemma_ancestors_shape(tab, parent);
    lemma_ancestors_rank(tab, s);
    lemma_ancestors_rank(tab, t);
    assert(src =~= seq![s] + up);
    assert(tgt =~= seq![t] + up);
    assert(src[1] == parent && tgt[1] == parent);
    assert(meet_at(src, tgt, 1, 1));
    assert forall|a: int, b: int| meet_at(src, tgt, a, b) implies 1 < a || (1 == a && 1 <= b) by {
        if a == 0 && b > 0 {
            assert(tab[tgt[b] as int].rank() < tab[t as int].rank());
            assert(tab[parent as int].rank() < tab[s as int].rank());
            assert(tgt[b] == up[b - 1]);
            if b > 1 {
                lemma_ancestors_rank(tab, parent);
                assert(tab[up[b - 1] as int].rank() < tab[parent as int].rank());
            }
        }
        if a == 1 && b == 0 {
            assert(tab[src[1] as int].rank() < tab[t as int].rank());
        }
    }
    lemma_first_common_unique(src, tgt, 1, 1);
    let exits = exit_path(src, 1, false);
    let entries = entry_path(tgt, 1, false);
    assert(exits =~= seq![s]);
    assert(entries =~= seq![t]);
    assert(seq![s].drop_last() =~= Seq::<StateId>::empty());
    assert(seq![t].drop_last() =~= Seq::<StateId>::empty());
    assert(exit_all(tab, seq![s], c) == tab[s as int].exit_spec(
        exit_all(tab, Seq::<StateId>::empty(), c),
    ));
    let between = behave(behavior, tab[s as int].exit_spec(c), e);
    assert(enter_all(tab, seq![t], between) == tab[t as int].entry_spec(
        enter_all(tab, Seq::<StateId>::empty(), between),
    ));
}

/// A transition stops on a fault in three cases and in no other: the
/// event was not handled; the transition names a target, be it the source
/// itself, and the chain of source or target is longer than `MAX_DEPTH`; or
/// the chains fit and do not meet. An internal transition never faults.
pub proof fn law_faults<S: State<C, E>, C: 'static, E: 'static>(
    tab: Seq<S>,
    source: StateId,
    t: Transition<C, E>,
    c: C,
    e: E,
)
    requires
        acyclic(tab),
        source < tab.len(),
        t.target_spec() matches Some(target) ==> target < tab.len(),
    ensures
        ({
            let outcome = traverse_spec(tab, source, t, c, e);
            let src = ancestors(tab, source);
            let structural = t.target_spec() is Some;
            let tgt = ancestors(tab, t.target_spec().unwrap());
            let fits = src.len() <= MAX_DEPTH && tgt.len() <= MAX_DEPTH;
            &&& outcome == Err::<(StateId, C), Fault>(Fault::Unhandled) <==> t is Unknown
            &&& outcome == Err::<(StateId, C), Fault>(Fault::DepthExceeded) <==> structural && !fits
            &&& outcome == Err::<(StateId, C), Fault>(Fault::NoCommonAncestor) <==> structural && fits
                && !have_common(src, tgt)
            &&& outcome is Ok <==> !(t is Unknown) && (structural ==> fits && have_common(src, tgt))
            &&& t is Internal ==> outcome is Ok
        }),
{
    if t.target_spec() == Some(source) {
        lemma_ancestors_shape(tab, source);
        let src = ancestors(tab, source);
        assert(meet_at(src, src, 0, 0));
    }
}

/// Dispatching one sequence of events and then another is dispatching the
/// two joined.
pub proof fn lemma_run_joined<S: State<C, E>, C: 'static, E: 'static>(
    tab: Seq<S>,
    s: StateId,
    c: C,
    first: Seq<E>,
    second: Seq<E>,
)
    ensures
        run(tab, s, c, first + second) == match run(tab, s, c, first) {
            Ok((s1, c1)) => run(tab, s1, c1, second),
            Err(fault) => Err(fault),
        },
    decreases second.len(),
{
    if second.len() == 0 {
        assert(first + second =~= first);
    } else {
        lemma_run_joined(tab, s, c, first, second.drop_last());
        assert((first + second).drop_last() =~= first + second.drop_last());
        assert((first + second).last() == second.last());
    }
}

/// A cycle of events that brings the machine back to the state it started
/// from, and on the way adds `k` to a count kept in the context, adds
/// `n * k` to that count when it is dispatched `n` times over, and again
/// ends in that state.
pub proof fn law_repeated_cycle_counts<S: State<C, E>, C: 'static, E: 'static>(
    tab: Seq<S>,
    s: StateId,
    c: C,
    events: Seq<E>,
    n: nat,
    count: spec_fn(C) -> int,
    k: int,
)
    requires
        forall|c0: C|
            (#[trigger] run(tab, s, c0, events)) matches Ok((s1, c1)) && s1 == s && count(c1) == count(
                c0,
            ) + k,
    ensures
        run(tab, s, c, repeated(events, n)) matches Ok((s1, c1)) && s1 == s && count(c1) == count(c)
            + n * k,
    decreases n,
{
    if n > 0 {
        law_repeated_cycle_counts(tab, s, c, events, (n - 1) as nat, count, k);
        lemma_run_joined(tab, s, c, repeated(events, (n - 1) as nat), events);
        let c1 = run(tab, s, c, repeated(events, (n - 1) as nat))->Ok_0.1;
        assert(run(tab, s, c1, events) is Ok);
        assert((n - 1) * k + k == n * k) by (nonlinear_arith);
    }
}

} // verus!

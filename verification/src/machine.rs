use crate::hierarchy::{
    ancestors, have_common, is_first_common, lemma_ancestors_shape, lemma_first_common_unique,
    meet_at, well_formed,
};
use crate::semantics::{
    bubble, dispatch_spec, enter_all, entry_path, exit_all, exit_path, outermost_first, resume,
    traverse_spec,
};
use crate::state::{Fault, State, StateId, Transition, MAX_DEPTH};
use core::marker::PhantomData;
use vstd::prelude::*;

verus! {

/// A machine over a fixed table of states. The table may hold states of one
/// type by value or, for states of several types, references to them. The
/// only thing that a dispatch changes in the machine is which state is
/// active.
#[verifier::reject_recursive_types(S)]
#[verifier::reject_recursive_types(C)]
#[verifier::reject_recursive_types(E)]
pub struct StateMachine<S: State<C, E> + 'static, C: 'static, E: 'static> {
    states: &'static [S],
    active_state: StateId,
    marker: PhantomData<(C, E)>,
}

/// The first `depth` entries of a chain buffer.
spec fn filled(chain: [StateId; MAX_DEPTH], depth: usize) -> Seq<StateId> {
    chain@.take(depth as int)
}

/// Finds the common ancestor of two chains: the first pair of positions, by
/// position in `sources` and then by position in `targets`, that hold the
/// same state.
fn common_ancestor(
    sources: &[StateId; MAX_DEPTH],
    source_depth: usize,
    targets: &[StateId; MAX_DEPTH],
    target_depth: usize,
) -> (r: Option<(usize, usize)>)
    requires
        source_depth <= MAX_DEPTH,
        target_depth <= MAX_DEPTH,
    ensures
        match r {
            Some((i, j)) => is_first_common(
                filled(*sources, source_depth),
                filled(*targets, target_depth),
                i as int,
                j as int,
            ),
            None => !have_common(filled(*sources, source_depth), filled(*targets, target_depth)),
        },
{
    let ghost src = filled(*sources, source_depth);
    let ghost tgt = filled(*targets, target_depth);
    let mut i: usize = 0;
    while i < source_depth
        invariant
            i <= source_depth <= MAX_DEPTH,
            target_depth <= MAX_DEPTH,
            src == filled(*sources, source_depth),
            tgt == filled(*targets, target_depth),
            forall|a: int, b: int| meet_at(src, tgt, a, b) ==> i <= a,
        decreases source_depth - i,
    {
        let mut j: usize = 0;
        while j < target_depth
            invariant
                i < source_depth <= MAX_DEPTH,
                j <= target_depth <= MAX_DEPTH,
                src == filled(*sources, source_depth),
                tgt == filled(*targets, target_depth),
                forall|a: int, b: int| meet_at(src, tgt, a, b) ==> i < a || (i == a && j <= b),
            decreases target_depth - j,
        {
            if sources[i] == targets[j] {
                return Some((i, j));
            }
            j += 1;
        }
        i += 1;
    }
    None
}

/// Whether a state has declined the event.
fn is_unknown<C: 'static, E: 'static>(transition: &Transition<C, E>) -> (r: bool)
    ensures
        r == (transition is Unknown),
{
    match transition {
        Transition::Unknown => true,
        _ => false,
    }
}

impl<S: State<C, E> + 'static, C: 'static, E: 'static> StateMachine<S, C, E> {
    /// The table of states that the machine runs on.
    pub closed spec fn table(&self) -> Seq<S> {
        self.states@
    }

    /// The identity of the active state.
    pub closed spec fn active_spec(&self) -> StateId {
        self.active_state
    }

    /// The table is well formed and the active state is one of its states.
    #[verifier::type_invariant]
    spec fn wf(&self) -> bool {
        well_formed(self.states@) && self.active_state < self.states@.len()
    }

    /// A machine on `states` whose active state is `initial`. No entry hook
    /// runs: the first event dispatched is expected to move the machine into
    /// its starting configuration.
    pub fn new(states: &'static [S], initial: StateId) -> (m: Self)
        requires
            well_formed(states@),
            initial < states@.len(),
        ensures
            m.table() == states@,
            m.active_spec() == initial,
    {
        Self { states, active_state: initial, marker: PhantomData }
    }

    /// The identity of the active state.
    pub fn active(&self) -> (r: StateId)
        ensures
            r == self.active_spec(),
            r < self.table().len(),
    {
        proof {
            use_type_invariant(self);
        }
        self.active_state
    }

    /// Offers `event` to the active state and then to its ancestors in turn,
    /// until one of them answers, and carries out that answer from the active
    /// state. A fault leaves the active state as it was, with no entry or
    /// exit hook run; the context is then as the states asked have left it.
    pub fn dispatch(&mut self, context: &mut C, event: &E) -> (r: Result<(), Fault>)
        ensures
            final(self).table() == old(self).table(),
            match dispatch_spec(old(self).table(), old(self).active_spec(), *old(context), *event) {
                Ok((target, after)) => r is Ok && final(self).active_spec() == target && *final(context)
                    == after,
                Err(fault) => r == Err::<(), Fault>(fault) && final(self).active_spec() == old(
                    self,
                ).active_spec() && *final(context) == bubble(
                    old(self).table(),
                    old(self).active_spec(),
                    *old(context),
                    *event,
                ).1,
            },
    {
        proof {
            use_type_invariant(&*self);
        }
        let ghost tab = self.table();
        let ghost before = *context;
        let mut effective_state: StateId = self.active_state;
        let mut transition = self.states[effective_state].transition(context, event);
        let mut parent = self.states[effective_state].parent();
        assert(transition == tab[effective_state as int].transition_spec(before, *event).0);
        while is_unknown(&transition) && parent.is_some()
            invariant
                well_formed(tab),
                tab == self.table(),
                self.active_spec() == old(self).active_spec(),
                effective_state < tab.len(),
                parent == tab[effective_state as int].parent_spec(),
                transition.target_spec() matches Some(target) ==> target < tab.len(),
                bubble(tab, self.active_spec(), before, *event) == resume(
                    tab,
                    effective_state,
                    transition,
                    *context,
                    *event,
                ),
            decreases tab[effective_state as int].rank(),
        {
            let ghost asked = *context;
            effective_state = parent.unwrap();
            transition = self.states[effective_state].transition(context, event);
            parent = self.states[effective_state].parent();
            assert(transition == tab[effective_state as int].transition_spec(asked, *event).0);
        }
        self.traverse(context, event, transition)
    }

    /// Builds the ancestor chain of `start` in a buffer of `MAX_DEPTH`
    /// entries; `None` if the chain does not fit.
    fn ancestor_chain(&self, start: StateId) -> (r: Option<([StateId; MAX_DEPTH], usize)>)
        requires
            start < self.table().len(),
        ensures
            match r {
                Some((chain, depth)) => 1 <= depth <= MAX_DEPTH && filled(chain, depth) == ancestors(
                    self.table(),
                    start,
                ),
                None => ancestors(self.table(), start).len() > MAX_DEPTH,
            },
    {
        proof {
            use_type_invariant(self);
        }
        let ghost tab = self.table();
        let mut chain: [StateId; MAX_DEPTH] = [start; MAX_DEPTH];
        let mut depth: usize = 1;
        let mut topmost: StateId = start;
        assert(filled(chain, depth).drop_last() =~= Seq::<StateId>::empty());
        loop
            invariant
                well_formed(tab),
                tab == self.table(),
                1 <= depth <= MAX_DEPTH,
                topmost < tab.len(),
                topmost == chain[depth - 1],
                ancestors(tab, start) =~= filled(chain, depth).drop_last() + ancestors(tab, topmost),
            decreases tab[topmost as int].rank(),
        {
            proof {
                lemma_ancestors_shape(tab, topmost);
            }
            match self.states[topmost].parent() {
                None => {
                    assert(ancestors(tab, topmost) =~= seq![topmost]);
                    assert(filled(chain, depth) =~= filled(chain, depth).drop_last() + seq![topmost]);
                    return Some((chain, depth));
                },
                Some(parent_state) => {
                    proof {
                        lemma_ancestors_shape(tab, parent_state);
                    }
                    assert(ancestors(tab, topmost) =~= seq![topmost] + ancestors(tab, parent_state));
                    if depth == MAX_DEPTH {
                        return None;
                    }
                    let ghost before = filled(chain, depth);
                    topmost = parent_state;
                    chain[depth] = topmost;
                    depth += 1;
                    assert(filled(chain, depth).drop_last() =~= before);
                    assert(before =~= before.drop_last() + seq![before.last()]);
                },
            }
        }
    }

    /// Runs the exit hooks of the first `count` states of `chain`, innermost
    /// first.
    fn leave(&self, context: &mut C, chain: &[StateId; MAX_DEPTH], count: usize)
        requires
            count <= MAX_DEPTH,
            forall|k: int| 0 <= k < count ==> (#[trigger] chain[k]) < self.table().len(),
        ensures
            *final(context) == exit_all(self.table(), filled(*chain, count), *old(context)),
    {
        let ghost tab = self.table();
        let ghost before = *context;
        let ghost path = filled(*chain, count);
        let mut i: usize = 0;
        assert(path.take(0) =~= Seq::<StateId>::empty());
        while i < count
            invariant
                tab == self.table(),
                i <= count <= MAX_DEPTH,
                path == filled(*chain, count),
                forall|k: int| 0 <= k < count ==> (#[trigger] chain[k]) < tab.len(),
                *context == exit_all(tab, path.take(i as int), before),
            decreases count - i,
        {
            assert(path.take(i + 1).drop_last() =~= path.take(i as int));
            assert(path.take(i + 1).last() == chain[i as int]);
            self.states[chain[i]].exit(context);
            i += 1;
        }
        assert(path.take(count as int) =~= path);
    }

    /// Runs the entry hooks of the first `count` states of `chain`, outermost
    /// first.
    fn enter(&self, context: &mut C, chain: &[StateId; MAX_DEPTH], count: usize)
        requires
            count <= MAX_DEPTH,
            forall|k: int| 0 <= k < count ==> (#[trigger] chain[k]) < self.table().len(),
        ensures
            *final(context) == enter_all(
                self.table(),
                outermost_first(filled(*chain, count)),
                *old(context),
            ),
    {
        let ghost tab = self.table();
        let ghost before = *context;
        let ghost path = outermost_first(filled(*chain, count));
        let mut j: usize = count;
        assert(path.take(0) =~= Seq::<StateId>::empty());
        while j > 0
            invariant
                tab == self.table(),
                j <= count <= MAX_DEPTH,
                path == outermost_first(filled(*chain, count)),
                forall|k: int| 0 <= k < count ==> (#[trigger] chain[k]) < tab.len(),
                *context == enter_all(tab, path.take(count - j), before),
            decreases j,
        {
            let ghost done = count - j;
            j -= 1;
            assert(path.take(done + 1).drop_last() =~= path.take(done));
            assert(path.take(done + 1).last() == chain[j as int]);
            self.states[chain[j]].entry(context);
        }
        assert(path.take(count as int) =~= path);
    }

    /// Carries out `transition` from the active state: leaves the states of
    /// the exit path innermost first, runs the behavior, enters the states of
    /// the entry path outermost first, and makes the target active. A local
    /// or external transition first builds both ancestor chains, also where
    /// it leads to the active state itself; an internal one builds none. A
    /// fault is found before any hook has run and leaves machine and context
    /// as they were.
    pub fn traverse(&mut self, context: &mut C, event: &E, transition: Transition<C, E>) -> (r: Result<
        (),
        Fault,
    >)
        requires
            transition.target_spec() matches Some(target) ==> target < old(self).table().len(),
        ensures
            final(self).table() == old(self).table(),
            match traverse_spec(
                old(self).table(),
                old(self).active_spec(),
                transition,
                *old(context),
                *event,
            ) {
                Ok((target, after)) => r is Ok && final(self).active_spec() == target && *final(context)
                    == after,
                Err(fault) => r == Err::<(), Fault>(fault) && final(self).active_spec() == old(
                    self,
                ).active_spec() && *final(context) == *old(context),
            },
    {
        proof {
            use_type_invariant(&*self);
        }
        let ghost tab = self.table();
        let source_state = self.active_state;
        let (target_state, transition_behavior, external, structural) = match transition {
            Transition::External(state, behavior) => (state, behavior, true, true),
            Transition::Local(state, behavior) => (state, behavior, false, true),
            Transition::Internal(behavior) => (source_state, behavior, false, false),
            Transition::Unknown => {
                return Err(Fault::Unhandled);
            },
        };
        let ghost src = ancestors(tab, source_state);
        let ghost tgt = ancestors(tab, target_state);

        let mut sources: [StateId; MAX_DEPTH] = [source_state; MAX_DEPTH];
        let mut targets: [StateId; MAX_DEPTH] = [target_state; MAX_DEPTH];
        let mut source_top: usize = 0;
        let mut target_top: usize = 0;

        proof {
            lemma_ancestors_shape(tab, source_state);
            lemma_ancestors_shape(tab, target_state);
        }
        if structural {
            let source_depth: usize;
            let target_depth: usize;
            match self.ancestor_chain(source_state) {
                Some((chain, depth)) => {
                    sources = chain;
                    source_depth = depth;
                },
                None => {
                    return Err(Fault::DepthExceeded);
                },
            }
            match self.ancestor_chain(target_state) {
                Some((chain, depth)) => {
                    targets = chain;
                    target_depth = depth;
                },
                None => {
                    return Err(Fault::DepthExceeded);
                },
            }
            if source_state != target_state {
                match common_ancestor(&sources, source_depth, &targets, target_depth) {
                    Some((i, j)) => {
                        source_top = i;
                        target_top = j;
                        proof {
                            lemma_first_common_unique(src, tgt, i as int, j as int);
                        }
                    },
                    None => {
                        return Err(Fault::NoCommonAncestor);
                    },
                }
            }
        }
        let exit_count: usize = if external { source_top + 1 } else { source_top };
        let entry_count: usize = if external { target_top + 1 } else { target_top };
        proof {
            assert(filled(sources, exit_count) =~= exit_path(src, source_top as int, external));
            assert(outermost_first(filled(targets, entry_count)) =~= entry_path(
                tgt,
                target_top as int,
                external,
            ));
            assert(forall|k: int| 0 <= k < exit_count ==> #[trigger] sources[k] == src[k]);
            assert(forall|k: int| 0 <= k < entry_count ==> #[trigger] targets[k] == tgt[k]);
            if transition is Internal {
                assert(exit_path(src, 0, false) =~= Seq::<StateId>::empty());
                assert(entry_path(tgt, 0, false) =~= Seq::<StateId>::empty());
            }
        }

        self.leave(context, &sources, exit_count);
        if let Some(action) = transition_behavior {
            action.run(context, event);
        }
        self.enter(context, &targets, entry_count);

        self.active_state = target_state;
        Ok(())
    }
}

} // verus!

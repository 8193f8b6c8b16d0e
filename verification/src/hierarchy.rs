use crate::state::{State, StateId};
use vstd::prelude::*;

verus! {

/// Every parent named in the table is a state of the table, of lower rank
/// than its child: following parents from any state ends at a root.
pub open spec fn acyclic<S: State<C, E>, C: 'static, E: 'static>(tab: Seq<S>) -> bool {
    forall|s: int|
        0 <= s < tab.len() ==> match (#[trigger] tab[s]).parent_spec() {
            Some(p) => p < tab.len() && tab[p as int].rank() < tab[s].rank(),
            None => true,
        }
}

/// Every state that a transition can name is a state of the table.
pub open spec fn targets_known<S: State<C, E>, C: 'static, E: 'static>(tab: Seq<S>) -> bool {
    forall|s: int, c: C, e: E|
        0 <= s < tab.len() ==> match (#[trigger] tab[s].transition_spec(c, e)).0.target_spec() {
            Some(t) => t < tab.len(),
            None => true,
        }
}

/// A table that the engine can run on.
pub open spec fn well_formed<S: State<C, E>, C: 'static, E: 'static>(tab: Seq<S>) -> bool {
    acyclic(tab) && targets_known(tab)
}

/// The ancestor chain of `s`: the state itself, its parent, and so on up to
/// its root.
pub open spec fn ancestors<S: State<C, E>, C: 'static, E: 'static>(
    tab: Seq<S>,
    s: StateId,
) -> Seq<StateId>
    decreases tab[s as int].rank(),
    when acyclic(tab) && s < tab.len()
{
    match tab[s as int].parent_spec() {
        Some(p) => seq![s] + ancestors(tab, p),
        None => seq![s],
    }
}

/// Position `i` of `src` and position `j` of `tgt` hold the same state.
pub open spec fn meet_at(src: Seq<StateId>, tgt: Seq<StateId>, i: int, j: int) -> bool {
    0 <= i < src.len() && 0 <= j < tgt.len() && src[i] == tgt[j]
}

/// The two chains hold a state in common.
pub open spec fn have_common(src: Seq<StateId>, tgt: Seq<StateId>) -> bool {
    exists|i: int, j: int| meet_at(src, tgt, i, j)
}

/// `(i, j)` is the meeting point with the lowest position in `src` and,
/// among those, the lowest position in `tgt`.
pub open spec fn is_first_common(src: Seq<StateId>, tgt: Seq<StateId>, i: int, j: int) -> bool {
    &&& meet_at(src, tgt, i, j)
    &&& forall|a: int, b: int| meet_at(src, tgt, a, b) ==> i < a || (i == a && j <= b)
}

/// The positions of the common ancestor in the two chains.
pub open spec fn first_common(src: Seq<StateId>, tgt: Seq<StateId>) -> (int, int) {
    choose|p: (int, int)| is_first_common(src, tgt, p.0, p.1)
}

/// There is at most one first meeting point, so finding one finds
/// `first_common`.
pub proof fn lemma_first_common_unique(src: Seq<StateId>, tgt: Seq<StateId>, i: int, j: int)
    requires
        is_first_common(src, tgt, i, j),
    ensures
        have_common(src, tgt),
        first_common(src, tgt) == (i, j),
{
    assert(meet_at(src, tgt, i, j));
    let found: (int, int) = (i, j);
    assert(is_first_common(src, tgt, found.0, found.1));
    let p = first_common(src, tgt);
    assert(is_first_common(src, tgt, p.0, p.1));
    assert(meet_at(src, tgt, p.0, p.1));
}

/// The chain starts at the state, holds only states of the table, and the
/// parent of each entry is the next one; the last entry is a root.
pub proof fn lemma_ancestors_shape<S: State<C, E>, C: 'static, E: 'static>(tab: Seq<S>, s: StateId)
    requires
        acyclic(tab),
        s < tab.len(),
    ensures
        ancestors(tab, s).len() >= 1,
        ancestors(tab, s)[0] == s,
        forall|k: int|
            0 <= k < ancestors(tab, s).len() ==> (#[trigger] ancestors(tab, s)[k]) < tab.len(),
        forall|k: int|
            0 <= k < ancestors(tab, s).len() - 1 ==> (#[trigger] tab[ancestors(
                tab,
                s,
            )[k] as int]).parent_spec() == Some(ancestors(tab, s)[k + 1]),
        tab[ancestors(tab, s).last() as int].parent_spec() is None,
    decreases tab[s as int].rank(),
{
    match tab[s as int].parent_spec() {
        Some(p) => {
            lemma_ancestors_shape(tab, p);
            let rest = ancestors(tab, p);
            let all = ancestors(tab, s);
            assert(all =~= seq![s] + rest);
            assert forall|k: int| 0 <= k < all.len() implies (#[trigger] all[k]) < tab.len() by {
                if k > 0 {
                    assert(all[k] == rest[k - 1]);
                }
            }
            assert forall|k: int| 0 <= k < all.len() - 1 implies (#[trigger] tab[all[k]
                as int]).parent_spec() == Some(all[k + 1]) by {
                if k > 0 {
                    assert(all[k] == rest[k - 1]);
                    assert(all[k + 1] == rest[k]);
                } else {
                    assert(all[1] == rest[0]);
                }
            }
            assert(all.last() == rest.last());
        },
        None => {},
    }
}

/// Every state of the chain above its first has a lower rank than the
/// first: no state is its own ancestor.
pub proof fn lemma_ancestors_rank<S: State<C, E>, C: 'static, E: 'static>(tab: Seq<S>, s: StateId)
    requires
        acyclic(tab),
        s < tab.len(),
    ensures
        forall|k: int|
            0 < k < ancestors(tab, s).len() ==> tab[(#[trigger] ancestors(tab, s)[k]) as int].rank()
                < tab[s as int].rank(),
    decreases tab[s as int].rank(),
{
    match tab[s as int].parent_spec() {
        Some(p) => {
            lemma_ancestors_rank(tab, p);
            lemma_ancestors_shape(tab, p);
            let rest = ancestors(tab, p);
            let all = ancestors(tab, s);
            assert(all =~= seq![s] + rest);
            assert forall|k: int| 0 < k < all.len() implies tab[(#[trigger] all[k]) as int].rank()
                < tab[s as int].rank() by {
                assert(all[k] == rest[k - 1]);
            }
        },
        None => {},
    }
}

/// The search for the first meeting point from position `(i, j)` on, given
/// that the chains do not meet before it.
proof fn lemma_scan(src: Seq<StateId>, tgt: Seq<StateId>, i: int, j: int) -> (p: (int, int))
    requires
        have_common(src, tgt),
        0 <= i <= src.len(),
        0 <= j <= tgt.len(),
        forall|a: int, b: int| meet_at(src, tgt, a, b) ==> i < a || (i == a && j <= b),
    ensures
        is_first_common(src, tgt, p.0, p.1),
    decreases src.len() - i, tgt.len() - j,
{
    if i == src.len() {
        let (a, b) = choose|a: int, b: int| meet_at(src, tgt, a, b);
        assert(meet_at(src, tgt, a, b));
        (0, 0)
    } else if j == tgt.len() {
        lemma_scan(src, tgt, i + 1, 0)
    } else if src[i] == tgt[j] {
        assert(meet_at(src, tgt, i, j));
        (i, j)
    } else {
        lemma_scan(src, tgt, i, j + 1)
    }
}

/// Two chains that meet have a first meeting point, and `first_common`
/// names it.
pub proof fn lemma_first_common_exists(src: Seq<StateId>, tgt: Seq<StateId>)
    requires
        have_common(src, tgt),
    ensures
        is_first_common(src, tgt, first_common(src, tgt).0, first_common(src, tgt).1),
{
    let p = lemma_scan(src, tgt, 0, 0);
    lemma_first_common_unique(src, tgt, p.0, p.1);
}

} // verus!

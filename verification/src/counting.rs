//! Counting a playout for the games that it went through.
use crate::game::Game;
use crate::mcts::{credited, next_of, MAX_PLAYOUTS, MTCS};
use crate::playout::{is_playout, lemma_playout_is_short, plays_on};
use vstd::prelude::*;

verus! {

impl MTCS {
    /// Whether `after` is this tree once the playout along `path` has been
    /// counted for the first `done` games of it: each of them has an entry,
    /// which is as `credited` says, and nothing else has changed.
    pub open spec fn credits(
        &self,
        after: &MTCS,
        path: Seq<Game>,
        outcome: int,
        done: int,
    ) -> bool {
        &&& after.runs() == self.runs() + 1
        &&& forall|g: Game|
            after@.dom().contains(g) <==> self@.dom().contains(g) || path.take(done).contains(g)
        &&& forall|g: Game|
            !path.take(done).contains(g) ==> #[trigger] after.stats(g) == self.stats(g)
        &&& forall|j: int|
            0 <= j < done ==> after@[#[trigger] path[j]] == credited(
                self.stats(path[j]),
                outcome,
                next_of(path, j),
            )
    }

    /// Counts the playout along `path` for every game of it: each gets an
    /// entry if it has none, the game that follows it is listed among its
    /// children, its visits are one more, and the outcome is added to its
    /// score.
    pub(crate) fn backpropagate(&mut self, path: &Vec<Game>, outcome: i8)
        requires
            old(self).wf(),
            old(self).runs() < MAX_PLAYOUTS,
            path@.len() > 0,
            is_playout(path@[0], path@),
            -1 <= outcome <= 1,
        ensures
            final(self).wf(),
            old(self).credits(final(self), path@, outcome as int, path@.len() as int),
    {
        self.begin_playout();
        proof {
            lemma_playout_is_short(path@[0], path@);
            assert(path@.take(0).len() == 0);
        }
        let mut i: usize = 0;
        while i < path.len()
            invariant
                i <= path@.len(),
                self.wf(),
                old(self).wf(),
                old(self).runs() < MAX_PLAYOUTS,
                is_playout(path@[0], path@),
                path@.no_duplicates(),
                -1 <= outcome <= 1,
                old(self).credits(self, path@, outcome as int, i as int),
            decreases path@.len() - i,
        {
            let state = path[i];
            let next = if i + 1 < path.len() {
                Some(path[i + 1])
            } else {
                None
            };
            let ghost before = *self;
            proof {
                assert(!path@.take(i as int).contains(state));
                assert(self.stats(state) == old(self).stats(state));
                if old(self)@.dom().contains(state) {
                    assert(old(self).entry_ok(state));
                }
            }
            self.credit(state, next, outcome);
            proof {
                lemma_credited(*old(self), before, *self, path@, outcome as int, i as int);
            }
            i += 1;
        }
        proof {
            assert(path@.take(path@.len() as int) =~= path@);
        }
    }
}

/// One step of counting a playout: if the first `i` games of `path` have
/// been counted in `before`, and `after` differs from it by what the
/// playout leaves of the entry of `path[i]`, then the first `i + 1` games
/// have been counted in `after`, which is as good a tree as `start` was.
proof fn lemma_credited(
    start: MTCS,
    before: MTCS,
    after: MTCS,
    path: Seq<Game>,
    outcome: int,
    i: int,
)
    requires
        start.wf(),
        start.runs() < MAX_PLAYOUTS,
        before.wf(),
        after.inv(),
        after.runs() == before.runs(),
        is_playout(path[0], path),
        path.no_duplicates(),
        -1 <= outcome <= 1,
        0 <= i < path.len(),
        start.credits(&before, path, outcome, i),
        after@ == before@.insert(path[i], credited(before.stats(path[i]), outcome, next_of(path, i))),
    ensures
        after.wf(),
        start.credits(&after, path, outcome, i + 1),
{
    let state = path[i];
    let shorter = path.take(i);
    let longer = path.take(i + 1);
    assert(longer =~= shorter.push(state));
    assert(!shorter.contains(state));
    assert(before.stats(state) == start.stats(state));
    let held = start.stats(state);
    let left = credited(held, outcome, next_of(path, i));
    if start@.dom().contains(state) {
        assert(start.entry_ok(state));
    }
    assert forall|g: Game| #[trigger] after@.dom().contains(g) implies after.entry_ok(g) by {
        if g == state {
            assert forall|k: int| 0 <= k < left.children.len() implies state.steps_to(
                #[trigger] left.children[k],
            ) by {
                if k < held.children.len() {
                    assert(left.children[k] == held.children[k]);
                } else {
                    assert(plays_on(path, i));
                }
            }
        } else {
            assert(before@.dom().contains(g));
            assert(before.entry_ok(g));
        }
    }
    assert forall|g: Game|
        after@.dom().contains(g) <==> start@.dom().contains(g) || longer.contains(g) by {
        if shorter.contains(g) {
            let j = choose|j: int| 0 <= j < shorter.len() && shorter[j] == g;
            assert(longer[j] == g);
        }
        if longer.contains(g) && g != state {
            let j = choose|j: int| 0 <= j < longer.len() && longer[j] == g;
            assert(shorter[j] == g);
        }
        assert(longer[i] == state);
    }
    assert forall|g: Game| !longer.contains(g) implies #[trigger] after.stats(g)
        == start.stats(g) by {
        assert(longer[i] == state);
        if shorter.contains(g) {
            let j = choose|j: int| 0 <= j < shorter.len() && shorter[j] == g;
            assert(longer[j] == g);
        }
        assert(before.stats(g) == start.stats(g));
    }
    assert forall|j: int| 0 <= j < i + 1 implies after@[#[trigger] path[j]] == credited(
        start.stats(path[j]),
        outcome,
        next_of(path, j),
    ) by {
        if j < i {
            assert(path[j] != state);
        }
    }
}

/// A playout that has been counted in a tree in which its game `k + 1`
/// was listed beforehand as a child of its game `k` has as well been
/// counted in the tree without that: a child is listed once.
pub(crate) proof fn lemma_counted_from(
    before: MTCS,
    grown: MTCS,
    after: MTCS,
    path: Seq<Game>,
    outcome: int,
    k: int,
)
    requires
        path.no_duplicates(),
        0 <= k < path.len(),
        grown.runs() == before.runs(),
        grown == before || (k + 1 < path.len() && grown@ == before@.insert(
            path[k],
            before.stats(path[k]).with_child(path[k + 1]),
        )),
        grown.credits(&after, path, outcome, path.len() as int),
    ensures
        before.credits(&after, path, outcome, path.len() as int),
{
    let whole = path.take(path.len() as int);
    assert(whole =~= path);
    if grown != before {
        assert(path.contains(path[k]));
        assert forall|g: Game| !whole.contains(g) implies #[trigger] after.stats(g) == before.stats(
            g,
        ) by {
            assert(after.stats(g) == grown.stats(g));
        }
        assert forall|j: int| 0 <= j < path.len() implies after@[#[trigger] path[j]] == credited(
            before.stats(path[j]),
            outcome,
            next_of(path, j),
        ) by {
            assert(after@[path[j]] == credited(grown.stats(path[j]), outcome, next_of(path, j)));
            if j == k {
                let listed = before.stats(path[k]).with_child(path[k + 1]);
                if !before.stats(path[k]).children.contains(path[k + 1]) {
                    assert(listed.children.last() == path[k + 1]);
                }
                assert(listed.with_child(path[k + 1]) == listed);
            } else {
                assert(path[j] != path[k]);
            }
        }
    }
}

/// A tree for which a playout has been counted has grown: the first game
/// of the playout has one visit more, and the second, if there is one, is
/// among the children of the first.
pub(crate) proof fn lemma_credits_grow(before: MTCS, after: MTCS, path: Seq<Game>, outcome: int)
    requires
        path.len() > 0,
        before.credits(&after, path, outcome, path.len() as int),
    ensures
        before.grows_to(&after),
        after.stats(path[0]).visits == before.stats(path[0]).visits + 1,
        path.len() > 1 ==> after.children(path[0]).len() > 0,
{
    assert(path.take(path.len() as int) =~= path);
    assert forall|g: Game| #[trigger] before@.dom().contains(g) implies after@.dom().contains(g)
        && before@[g].visits <= after@[g].visits && before@[g].children.is_prefix_of(
        after@[g].children,
    ) by {
        if path.contains(g) {
            let j = choose|j: int| 0 <= j < path.len() && path[j] == g;
            assert(after@[path[j]] == credited(before.stats(path[j]), outcome, next_of(path, j)));
            assert(before@[g].children =~= after@[g].children.subrange(
                0,
                before@[g].children.len() as int,
            ));
        } else {
            assert(after.stats(g) == before.stats(g));
        }
    }
    assert(path.contains(path[0]));
    assert(after@[path[0]] == credited(before.stats(path[0]), outcome, next_of(path, 0)));
    if path.len() > 1 {
        let held = before.stats(path[0]).with_child(path[1]);
        if !before.stats(path[0]).children.contains(path[1]) {
            assert(held.children.last() == path[1]);
        } else {
            let j = choose|j: int|
                0 <= j < before.stats(path[0]).children.len() && before.stats(path[0]).children[j]
                    == path[1];
        }
    }
}

} // verus!

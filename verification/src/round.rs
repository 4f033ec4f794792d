//! One round of the search: down the tree, one new child, a random
//! playout from there, and the outcome counted on the way back.
use crate::board::GameState;
use crate::counting::{lemma_counted_from, lemma_credits_grow};
use crate::game::Game;
use crate::mcts::{MAX_PLAYOUTS, MTCS};
use crate::playout::{is_playout, lemma_playout_is_short, outcome_value, play_on};
use crate::selection::{judges_all, Ucb1Terms};
use vstd::prelude::*;

verus! {

impl MTCS {
    /// Whether `after` is this tree after one round from `root` that goes
    /// down the tree along `way` and on to the end of a game along `path`:
    /// `way` is where selection goes; where it ends at a game in progress,
    /// `path` goes on with the first child of that game that is not listed
    /// yet; `path` is a line of play to the end of a game; and the playout
    /// along it has been counted, with what its last game counts for.
    pub open spec fn round_along<F: Fn(Ucb1Terms, Ucb1Terms) -> bool>(
        &self,
        after: &MTCS,
        exceeds: &F,
        root: Game,
        way: Seq<Game>,
        path: Seq<Game>,
    ) -> bool {
        &&& self.is_descent(exceeds, root, way)
        &&& way.is_prefix_of(path)
        &&& is_playout(root, path)
        &&& if way.last().outcome() == GameState::InProgress {
            path.len() > way.len() && self.is_first_untried(way.last(), path[way.len() as int])
        } else {
            path == way
        }
        &&& self.credits(after, path, outcome_value(path.last().outcome()), path.len() as int)
    }

    /// Whether `after` is this tree after one round from `root`.
    pub open spec fn is_round<F: Fn(Ucb1Terms, Ucb1Terms) -> bool>(
        &self,
        after: &MTCS,
        exceeds: &F,
        root: Game,
    ) -> bool {
        exists|way: Seq<Game>, path: Seq<Game>| #[trigger]
            self.round_along(after, exceeds, root, way, path)
    }

    /// One round of the search: goes down the tree from `root` by
    /// selection, adds a child where something is left to try, plays from
    /// there to the end at random, and counts the outcome for every game
    /// on the way.
    pub(crate) fn iterate<F: Fn(Ucb1Terms, Ucb1Terms) -> bool>(&mut self, root: Game, exceeds: &F)
        requires
            old(self).wf(),
            old(self).runs() < MAX_PLAYOUTS,
            root.wf(),
            judges_all(exceeds),
        ensures
            final(self).wf(),
            old(self).is_round(final(self), exceeds, root),
            final(self).runs() == old(self).runs() + 1,
            old(self).grows_to(final(self)),
            final(self).stats(root).visits == old(self).stats(root).visits + 1,
            root.outcome() == GameState::InProgress ==> final(self).children(root).len() > 0,
    {
        let (mut path, depth) = self.reach(root, exceeds);
        let ghost way = path@.take(depth as int);
        let ghost trunk = path@;
        let ghost grown = *self;
        let outcome = play_on(&mut path);
        proof {
            assert(way.last() == trunk[depth - 1]);
            if way.last().outcome() == GameState::InProgress {
                assert(path@[depth as int] == trunk.last());
            }
        }
        self.backpropagate(&path, outcome);
        proof {
            lemma_round_done(*old(self), grown, *self, exceeds, root, way, path@, outcome as int);
        }
    }
}

/// What a round comes to. The tree `before` is gone down along `way`;
/// where that ends at a game in progress, the first child of it that is not
/// listed yet is listed, which gives the tree `grown`; the playout along
/// `path` is counted, which gives the tree `after`. Then `after` is what one
/// round makes of `before`, and it has grown from it.
proof fn lemma_round_done<F: Fn(Ucb1Terms, Ucb1Terms) -> bool>(
    before: MTCS,
    grown: MTCS,
    after: MTCS,
    exceeds: &F,
    root: Game,
    way: Seq<Game>,
    path: Seq<Game>,
    outcome: int,
)
    requires
        before.is_descent(exceeds, root, way),
        is_playout(root, path),
        way.len() <= path.len(),
        forall|j: int| 0 <= j < way.len() ==> path[j] == way[j],
        grown.runs() == before.runs(),
        if way.last().outcome() == GameState::InProgress {
            path.len() > way.len() && before.is_first_untried(way.last(), path[way.len() as int])
                && grown@ == before@.insert(
                way.last(),
                before.stats(way.last()).with_child(path[way.len() as int]),
            )
        } else {
            path.len() == way.len() && grown == before
        },
        outcome == outcome_value(path.last().outcome()),
        grown.credits(&after, path, outcome, path.len() as int),
    ensures
        before.is_round(&after, exceeds, root),
        before.grows_to(&after),
        after.stats(root).visits == before.stats(root).visits + 1,
        root.outcome() == GameState::InProgress ==> after.children(root).len() > 0,
{
    lemma_playout_is_short(root, path);
    lemma_counted_from(before, grown, after, path, outcome, way.len() - 1);
    lemma_credits_grow(before, after, path, outcome);
    assert(way =~= path.subrange(0, way.len() as int));
    if way.last().outcome() != GameState::InProgress {
        assert(path =~= way);
    }
    assert(before.round_along(&after, exceeds, root, way, path));
}

} // verus!

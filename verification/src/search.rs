//! The search: a number of rounds, and the pick among the children of the
//! root at the end.
use crate::board::GameState;
use crate::game::Game;
use crate::mcts::{lemma_grows_on, MAX_PLAYOUTS, MTCS};
use crate::selection::{judges_all, Ucb1Terms};
use vstd::prelude::*;

verus! {

/// Whether the tree after `trees[i]` is what one round from `root` makes of it.
pub open spec fn round_at<F: Fn(Ucb1Terms, Ucb1Terms) -> bool>(
    trees: Seq<MTCS>,
    exceeds: &F,
    root: Game,
    i: int,
) -> bool {
    trees[i].is_round(&trees[i + 1], exceeds, root)
}

/// Whether `trees` are the trees of a search from `root` with `budget`
/// rounds, from the tree that it began with to the tree that it left.
pub open spec fn is_search<F: Fn(Ucb1Terms, Ucb1Terms) -> bool>(
    trees: Seq<MTCS>,
    exceeds: &F,
    root: Game,
    budget: int,
) -> bool {
    &&& trees.len() == budget + 1
    &&& forall|i: int| 0 <= i < budget ==> #[trigger] round_at(trees, exceeds, root, i)
}

impl MTCS {
    /// Searches from `root_node` with `budget` playouts, and gives the
    /// game after the move that the search settles on.
    ///
    /// Each playout goes down the tree by selection, adds a child where
    /// something is left to try, plays from there to the end at random,
    /// and counts the outcome for every game on the way. Then the child of
    /// `root_node` with the best mean score for the player to move is
    /// picked. `exceeds` says of two UCB1 scores, given by their terms,
    /// whether the first is above the second.
    pub fn search<F: Fn(Ucb1Terms, Ucb1Terms) -> bool>(
        &mut self,
        root_node: Game,
        budget: usize,
        exceeds: F,
    ) -> (best: Game)
        requires
            old(self).wf(),
            root_node.wf(),
            root_node.outcome() == GameState::InProgress,
            !old(self).fully_expanded(root_node),
            budget > 0,
            old(self).runs() + budget <= MAX_PLAYOUTS,
            judges_all(&exceeds),
        ensures
            final(self).wf(),
            final(self).runs() == old(self).runs() + budget,
            old(self).grows_to(final(self)),
            final(self).stats(root_node).visits == old(self).stats(root_node).visits + budget,
            final(self).is_best_child(root_node, best),
            final(self).children(root_node).contains(best),
            root_node.steps_to(best),
            exists|trees: Seq<MTCS>| #[trigger]
                is_search(trees, &exceeds, root_node, budget as int) && trees[0] == *old(self)
                    && trees.last() == *final(self),
    {
        let ghost mut trees: Seq<MTCS> = seq![*self];
        let mut done: usize = 0;
        while done < budget
            invariant
                done <= budget,
                self.wf(),
                root_node.wf(),
                root_node.outcome() == GameState::InProgress,
                old(self).runs() + budget <= MAX_PLAYOUTS,
                judges_all(&exceeds),
                self.runs() == old(self).runs() + done,
                old(self).grows_to(self),
                self.stats(root_node).visits == old(self).stats(root_node).visits + done,
                done > 0 ==> self.children(root_node).len() > 0,
                trees.len() == done + 1,
                trees[0] == *old(self),
                trees.last() == *self,
                forall|i: int| 0 <= i < done ==> #[trigger] round_at(trees, &exceeds, root_node, i),
            decreases budget - done,
        {
            let ghost before = *self;
            let ghost so_far = trees;
            self.iterate(root_node, &exceeds);
            proof {
                lemma_grows_on(*old(self), before, *self);
                trees = so_far.push(*self);
                assert forall|i: int| 0 <= i < done + 1 implies #[trigger] round_at(
                    trees,
                    &exceeds,
                    root_node,
                    i,
                ) by {
                    if i < done {
                        assert(round_at(so_far, &exceeds, root_node, i));
                    }
                }
            }
            done += 1;
        }
        proof {
            assert(is_search(trees, &exceeds, root_node, budget as int));
        }
        self.best_child(root_node)
    }
}

} // verus!

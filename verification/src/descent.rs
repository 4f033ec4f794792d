//! The way down the tree: selection as far as nothing is left to try, and
//! one new child where something is.
use crate::board::GameState;
use crate::game::{Game, Move};
use crate::mcts::MTCS;
use crate::moves::{
    get_valid_moves, lemma_filled_bound, lemma_legal_moves_contains, lemma_move_fills_one,
    lemma_open_game_has_move,
};
use crate::playout::{is_line, plays_on};
use crate::selection::{judges_all, successor, Ucb1Terms};
use vstd::prelude::*;

verus! {

impl MTCS {
    /// Whether `path` is the way that selection goes from `start`: through
    /// games in progress from which nothing is left to try, each time to
    /// the game that selection picks, up to the first game that is over or
    /// from which something is left to try.
    pub open spec fn is_descent<F: Fn(Ucb1Terms, Ucb1Terms) -> bool>(
        &self,
        exceeds: &F,
        start: Game,
        path: Seq<Game>,
    ) -> bool {
        &&& path.len() > 0
        &&& path[0] == start
        &&& forall|i: int|
            0 <= i < path.len() - 1 ==> #[trigger] plays_on(path, i) && self.fully_expanded(path[i])
                && self.selects(exceeds, path[i], path[i + 1])
        &&& path.last().wf()
        &&& path.last().outcome() != GameState::InProgress || !self.fully_expanded(path.last())
    }

    /// Whether `child` is what expansion adds to `node`: the game that the
    /// first legal move leads to whose game is not yet among the children.
    pub open spec fn is_first_untried(&self, node: Game, child: Game) -> bool {
        exists|k: int|
            0 <= k < node.legal_moves().len() && child == #[trigger] node.after(
                node.legal_moves()[k],
            ) && !self.children(node).contains(child) && forall|j: int|
                0 <= j < k ==> self.children(node).contains(
                    #[trigger] node.after(node.legal_moves()[j]),
                )
    }

    /// Goes from `root` down the tree, by selection, to the first game that
    /// is over or from which something is left to try, and gives the games
    /// on the way, `root` first.
    fn descend<F: Fn(Ucb1Terms, Ucb1Terms) -> bool>(&self, root: Game, exceeds: &F) -> (path: Vec<
        Game,
    >)
        requires
            self.wf(),
            root.wf(),
            judges_all(exceeds),
        ensures
            self.is_descent(exceeds, root, path@),
    {
        let mut path: Vec<Game> = Vec::new();
        path.push(root);
        let mut node = root;
        proof {
            lemma_filled_bound(root, 81);
        }
        loop
            invariant
                self.wf(),
                node.wf(),
                judges_all(exceeds),
                path@.len() > 0,
                path@[0] == root,
                path@.last() == node,
                node.filled() <= 81,
                forall|i: int|
                    0 <= i < path@.len() - 1 ==> #[trigger] plays_on(path@, i)
                        && self.fully_expanded(path@[i]) && self.selects(
                        exceeds,
                        path@[i],
                        path@[i + 1],
                    ),
            ensures
                node.outcome() != GameState::InProgress || !self.fully_expanded(node),
            decreases 81 - node.filled(),
        {
            if node.get_winner() != GameState::InProgress || !self.is_fully_expanded(node) {
                break;
            }
            proof {
                lemma_open_game_has_move(node);
            }
            let next = self.select_child(node, exceeds);
            let ghost before = path@;
            path.push(next);
            proof {
                reveal(Game::steps_to);
                let m = choose|m: Move| node.is_legal(m) && next == #[trigger] node.after(m);
                lemma_move_fills_one(node, m);
                assert forall|i: int| 0 <= i < path@.len() - 1 implies #[trigger] plays_on(path@, i)
                    && self.fully_expanded(path@[i]) && self.selects(
                    exceeds,
                    path@[i],
                    path@[i + 1],
                ) by {
                    if i < before.len() - 1 {
                        assert(plays_on(before, i));
                    }
                }
            }
            node = next;
        }
        path
    }

    /// Adds to the children of `node` the game that its first legal move
    /// leads to whose game is not yet among them, and gives that game.
    fn expand(&mut self, node: Game) -> (child: Game)
        requires
            old(self).wf(),
            node.wf(),
            node.outcome() == GameState::InProgress,
            !old(self).fully_expanded(node),
        ensures
            final(self).wf(),
            final(self).runs() == old(self).runs(),
            old(self).is_first_untried(node, child),
            node.steps_to(child),
            child.wf(),
            final(self)@ == old(self)@.insert(node, old(self).stats(node).with_child(child)),
    {
        let moves = get_valid_moves(node);
        let mut i: usize = 0;
        while i < moves.len()
            invariant
                i <= moves@.len(),
                self.wf(),
                *self == *old(self),
                node.wf(),
                moves@ == node.legal_moves(),
                forall|j: int|
                    0 <= j < i ==> self.children(node).contains(
                        #[trigger] node.after(node.legal_moves()[j]),
                    ),
            decreases moves@.len() - i,
        {
            let child = successor(node, moves[i]);
            if !self.has_child(&node, &child) {
                assert(old(self).is_first_untried(node, child));
                self.list_child(node, child);
                return child;
            }
            i += 1;
        }
        proof {
            assert forall|m: Move| node.is_legal(m) implies self.children(node).contains(
                #[trigger] node.after(m),
            ) by {
                lemma_legal_moves_contains(node, m);
                let j = choose|j: int| 0 <= j < moves@.len() && moves@[j] == m;
                assert(self.children(node).contains(node.after(node.legal_moves()[j])));
            }
        }
        unreached()
    }

    /// Goes down the tree from `root` by selection and, where that ends
    /// at a game in progress, lists and adds the first child of it that is
    /// not listed yet. Gives the games on the way, and how many of them
    /// selection went through.
    pub(crate) fn reach<F: Fn(Ucb1Terms, Ucb1Terms) -> bool>(&mut self, root: Game, exceeds: &F) -> (found: (
        Vec<Game>,
        usize,
    ))
        requires
            old(self).wf(),
            root.wf(),
            judges_all(exceeds),
        ensures
            final(self).wf(),
            final(self).runs() == old(self).runs(),
            0 < found.1 <= found.0@.len(),
            old(self).is_descent(exceeds, root, found.0@.take(found.1 as int)),
            is_line(found.0@),
            found.0@[0] == root,
            if found.0@[found.1 - 1].outcome() == GameState::InProgress {
                &&& found.0@.len() == found.1 + 1
                &&& old(self).is_first_untried(found.0@[found.1 - 1], found.0@.last())
                &&& final(self)@ == old(self)@.insert(
                    found.0@[found.1 - 1],
                    old(self).stats(found.0@[found.1 - 1]).with_child(found.0@.last()),
                )
            } else {
                found.0@.len() == found.1 && *final(self) == *old(self)
            },
    {
        let mut path = self.descend(root, exceeds);
        let ghost way = path@;
        let depth = path.len();
        let leaf = path[depth - 1];
        if leaf.get_winner() == GameState::InProgress {
            let child = self.expand(leaf);
            path.push(child);
        }
        proof {
            assert(path@.take(depth as int) =~= way);
            assert forall|i: int| 0 <= i < path@.len() - 1 implies #[trigger] plays_on(path@, i) by {
                if i < way.len() - 1 {
                    assert(plays_on(way, i));
                }
            }
        }
        (path, depth)
    }
}

} // verus!

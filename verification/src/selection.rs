//! Selection: where the search goes from a game, by the UCB1 scores of
//! the games that its legal moves lead to.
use crate::board::{GameState, Player};
use crate::game::{Game, Move};
use crate::mcts::{oriented, MTCS};
use crate::moves::{
    apply_move, get_valid_moves, lemma_legal_move_is_accepted, lemma_legal_moves_contains,
};
use vstd::prelude::*;

verus! {

/// The numbers that the UCB1 score of a game is made of:
/// `total_score / visit_count + sqrt(2 * log2(parent_visits) / visit_count)`.
#[derive(Copy, Clone, Debug, PartialEq, Eq, Structural)]
pub struct Ucb1Terms {
    /// The total score of the game, as the player sees it who chooses.
    pub total_score: i64,
    /// How often the search went through the game. Never 0.
    pub visit_count: u64,
    /// How often the search went through the game before it. Never 0.
    pub parent_visits: u64,
}

impl Ucb1Terms {
    /// Whether the terms give a number: neither count is 0.
    pub open spec fn are_proper(self) -> bool {
        self.visit_count >= 1 && self.parent_visits >= 1
    }
}

/// Whether `exceeds` can be asked about any two scores whose terms give a
/// number.
pub open spec fn judges_all<F: Fn(Ucb1Terms, Ucb1Terms) -> bool>(exceeds: &F) -> bool {
    forall|a: Ucb1Terms, b: Ucb1Terms|
        a.are_proper() && b.are_proper() ==> call_requires(*exceeds, (a, b))
}

/// The UCB1 score of a game that the player to move can reach.
#[derive(Copy, Clone, Debug, PartialEq, Eq, Structural)]
pub enum Ucb1Score {
    /// Below every number: nothing is left to try from the game.
    MinusInfinity,
    /// A number, given by the terms that it is computed from.
    Finite(Ucb1Terms),
    /// Above every number: the search has not met the game.
    PlusInfinity,
}

/// Where a score stands before its number counts: 0 for minus infinity, 1
/// for a number, 2 for plus infinity.
pub open spec fn rank(score: Ucb1Score) -> int {
    match score {
        Ucb1Score::MinusInfinity => 0,
        Ucb1Score::Finite(_) => 1,
        Ucb1Score::PlusInfinity => 2,
    }
}

/// Whether `kept` says rightly if the score `held` is above the score
/// `met`. Between two numbers `exceeds` decides; an infinity is above
/// nothing of its own kind.
pub open spec fn holds_against<F: Fn(Ucb1Terms, Ucb1Terms) -> bool>(
    exceeds: &F,
    held: Ucb1Score,
    met: Ucb1Score,
    kept: bool,
) -> bool {
    match (held, met) {
        (Ucb1Score::Finite(a), Ucb1Score::Finite(b)) => call_ensures(*exceeds, (a, b), kept),
        _ => kept == (rank(held) > rank(met)),
    }
}

/// Whether round `i` went by the rules: the champion of the round before
/// stays if its score is above that of candidate `i`, and else candidate
/// `i` is the champion.
pub open spec fn round_ok<F: Fn(Ucb1Terms, Ucb1Terms) -> bool>(
    exceeds: &F,
    scores: Seq<Ucb1Score>,
    champions: Seq<int>,
    i: int,
) -> bool {
    let before = champions[i - 1];
    &&& 0 <= before < i
    &&& champions[i] == before || champions[i] == i
    &&& holds_against(exceeds, scores[before], scores[i], champions[i] == before)
}

/// Whether `champions` lists, round by round, who leads among the
/// candidates with these scores: the first candidate to begin with, and a
/// later one from the round in which the leader's score was not above its
/// own.
pub open spec fn is_tournament<F: Fn(Ucb1Terms, Ucb1Terms) -> bool>(
    exceeds: &F,
    scores: Seq<Ucb1Score>,
    champions: Seq<int>,
) -> bool {
    &&& scores.len() > 0
    &&& champions.len() == scores.len()
    &&& champions[0] == 0
    &&& forall|i: int| 1 <= i < scores.len() ==> #[trigger] round_ok(exceeds, scores, champions, i)
}

/// Who leads after round `n - 1` has a score of the highest rank among the
/// first `n` candidates; and where that rank is an infinity, the leader is the
/// last of them with it.
proof fn lemma_leader_after<F: Fn(Ucb1Terms, Ucb1Terms) -> bool>(
    exceeds: &F,
    scores: Seq<Ucb1Score>,
    champions: Seq<int>,
    n: int,
)
    requires
        is_tournament(exceeds, scores, champions),
        1 <= n <= scores.len(),
    ensures
        0 <= champions[n - 1] < n,
        forall|j: int| 0 <= j < n ==> rank(#[trigger] scores[j]) <= rank(scores[champions[n - 1]]),
        rank(scores[champions[n - 1]]) != 1 ==> forall|j: int|
            champions[n - 1] < j < n ==> rank(#[trigger] scores[j]) < rank(
                scores[champions[n - 1]],
            ),
    decreases n,
{
    if n > 1 {
        lemma_leader_after(exceeds, scores, champions, n - 1);
        assert(round_ok(exceeds, scores, champions, n - 1));
    }
}

/// Infinities sort as expected. The game that selection settles on has a
/// score of the highest rank there is among the candidates: it has not been
/// met if any candidate has not, and something is left to try from it unless
/// nothing is left from any. Of several that have not been met, or if
/// nothing is left from any, it is the last.
pub proof fn lemma_tournament_leader<F: Fn(Ucb1Terms, Ucb1Terms) -> bool>(
    exceeds: &F,
    scores: Seq<Ucb1Score>,
    champions: Seq<int>,
)
    requires
        is_tournament(exceeds, scores, champions),
    ensures
        0 <= champions.last() < scores.len(),
        forall|j: int|
            0 <= j < scores.len() ==> rank(#[trigger] scores[j]) <= rank(scores[champions.last()]),
        rank(scores[champions.last()]) != 1 ==> forall|j: int|
            champions.last() < j < scores.len() ==> rank(#[trigger] scores[j]) < rank(
                scores[champions.last()],
            ),
{
    lemma_leader_after(exceeds, scores, champions, scores.len() as int);
}

impl MTCS {
    /// The UCB1 score of `node`, for the player who chooses at `parent`.
    pub open spec fn ucb(&self, node: Game, parent: Game) -> Ucb1Score {
        if !self@.dom().contains(node) {
            Ucb1Score::PlusInfinity
        } else if self.fully_expanded(node) {
            Ucb1Score::MinusInfinity
        } else {
            Ucb1Score::Finite(
                Ucb1Terms {
                    total_score: oriented(parent.current_player, self@[node].score) as i64,
                    visit_count: self@[node].visits as u64,
                    parent_visits: self.stats(parent).visits as u64,
                },
            )
        }
    }

    /// The scores of the games that the legal moves of `node` lead to, in
    /// the order of the moves.
    pub open spec fn candidate_scores(&self, node: Game) -> Seq<Ucb1Score> {
        Seq::new(
            node.legal_moves().len(),
            |k: int| self.ucb(node.after(node.legal_moves()[k]), node),
        )
    }

    /// Whether `chosen` is the game that selection goes to from `node`: the
    /// one that leads at the end of a tournament among the candidates.
    pub open spec fn selects<F: Fn(Ucb1Terms, Ucb1Terms) -> bool>(
        &self,
        exceeds: &F,
        node: Game,
        chosen: Game,
    ) -> bool {
        exists|champions: Seq<int>| #[trigger]
            is_tournament(exceeds, self.candidate_scores(node), champions) && chosen == node.after(
                node.legal_moves()[champions.last()],
            )
    }

    /// Whether nothing is left to try from `game`.
    pub fn is_fully_expanded(&self, game: Game) -> (full: bool)
        requires
            self.wf(),
            game.wf(),
        ensures
            full == self.fully_expanded(game),
    {
        if game.get_winner() != GameState::InProgress {
            return true;
        }
        let moves = get_valid_moves(game);
        let mut i: usize = 0;
        while i < moves.len()
            invariant
                i <= moves@.len(),
                self.wf(),
                game.wf(),
                game.outcome() == GameState::InProgress,
                moves@ == game.legal_moves(),
                forall|j: int| 0 <= j < i ==> self.children(game).contains(game.after(moves@[j])),
            decreases moves@.len() - i,
        {
            let child = successor(game, moves[i]);
            if !self.has_child(&game, &child) {
                proof {
                    lemma_legal_moves_contains(game, moves@[i as int]);
                }
                return false;
            }
            i += 1;
        }
        proof {
            assert forall|m: Move| game.is_legal(m) implies self.children(game).contains(
                #[trigger] game.after(m),
            ) by {
                lemma_legal_moves_contains(game, m);
                let j = choose|j: int| 0 <= j < moves@.len() && moves@[j] == m;
                assert(self.children(game).contains(game.after(moves@[j])));
            }
        }
        true
    }

    /// The UCB1 score of `node` for the player who chooses at `parent`:
    /// plus infinity for a game that the search has not met, minus
    /// infinity for one from which nothing is left to try, and else the
    /// terms of the number. A parent that the search has not met counts as
    /// met once.
    pub fn ucb1(&self, node: Game, parent: Game) -> (score: Ucb1Score)
        requires
            self.wf(),
            node.wf(),
        ensures
            score == self.ucb(node, parent),
            match score {
                Ucb1Score::Finite(terms) => terms.are_proper(),
                _ => true,
            },
    {
        match self.tree().get(&node) {
            None => Ucb1Score::PlusInfinity,
            Some(data) => {
                if self.is_fully_expanded(node) {
                    return Ucb1Score::MinusInfinity;
                }
                assert(self.entry_ok(node));
                let parent_visits: u64 = match self.tree().get(&parent) {
                    Some(above) => above.visit_count,
                    None => 1,
                };
                let total_score: i64 = match parent.current_player {
                    Player::X => data.total_score,
                    Player::O => -data.total_score,
                };
                Ucb1Score::Finite(
                    Ucb1Terms { total_score, visit_count: data.visit_count, parent_visits },
                )
            },
        }
    }

    /// The game that selection goes to from `node`. The games that the
    /// legal moves lead to are gone through in the order of the moves; the
    /// one that leads so far gives way to the next unless its UCB1 score is
    /// above the other's. Of two numbers `exceeds` says whether the first is
    /// above the second.
    pub fn select_child<F: Fn(Ucb1Terms, Ucb1Terms) -> bool>(
        &self,
        node: Game,
        exceeds: &F,
    ) -> (chosen: Game)
        requires
            self.wf(),
            node.wf(),
            node.legal_moves().len() > 0,
            judges_all(exceeds),
        ensures
            self.selects(exceeds, node, chosen),
            node.steps_to(chosen),
            chosen.wf(),
    {
        let moves = get_valid_moves(node);
        let ghost scores = self.candidate_scores(node);
        let mut best: usize = 0;
        let mut best_score = self.ucb1(successor(node, moves[0]), node);
        let ghost mut champions: Seq<int> = seq![0int];
        let mut i: usize = 1;
        while i < moves.len()
            invariant
                1 <= i <= moves@.len(),
                self.wf(),
                node.wf(),
                moves@ == node.legal_moves(),
                scores == self.candidate_scores(node),
                judges_all(exceeds),
                best < i,
                best_score == scores[best as int],
                best_score matches Ucb1Score::Finite(terms) ==> terms.are_proper(),
                champions.len() == i,
                champions[0] == 0,
                champions.last() == best,
                forall|j: int| 1 <= j < i ==> #[trigger] round_ok(exceeds, scores, champions, j),
            decreases moves@.len() - i,
        {
            let score = self.ucb1(successor(node, moves[i]), node);
            let kept = match (best_score, score) {
                (Ucb1Score::Finite(a), Ucb1Score::Finite(b)) => exceeds(a, b),
                (Ucb1Score::PlusInfinity, Ucb1Score::PlusInfinity) => false,
                (Ucb1Score::PlusInfinity, _) => true,
                (Ucb1Score::Finite(_), Ucb1Score::MinusInfinity) => true,
                _ => false,
            };
            let ghost before = champions;
            if !kept {
                best = i;
                best_score = score;
            }
            proof {
                champions = before.push(best as int);
                assert(round_ok(exceeds, scores, champions, i as int));
                assert forall|j: int| 1 <= j < i + 1 implies #[trigger] round_ok(
                    exceeds,
                    scores,
                    champions,
                    j,
                ) by {
                    if j < i {
                        assert(round_ok(exceeds, scores, before, j));
                    }
                }
            }
            i += 1;
        }
        proof {
            assert(is_tournament(exceeds, scores, champions));
        }
        successor(node, moves[best])
    }
}

/// The game that the legal move `mv` makes of `game`.
pub(crate) fn successor(game: Game, mv: Move) -> (next: Game)
    requires
        game.wf(),
        game.legal_moves().contains(mv),
    ensures
        next == game.after(mv),
        next.wf(),
        game.steps_to(next),
{
    proof {
        reveal(Game::steps_to);
        lemma_legal_move_is_accepted(game, mv);
        lemma_legal_moves_contains(game, mv);
    }
    apply_move(mv, game).unwrap()
}

} // verus!

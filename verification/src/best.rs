//! The pick at the end of a search: the child of the root with the best
//! mean score.
use crate::board::Player;
use crate::game::Game;
use crate::mcts::{oriented, MAX_PLAYOUTS, MTCS};
use crate::tree::TreeStats;
use vstd::prelude::*;

verus! {

/// Whether the mean score of `a` is below that of `b`, as `mover` sees
/// them. The means are compared as fractions, without rounding.
pub open spec fn mean_below(mover: Player, a: TreeStats, b: TreeStats) -> bool {
    oriented(mover, a.score) * b.visits < oriented(mover, b.score) * a.visits
}

impl MTCS {
    /// Whether `best` is the child of `root` that the search settles on:
    /// the one with the highest mean score as the player to move at `root`
    /// sees it, and of several such the one that was found last.
    pub open spec fn is_best_child(&self, root: Game, best: Game) -> bool {
        let kids = self.children(root);
        let mover = root.current_player;
        exists|k: int|
            0 <= k < kids.len() && #[trigger] kids[k] == best && (forall|j: int|
                0 <= j < k ==> !mean_below(mover, self.stats(best), self.stats(#[trigger] kids[j])))
                && (forall|j: int|
                k < j < kids.len() ==> mean_below(
                    mover,
                    self.stats(#[trigger] kids[j]),
                    self.stats(best),
                ))
    }

    /// The score and the visits that the tree holds for `game`, or 0 and 1
    /// if it holds nothing for it.
    fn numbers(&self, game: &Game) -> (held: (i64, u64))
        requires
            self.wf(),
        ensures
            held.0 == self.stats(*game).score,
            held.1 == self.stats(*game).visits,
            -MAX_PLAYOUTS <= held.0 <= MAX_PLAYOUTS,
            1 <= held.1 <= MAX_PLAYOUTS + 1,
    {
        match self.tree().get(game) {
            Some(data) => {
                assert(self.entry_ok(*game));
                (data.total_score, data.visit_count)
            },
            None => (0, 1),
        }
    }

    /// The child of `root` that the search settles on: the one with the
    /// highest mean score as the player to move at `root` sees it, and of
    /// several such the one that was found last.
    pub fn best_child(&self, root: Game) -> (best: Game)
        requires
            self.wf(),
            self.children(root).len() > 0,
        ensures
            self.is_best_child(root, best),
            self.children(root).contains(best),
            root.steps_to(best),
    {
        let found = self.tree().get(&root);
        let data = found.unwrap();
        let mover = root.current_player;
        let ghost kids = self.children(root);
        proof {
            assert(self.entry_ok(root));
        }
        let mut best: usize = 0;
        let mut best_held = self.numbers(&data.children[0]);
        let mut i: usize = 1;
        while i < data.children.len()
            invariant
                self.wf(),
                kids == self.children(root),
                kids == data.children@,
                1 <= i <= kids.len(),
                best < i,
                best_held.0 == self.stats(kids[best as int]).score,
                best_held.1 == self.stats(kids[best as int]).visits,
                -MAX_PLAYOUTS <= best_held.0 <= MAX_PLAYOUTS,
                1 <= best_held.1 <= MAX_PLAYOUTS + 1,
                forall|j: int|
                    0 <= j < best ==> !mean_below(
                        mover,
                        self.stats(kids[best as int]),
                        self.stats(#[trigger] kids[j]),
                    ),
                forall|j: int|
                    best < j < i ==> mean_below(
                        mover,
                        self.stats(#[trigger] kids[j]),
                        self.stats(kids[best as int]),
                    ),
            decreases kids.len() - i,
        {
            let held = self.numbers(&data.children[i]);
            if !mean_is_below(mover, held, best_held) {
                proof {
                    let top = self.stats(kids[i as int]);
                    let was = self.stats(kids[best as int]);
                    assert forall|j: int| 0 <= j < i implies !mean_below(
                        mover,
                        top,
                        self.stats(#[trigger] kids[j]),
                    ) by {
                        if self@.dom().contains(kids[j]) {
                            assert(self.entry_ok(kids[j]));
                        }
                        lemma_mean_order(mover, self.stats(kids[j]), was, top);
                    }
                }
                best = i;
                best_held = held;
            }
            i += 1;
        }
        data.children[best]
    }
}

/// Means are ordered as fractions are: if `a` is not above `b` and `b` is
/// not above `c`, then `a` is not above `c`; and `a` is below `c` if it is
/// below `b` as well.
proof fn lemma_mean_order(mover: Player, a: TreeStats, b: TreeStats, c: TreeStats)
    requires
        a.visits > 0,
        b.visits > 0,
        c.visits > 0,
        !mean_below(mover, c, b),
    ensures
        !mean_below(mover, b, a) ==> !mean_below(mover, c, a),
        mean_below(mover, a, b) ==> mean_below(mover, a, c),
{
    let x = oriented(mover, a.score);
    let y = oriented(mover, b.score);
    let z = oriented(mover, c.score);
    let l = a.visits as int;
    let m = b.visits as int;
    let n = c.visits as int;
    assert(x * m <= y * l && y * n <= z * m ==> x * n <= z * l) by (nonlinear_arith)
        requires
            l > 0,
            m > 0,
            n > 0,
    {
        if x * m <= y * l && y * n <= z * m {
            assert((x * m) * n <= (y * l) * n);
            assert((y * n) * l <= (z * m) * l);
            assert((x * n) * m <= (z * l) * m);
        }
    }
    assert(x * m < y * l && y * n <= z * m ==> x * n < z * l) by (nonlinear_arith)
        requires
            l > 0,
            m > 0,
            n > 0,
    {
        if x * m < y * l && y * n <= z * m {
            assert((x * m) * n < (y * l) * n);
            assert((y * n) * l <= (z * m) * l);
            assert((x * n) * m < (z * l) * m);
        }
    }
}

/// Whether the mean of the score `a.0` over `a.1` visits is below that of
/// `b.0` over `b.1`, as `mover` sees them.
fn mean_is_below(mover: Player, a: (i64, u64), b: (i64, u64)) -> (below: bool)
    requires
        -MAX_PLAYOUTS <= a.0 <= MAX_PLAYOUTS,
        -MAX_PLAYOUTS <= b.0 <= MAX_PLAYOUTS,
        a.1 <= MAX_PLAYOUTS + 1,
        b.1 <= MAX_PLAYOUTS + 1,
    ensures
        below == (oriented(mover, a.0 as int) * b.1 < oriented(mover, b.0 as int) * a.1),
{
    let x: i128 = match mover {
        Player::X => a.0 as i128,
        Player::O => -(a.0 as i128),
    };
    let y: i128 = match mover {
        Player::X => b.0 as i128,
        Player::O => -(b.0 as i128),
    };
    let m: i128 = a.1 as i128;
    let n: i128 = b.1 as i128;
    assert(-0x4000_0000_0000_0000_0000_0000_0000_0000 <= x * n
        <= 0x4000_0000_0000_0000_0000_0000_0000_0000) by (nonlinear_arith)
        requires
            -0x7fff_ffff_ffff_ffff <= x <= 0x7fff_ffff_ffff_ffff,
            0 <= n <= 0x8000_0000_0000_0000,
    ;
    assert(-0x4000_0000_0000_0000_0000_0000_0000_0000 <= y * m
        <= 0x4000_0000_0000_0000_0000_0000_0000_0000) by (nonlinear_arith)
        requires
            -0x7fff_ffff_ffff_ffff <= y <= 0x7fff_ffff_ffff_ffff,
            0 <= m <= 0x8000_0000_0000_0000,
    ;
    x * n < y * m
}

} // verus!

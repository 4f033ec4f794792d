//! The search tree with the count of the playouts that have gone into it.
use crate::board::Player;
use crate::game::{Game, Move};
use crate::tree::{Registry, TreeStats};
use vstd::prelude::*;

verus! {

/// The most playouts that one search tree takes, so that its counts fit.
pub const MAX_PLAYOUTS: u64 = 0x7fff_ffff_ffff_ffff;

/// A score as `mover` sees it: scores count for `X`, so `O` sees them negated.
pub open spec fn oriented(mover: Player, score: int) -> int {
    match mover {
        Player::X => score,
        Player::O => -score,
    }
}

/// The game that follows `path[i]`, if there is one.
pub open spec fn next_of(path: Seq<Game>, i: int) -> Option<Game> {
    if i + 1 < path.len() {
        Some(path[i + 1])
    } else {
        None
    }
}

/// What a playout with this outcome makes of the entry `s` of a game that
/// it goes through: the game that follows is listed among the children,
/// the visits are one more, and the outcome is added to the score.
pub open spec fn credited(s: TreeStats, outcome: int, next: Option<Game>) -> TreeStats {
    let listed = match next {
        Some(child) => s.with_child(child),
        None => s,
    };
    listed.visited().scored(outcome)
}

/// Monte Carlo tree search, with the tree that it has grown so far.
pub struct MTCS {
    tree_data: Registry,
    playouts: u64,
}

impl View for MTCS {
    type V = Map<Game, TreeStats>;

    closed spec fn view(&self) -> Map<Game, TreeStats> {
        self.tree_data@
    }
}

impl MTCS {
    /// How many playouts have gone into the tree.
    pub closed spec fn runs(&self) -> nat {
        self.playouts as nat
    }

    /// The tree is held in good order.
    pub closed spec fn inv(&self) -> bool {
        self.tree_data.wf()
    }

    /// What the tree holds for `g`, or what it would hold if `g` were met now.
    pub open spec fn stats(&self, g: Game) -> TreeStats {
        if self@.dom().contains(g) {
            self@[g]
        } else {
            TreeStats::fresh()
        }
    }

    /// The games found one move after `g`, in the order in which they were found.
    pub open spec fn children(&self, g: Game) -> Seq<Game> {
        self.stats(g).children
    }

    /// Whether what is held for `g` can have come from `runs()` playouts:
    /// each playout goes through a game at most once, and each child is one
    /// legal move away.
    pub open spec fn entry_ok(&self, g: Game) -> bool {
        let s = self@[g];
        &&& 1 <= s.visits <= 1 + self.runs()
        &&& -self.runs() <= s.score <= self.runs()
        &&& s.children.no_duplicates()
        &&& forall|i: int| 0 <= i < s.children.len() ==> g.steps_to(#[trigger] s.children[i])
    }

    /// The tree is one that playouts can have grown.
    pub open spec fn wf(&self) -> bool {
        &&& self.inv()
        &&& self.runs() <= MAX_PLAYOUTS
        &&& forall|g: Game| #[trigger] self@.dom().contains(g) ==> self.entry_ok(g)
    }

    /// Whether nothing is left to try from `g`: every legal move leads to a
    /// game that is listed among its children. That holds of every game
    /// that is over, which has no legal move.
    pub open spec fn fully_expanded(&self, g: Game) -> bool {
        forall|m: Move| g.is_legal(m) ==> self.children(g).contains(#[trigger] g.after(m))
    }

    /// Whether `later` is this tree grown further: it has had no fewer
    /// playouts, and it holds every game of this tree, with no fewer visits
    /// and with its children still first among the children.
    pub open spec fn grows_to(&self, later: &MTCS) -> bool {
        &&& self.runs() <= later.runs()
        &&& forall|g: Game| #[trigger]
            self@.dom().contains(g) ==> later@.dom().contains(g) && self@[g].visits
                <= later@[g].visits && self@[g].children.is_prefix_of(later@[g].children)
    }

    /// A search that has not run yet.
    pub fn new() -> (mtcs: Self)
        ensures
            mtcs.wf(),
            mtcs@ == Map::<Game, TreeStats>::empty(),
            mtcs.runs() == 0,
    {
        MTCS { tree_data: Registry::new(), playouts: 0 }
    }

    /// How many playouts have gone into the tree.
    pub fn playouts(&self) -> (n: u64)
        ensures
            n == self.runs(),
    {
        self.playouts
    }

    /// The tree grown so far.
    pub fn tree(&self) -> (tree: &Registry)
        requires
            self.wf(),
        ensures
            tree.wf(),
            tree@ == self@,
    {
        &self.tree_data
    }

    /// Whether `child` is listed among the children of `game`.
    pub(crate) fn has_child(&self, game: &Game, child: &Game) -> (found: bool)
        requires
            self.wf(),
        ensures
            found == self.children(*game).contains(*child),
    {
        match self.tree_data.get(game) {
            Some(data) => data.has_child(child),
            None => false,
        }
    }

    /// Lets one playout count for `state`: the game that followed it, if
    /// any, is listed among its children, its visits are one more, and the
    /// outcome is added to its score.
    pub(crate) fn credit(&mut self, state: Game, next: Option<Game>, outcome: i8)
        requires
            old(self).inv(),
            old(self).stats(state).visits < u64::MAX,
            i64::MIN <= old(self).stats(state).score + outcome <= i64::MAX,
        ensures
            final(self).inv(),
            final(self).runs() == old(self).runs(),
            final(self)@ == old(self)@.insert(
                state,
                credited(old(self).stats(state), outcome as int, next),
            ),
    {
        let ghost before = self@;
        let ghost held = self.stats(state);
        if let Some(child) = next {
            self.tree_data.record_child(state, child);
        } else {
            self.tree_data.get_or_create(state);
        }
        self.tree_data.add_visit(state);
        self.tree_data.add_score(state, outcome as i64);
        proof {
            assert(self@ =~= before.insert(state, credited(held, outcome as int, next)));
        }
    }

    /// Lists `child`, one legal move after `node`, among the children of
    /// `node`, unless it is listed already.
    pub(crate) fn list_child(&mut self, node: Game, child: Game)
        requires
            old(self).wf(),
            node.steps_to(child),
        ensures
            final(self).wf(),
            final(self).runs() == old(self).runs(),
            final(self)@ == old(self)@.insert(node, old(self).stats(node).with_child(child)),
    {
        self.tree_data.record_child(node, child);
        proof {
            lemma_entry_with_child(*old(self), *self, node, child);
        }
    }

    /// Counts one playout more, before it is counted for the games that it
    /// went through.
    pub(crate) fn begin_playout(&mut self)
        requires
            old(self).wf(),
            old(self).runs() < MAX_PLAYOUTS,
        ensures
            final(self).wf(),
            final(self).runs() == old(self).runs() + 1,
            final(self)@ == old(self)@,
    {
        self.playouts += 1;
        proof {
            assert forall|g: Game| #[trigger] self@.dom().contains(g) implies self.entry_ok(g) by {
                assert(old(self).entry_ok(g));
            }
        }
    }
}

/// A tree in which `child`, one legal move after `node`, has been listed
/// among the children of `node` is as good as it was.
proof fn lemma_entry_with_child(before: MTCS, after: MTCS, node: Game, child: Game)
    requires
        before.wf(),
        after.inv(),
        after.runs() == before.runs(),
        node.steps_to(child),
        after@ == before@.insert(node, before.stats(node).with_child(child)),
    ensures
        after.wf(),
{
    assert forall|g: Game| #[trigger] after@.dom().contains(g) implies after.entry_ok(g) by {
        if g == node {
            if before@.dom().contains(node) {
                assert(before.entry_ok(node));
            }
        } else {
            assert(before@.dom().contains(g));
            assert(before.entry_ok(g));
        }
    }
}

/// Growing is transitive.
pub proof fn lemma_grows_on(first: MTCS, second: MTCS, third: MTCS)
    requires
        first.grows_to(&second),
        second.grows_to(&third),
    ensures
        first.grows_to(&third),
{
    assert forall|g: Game| #[trigger] first@.dom().contains(g) implies third@.dom().contains(g)
        && first@[g].visits <= third@[g].visits && first@[g].children.is_prefix_of(
        third@[g].children,
    ) by {
        assert(second@.dom().contains(g));
        let a = first@[g].children;
        let b = second@[g].children;
        let c = third@[g].children;
        assert(a =~= c.subrange(0, a.len() as int)) by {
            assert(a =~= b.subrange(0, a.len() as int));
            assert(b =~= c.subrange(0, b.len() as int));
        }
    }
}

} // verus!

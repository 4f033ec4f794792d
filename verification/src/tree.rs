//! What the search has learnt: for each game it has met, how often it went
//! through it, what came of that, and where it went from there.
use crate::board::{Player, Square};
use crate::game::Game;
use crate::moves::nth_move;
use vstd::prelude::*;

verus! {

/// The number of buckets that the games are spread over.
const BUCKETS: usize = 65_521;

/// A square as a digit.
spec fn digit(s: Square) -> int {
    match s {
        Square::Empty => 0,
        Square::Occupied(Player::X) => 1,
        Square::Occupied(Player::O) => 2,
    }
}

/// The bucket that the first `k` squares of `g` point to, each square
/// read as a digit to the base 3.
spec fn bucket_among_first(g: Game, k: int) -> int
    decreases k,
{
    if k <= 0 {
        0
    } else {
        (bucket_among_first(g, k - 1) * 3 + digit(g.square(nth_move(k - 1)))) % (BUCKETS as int)
    }
}

/// The bucket of `g`: equal games have one bucket.
spec fn bucket_of(g: Game) -> int {
    bucket_among_first(g, 81)
}

/// The bucket of `state`.
fn bucket(state: &Game) -> (b: usize)
    ensures
        b == bucket_of(*state),
        b < BUCKETS,
{
    let mut b: usize = 0;
    let mut i: usize = 0;
    while i < 3
        invariant
            i <= 3,
            b < BUCKETS,
            b == bucket_among_first(*state, 27 * i),
        decreases 3 - i,
    {
        let mut j: usize = 0;
        while j < 3
            invariant
                i < 3,
                j <= 3,
                b < BUCKETS,
                b == bucket_among_first(*state, 27 * i + 9 * j),
            decreases 3 - j,
        {
            let mut k: usize = 0;
            while k < 3
                invariant
                    i < 3,
                    j < 3,
                    k <= 3,
                    b < BUCKETS,
                    b == bucket_among_first(*state, 27 * i + 9 * j + 3 * k),
                decreases 3 - k,
            {
                let mut l: usize = 0;
                while l < 3
                    invariant
                        i < 3,
                        j < 3,
                        k < 3,
                        l <= 3,
                        b < BUCKETS,
                        b == bucket_among_first(*state, 27 * i + 9 * j + 3 * k + l),
                    decreases 3 - l,
                {
                    assert(nth_move(27 * i + 9 * j + 3 * k + l) == (i, j, k, l));
                    let d: usize = match state.boards[i][j].squares[k][l] {
                        Square::Empty => 0,
                        Square::Occupied(Player::X) => 1,
                        Square::Occupied(Player::O) => 2,
                    };
                    b = (b * 3 + d) % BUCKETS;
                    l += 1;
                }
                k += 1;
            }
            j += 1;
        }
        i += 1;
    }
    b
}

/// What is kept for one game.
pub struct TreeData {
    /// How often the search has gone through the game, counted from 1.
    pub visit_count: u64,
    /// The sum of the outcomes of the playouts that went through the game:
    /// 1 for each that `X` won, -1 for each that `O` won.
    pub total_score: i64,
    /// The games found one move after this one, each once, in the order in
    /// which they were found.
    pub children: Vec<Game>,
}

/// What is kept for one game, as numbers and a sequence.
pub struct TreeStats {
    /// How often the search has gone through the game, counted from 1.
    pub visits: nat,
    /// The sum of the outcomes of the playouts that went through the game.
    pub score: int,
    /// The games found one move after this one, in the order in which
    /// they were found.
    pub children: Seq<Game>,
}

impl TreeStats {
    /// What is kept for a game when it is first met.
    pub open spec fn fresh() -> TreeStats {
        TreeStats { visits: 1, score: 0, children: Seq::empty() }
    }

    /// The same with one visit more.
    pub open spec fn visited(self) -> TreeStats {
        TreeStats { visits: self.visits + 1, ..self }
    }

    /// The same with `delta` added to the score.
    pub open spec fn scored(self, delta: int) -> TreeStats {
        TreeStats { score: self.score + delta, ..self }
    }

    /// The same with `child` among the children: added at the end if it is
    /// new, and nothing changed if it is there already.
    pub open spec fn with_child(self, child: Game) -> TreeStats {
        if self.children.contains(child) {
            self
        } else {
            TreeStats { children: self.children.push(child), ..self }
        }
    }
}

impl View for TreeData {
    type V = TreeStats;

    open spec fn view(&self) -> TreeStats {
        TreeStats {
            visits: self.visit_count as nat,
            score: self.total_score as int,
            children: self.children@,
        }
    }
}

impl Default for TreeData {
    fn default() -> (data: Self)
        ensures
            data@ == TreeStats::fresh(),
    {
        TreeData { visit_count: 1, total_score: 0, children: Vec::new() }
    }
}

impl TreeData {
    /// Whether `child` is among the children.
    pub fn has_child(&self, child: &Game) -> (found: bool)
        ensures
            found == self@.children.contains(*child),
    {
        let mut i: usize = 0;
        while i < self.children.len()
            invariant
                i <= self.children@.len(),
                forall|j: int| 0 <= j < i ==> self.children@[j] != *child,
            decreases self.children@.len() - i,
        {
            if self.children[i] == *child {
                return true;
            }
            i += 1;
        }
        false
    }
}

/// The games that the search has met, each with what is kept for it.
///
/// Games are told apart by what they hold, not by how they came about: two
/// lines of play that end in the same position share one entry.
pub struct Registry {
    states: Vec<Game>,
    entries: Vec<TreeData>,
    buckets: Vec<Vec<usize>>,
}

impl View for Registry {
    type V = Map<Game, TreeStats>;

    closed spec fn view(&self) -> Map<Game, TreeStats> {
        Map::new(
            |g: Game| self.states@.contains(g),
            |g: Game| self.entries@[self.states@.index_of(g)]@,
        )
    }
}

impl Registry {
    /// Whether place `t` of bucket `b` holds the slot of a game of that bucket.
    spec fn filed_right(&self, b: int, t: int) -> bool {
        let slot = self.buckets@[b]@[t];
        slot < self.states@.len() && bucket_of(self.states@[slot as int]) == b
    }

    /// Whether slot `i` is filed in the bucket of its game.
    spec fn is_filed(&self, i: int) -> bool {
        let filed = self.buckets@[bucket_of(self.states@[i])]@;
        exists|t: int| 0 <= t < filed.len() && #[trigger] filed[t] == i
    }

    /// Every game has one entry, which is filed in the bucket of the game,
    /// and no entry lists a child twice.
    pub closed spec fn wf(&self) -> bool {
        &&& self.states@.len() == self.entries@.len()
        &&& self.states@.no_duplicates()
        &&& forall|i: int|
            0 <= i < self.entries@.len() ==> (#[trigger] self.entries@[i])@.children.no_duplicates()
        &&& self.buckets@.len() == BUCKETS
        &&& forall|b: int, t: int|
            0 <= b < BUCKETS && 0 <= t < self.buckets@[b]@.len() ==> #[trigger] self.filed_right(b, t)
        &&& forall|i: int| 0 <= i < self.states@.len() ==> #[trigger] self.is_filed(i)
    }

    /// What is kept for `g`, or what would be kept if it were met now.
    pub open spec fn stats(&self, g: Game) -> TreeStats {
        if self@.dom().contains(g) {
            self@[g]
        } else {
            TreeStats::fresh()
        }
    }

    /// In a well-formed registry no entry lists a child twice.
    pub proof fn lemma_children_distinct(&self, g: Game)
        requires
            self.wf(),
        ensures
            self.stats(g).children.no_duplicates(),
    {
        if self@.dom().contains(g) {
            let i = self.states@.index_of(g);
            assert(self.entries@[i]@.children.no_duplicates());
        }
    }

    /// The game in slot `i` is found in slot `i`.
    proof fn lemma_slot(&self, i: int)
        requires
            self.wf(),
            0 <= i < self.states@.len(),
        ensures
            self.states@.contains(self.states@[i]),
            self.states@.index_of(self.states@[i]) == i,
            self@.dom().contains(self.states@[i]),
            self@[self.states@[i]] == self.entries@[i]@,
    {
        let j = self.states@.index_of(self.states@[i]);
        assert(self.states@[j] == self.states@[i]);
    }

    /// A registry without entries.
    pub fn new() -> (registry: Self)
        ensures
            registry.wf(),
            registry@ == Map::<Game, TreeStats>::empty(),
    {
        let mut buckets: Vec<Vec<usize>> = Vec::new();
        let mut b: usize = 0;
        while b < BUCKETS
            invariant
                b <= BUCKETS,
                buckets@.len() == b,
                forall|i: int| 0 <= i < b ==> (#[trigger] buckets@[i])@.len() == 0,
            decreases BUCKETS - b,
        {
            buckets.push(Vec::new());
            b += 1;
        }
        let registry = Registry { states: Vec::new(), entries: Vec::new(), buckets };
        assert(registry@ =~= Map::<Game, TreeStats>::empty());
        registry
    }

    /// How many games have an entry.
    pub fn len(&self) -> (n: usize)
        requires
            self.wf(),
        ensures
            n == self@.dom().len(),
            self@.dom().finite(),
    {
        proof {
            self.states@.unique_seq_to_set();
            assert(self@.dom() =~= self.states@.to_set());
        }
        self.states.len()
    }

    /// The slot of `state`, if it has an entry.
    fn find(&self, state: &Game) -> (slot: Option<usize>)
        requires
            self.wf(),
        ensures
            match slot {
                Some(i) => i < self.states@.len() && self.states@[i as int] == *state,
                None => !self.states@.contains(*state),
            },
    {
        let b = bucket(state);
        let filed = &self.buckets[b];
        let mut t: usize = 0;
        while t < filed.len()
            invariant
                t <= filed@.len(),
                self.wf(),
                b == bucket_of(*state),
                b < BUCKETS,
                filed@ == self.buckets@[b as int]@,
                forall|u: int| 0 <= u < t ==> self.states@[filed@[u] as int] != *state,
            decreases filed@.len() - t,
        {
            assert(self.filed_right(b as int, t as int));
            let slot = filed[t];
            if self.states[slot] == *state {
                return Some(slot);
            }
            t += 1;
        }
        proof {
            if self.states@.contains(*state) {
                let i = choose|i: int| 0 <= i < self.states@.len() && self.states@[i] == *state;
                assert(self.is_filed(i));
                let u = choose|u: int| 0 <= u < filed@.len() && filed@[u] == i;
                assert(self.states@[filed@[u] as int] != *state);
            }
        }
        None
    }

    /// The slot of `state`, which gets an entry first if it has none.
    fn slot_of(&mut self, state: Game) -> (i: usize)
        requires
            old(self).wf(),
        ensures
            final(self).wf(),
            final(self)@ == old(self)@.insert(state, old(self).stats(state)),
            i < final(self).states@.len(),
            final(self).states@[i as int] == state,
    {
        match self.find(&state) {
            Some(i) => {
                proof {
                    self.lemma_slot(i as int);
                    assert(self@ =~= self@.insert(state, self.stats(state)));
                }
                i
            },
            None => {
                let b = bucket(&state);
                let slot = self.states.len();
                self.states.push(state);
                self.entries.push(TreeData::default());
                self.buckets[b].push(slot);
                proof {
                    let n = old(self).states@.len() as int;
                    assert forall|c: int, t: int|
                        0 <= c < BUCKETS && 0 <= t < self.buckets@[c]@.len() implies #[trigger] self.filed_right(
                        c,
                        t,
                    ) by {
                        if c == b && t == old(self).buckets@[c]@.len() {
                        } else {
                            assert(old(self).filed_right(c, t));
                        }
                    }
                    assert forall|i: int| 0 <= i < self.states@.len() implies #[trigger] self.is_filed(
                        i,
                    ) by {
                        if i < n {
                            assert(old(self).is_filed(i));
                            let c = bucket_of(self.states@[i]);
                            let v = choose|v: int|
                                0 <= v < old(self).buckets@[c]@.len() && old(self).buckets@[c]@[v]
                                    == i;
                            assert(self.buckets@[c]@[v] == i);
                        } else {
                            assert(self.buckets@[b as int]@[old(self).buckets@[b as int]@.len() as int]
                                == slot);
                        }
                    }
                    assert(self.states@ == old(self).states@.push(state));
                    assert(self.states@[n] == state);
                    assert forall|g: Game|
                        self.states@.contains(g) <==> (g == state || old(self).states@.contains(
                            g,
                        )) by {
                        if old(self).states@.contains(g) {
                            let j = old(self).states@.index_of(g);
                            assert(self.states@[j] == g);
                        }
                    }
                    assert forall|g: Game| old(self).states@.contains(g) implies self.states@.index_of(
                        g,
                    ) == old(self).states@.index_of(g) by {
                        let j = old(self).states@.index_of(g);
                        assert(self.states@[j] == g);
                    }
                    assert(self.states@.index_of(state) == n);
                    assert(self@ =~= old(self)@.insert(state, old(self).stats(state)));
                }
                self.states.len() - 1
            },
        }
    }

    /// Whether `state` has an entry.
    pub fn contains(&self, state: &Game) -> (found: bool)
        requires
            self.wf(),
        ensures
            found == self@.dom().contains(*state),
    {
        self.find(state).is_some()
    }

    /// What is kept for `state`, if it has an entry.
    pub fn get(&self, state: &Game) -> (entry: Option<&TreeData>)
        requires
            self.wf(),
        ensures
            match entry {
                Some(data) => self@.dom().contains(*state) && data@ == self@[*state],
                None => !self@.dom().contains(*state),
            },
    {
        match self.find(state) {
            Some(i) => {
                proof {
                    self.lemma_slot(i as int);
                }
                Some(&self.entries[i])
            },
            None => None,
        }
    }

    /// What is kept for `state`, which gets a fresh entry first if it has
    /// none. Nothing else changes.
    pub fn get_or_create(&mut self, state: Game) -> (entry: &TreeData)
        requires
            old(self).wf(),
        ensures
            final(self).wf(),
            final(self)@ == old(self)@.insert(state, old(self).stats(state)),
            entry@ == old(self).stats(state),
    {
        let i = self.slot_of(state);
        proof {
            self.lemma_slot(i as int);
        }
        &self.entries[i]
    }

    /// Lists `child` among the children of `parent`, unless it is listed
    /// already. `parent` gets an entry first if it has none.
    pub fn record_child(&mut self, parent: Game, child: Game)
        requires
            old(self).wf(),
        ensures
            final(self).wf(),
            final(self)@ == old(self)@.insert(parent, old(self).stats(parent).with_child(child)),
    {
        let i = self.slot_of(parent);
        let ghost before = *self;
        proof {
            self.lemma_slot(i as int);
        }
        if !self.entries[i].has_child(&child) {
            self.entries[i].children.push(child);
            proof {
                assert(self.entries@[i as int]@.children == before.entries@[i as int]@.children.push(
                    child,
                ));
            }
        }
        proof {
            self.lemma_entry_replaced(before, i as int);
        }
    }

    /// Counts one visit more for `state`, which gets an entry first if it
    /// has none.
    pub fn add_visit(&mut self, state: Game)
        requires
            old(self).wf(),
            old(self).stats(state).visits < u64::MAX,
        ensures
            final(self).wf(),
            final(self)@ == old(self)@.insert(state, old(self).stats(state).visited()),
    {
        let i = self.slot_of(state);
        let ghost before = *self;
        proof {
            self.lemma_slot(i as int);
        }
        self.entries[i].visit_count += 1;
        proof {
            assert(self.entries@[i as int]@.children == before.entries@[i as int]@.children);
            self.lemma_entry_replaced(before, i as int);
        }
    }

    /// Adds `delta` to the score of `state`, if it has an entry. Nothing
    /// changes if it has none.
    pub fn add_score(&mut self, state: Game, delta: i64)
        requires
            old(self).wf(),
            old(self)@.dom().contains(state) ==> i64::MIN <= old(self)@[state].score + delta
                <= i64::MAX,
        ensures
            final(self).wf(),
            final(self)@ == if old(self)@.dom().contains(state) {
                old(self)@.insert(state, old(self)@[state].scored(delta as int))
            } else {
                old(self)@
            },
    {
        match self.find(&state) {
            Some(i) => {
                let ghost before = *self;
                proof {
                    self.lemma_slot(i as int);
                }
                self.entries[i].total_score += delta;
                proof {
                    assert(self.entries@[i as int]@.children == before.entries@[i as int]@.children);
                    self.lemma_entry_replaced(before, i as int);
                }
            },
            None => {},
        }
    }

    /// A registry that differs from `before` in the entry of slot `i` alone
    /// is in good order if that entry is, maps the game in that slot to the
    /// new entry, and every other game as before.
    proof fn lemma_entry_replaced(&self, before: Registry, i: int)
        requires
            before.wf(),
            0 <= i < before.states@.len(),
            self.states@ == before.states@,
            self.buckets@ == before.buckets@,
            self.entries@.len() == before.entries@.len(),
            forall|j: int|
                0 <= j < before.entries@.len() && j != i ==> self.entries@[j] == before.entries@[j],
            self.entries@[i]@.children.no_duplicates(),
        ensures
            self.wf(),
            self@ == before@.insert(before.states@[i], self.entries@[i]@),
    {
        assert forall|j: int| 0 <= j < self.entries@.len() implies (
        #[trigger] self.entries@[j])@.children.no_duplicates() by {
            if j != i {
                assert(self.entries@[j] == before.entries@[j]);
            }
        }
        assert forall|c: int, t: int|
            0 <= c < BUCKETS && 0 <= t < self.buckets@[c]@.len() implies #[trigger] self.filed_right(
            c,
            t,
        ) by {
            assert(before.filed_right(c, t));
        }
        assert forall|j: int| 0 <= j < self.states@.len() implies #[trigger] self.is_filed(j) by {
            assert(before.is_filed(j));
        }
        before.lemma_slot(i);
        self.lemma_slot(i);
        assert forall|g: Game| self.states@.contains(g) && g != before.states@[i] implies self@[g]
            == before@[g] by {
            let j = self.states@.index_of(g);
            assert(self.states@[j] == g);
        }
        assert(self@ =~= before@.insert(before.states@[i], self.entries@[i]@));
    }
}

} // verus!

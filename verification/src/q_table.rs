use vstd::prelude::*;
use crate::config::{Config, SCALE, VAL_BOUND, JITTER_BOUND, SENTINEL_VALUE};
use crate::util::{rand_range, rand_below};

verus! {

/// The margin (0.1) added on top of the worst value when a table is shifted
/// to make all of its values non-negative.
pub const SHIFT_MARGIN: i64 = 100_000;

// ---------------------------------------------------------------------------
// A per-state table of move values.
//
// The table is a small association list from a (row, column) move to a
// fixed-point value; its mathematical model is the finite map built by
// inserting the entries in order. Keys are kept distinct, so the list and the
// map carry the same information.
// ---------------------------------------------------------------------------

/// A move-to-value table for one state.
#[derive(Debug)]
pub struct Moves {
    pub moves: Vec<((usize, usize), i64)>,
}

pub open spec fn entries_distinct(s: Seq<((usize, usize), i64)>) -> bool {
    forall|i: int, j: int| 0 <= i < j < s.len() ==> s[i].0 != s[j].0
}

pub open spec fn entries_bounded(s: Seq<((usize, usize), i64)>) -> bool {
    forall|i: int| 0 <= i < s.len() ==> -VAL_BOUND <= #[trigger] s[i].1 <= VAL_BOUND
}

pub open spec fn entries_map(s: Seq<((usize, usize), i64)>) -> Map<(usize, usize), i64>
    decreases s.len(),
{
    if s.len() == 0 {
        Map::empty()
    } else {
        entries_map(s.drop_last()).insert(s.last().0, s.last().1)
    }
}

pub open spec fn distinct_positions(s: Seq<(usize, usize)>) -> bool {
    forall|i: int, j: int| 0 <= i < j < s.len() ==> s[i] != s[j]
}

/// `v` is the greatest value the table holds.
pub open spec fn is_max_value(m: Map<(usize, usize), i64>, v: i64) -> bool {
    &&& exists|k: (usize, usize)| #[trigger] m.dom().contains(k) && m[k] == v
    &&& forall|k: (usize, usize)| #[trigger] m.dom().contains(k) ==> m[k] <= v
}

/// `v` is the least value the table holds.
pub open spec fn is_min_value(m: Map<(usize, usize), i64>, v: i64) -> bool {
    &&& exists|k: (usize, usize)| #[trigger] m.dom().contains(k) && m[k] == v
    &&& forall|k: (usize, usize)| #[trigger] m.dom().contains(k) ==> v <= m[k]
}

/// The greatest value of a nonempty table.
pub open spec fn max_value_of(m: Map<(usize, usize), i64>) -> i64 {
    choose|v: i64| is_max_value(m, v)
}

/// The least value of a nonempty table.
pub open spec fn min_value_of(m: Map<(usize, usize), i64>) -> i64 {
    choose|v: i64| is_min_value(m, v)
}

/// The association list indeed models its map: every entry is in the map with
/// its value, and everything in the map comes from an entry.
pub proof fn lemma_entries_map(s: Seq<((usize, usize), i64)>)
    requires
        entries_distinct(s),
    ensures
        forall|i: int|
            0 <= i < s.len() ==> #[trigger] entries_map(s).dom().contains(s[i].0) && entries_map(
                s,
            )[s[i].0] == s[i].1,
        forall|k: (usize, usize)|
            #[trigger] entries_map(s).dom().contains(k) ==> exists|i: int|
                0 <= i < s.len() && s[i].0 == k,
    decreases s.len(),
{
    if s.len() > 0 {
        let s0 = s.drop_last();
        assert(forall|i: int| 0 <= i < s0.len() ==> s0[i] == s[i]);
        lemma_entries_map(s0);
        let m = entries_map(s);
        assert(m == entries_map(s0).insert(s.last().0, s.last().1));
        assert forall|i: int|
            0 <= i < s.len() implies #[trigger] m.dom().contains(s[i].0) && m[s[i].0]
            == s[i].1 by {
            if i < s.len() - 1 {
                assert(s[i].0 != s.last().0);
                assert(entries_map(s0).dom().contains(s0[i].0));
            }
        }
        assert forall|k: (usize, usize)| #[trigger] m.dom().contains(k) implies exists|i: int|
            0 <= i < s.len() && s[i].0 == k by {
            if k == s.last().0 {
                assert(s[s.len() - 1].0 == k);
            } else {
                assert(entries_map(s0).dom().contains(k));
                let i = choose|i: int| 0 <= i < s0.len() && s0[i].0 == k;
                assert(s[i].0 == k);
            }
        }
    }
}

/// Replacing the value at one entry updates the map at that entry's key.
pub proof fn lemma_entries_map_update(s: Seq<((usize, usize), i64)>, i: int, v: i64)
    requires
        entries_distinct(s),
        0 <= i < s.len(),
    ensures
        entries_map(s.update(i, (s[i].0, v))) =~= entries_map(s).insert(s[i].0, v),
    decreases s.len(),
{
    let s2 = s.update(i, (s[i].0, v));
    assert(s2.len() == s.len());
    if i == s.len() - 1 {
        assert(s2.drop_last() =~= s.drop_last());
        assert(s2.last() == (s[i].0, v));
        assert(entries_map(s2) == entries_map(s.drop_last()).insert(s[i].0, v));
        assert(entries_map(s).insert(s[i].0, v) =~= entries_map(s.drop_last()).insert(
            s.last().0,
            s.last().1,
        ).insert(s[i].0, v));
    } else {
        let s0 = s.drop_last();
        assert(forall|j: int| 0 <= j < s0.len() ==> s0[j] == s[j]);
        assert(s2.drop_last() =~= s0.update(i, (s0[i].0, v)));
        lemma_entries_map_update(s0, i, v);
        assert(s2.last() == s.last());
        assert(s[i].0 != s.last().0);
        assert(entries_map(s2) == entries_map(s0.update(i, (s0[i].0, v))).insert(
            s.last().0,
            s.last().1,
        ));
        assert(entries_map(s2) =~= entries_map(s).insert(s[i].0, v));
    }
}

/// The greatest (least) value of a table is unique.
pub proof fn lemma_extremum_unique(m: Map<(usize, usize), i64>, v: i64)
    ensures
        is_max_value(m, v) ==> v == max_value_of(m),
        is_min_value(m, v) ==> v == min_value_of(m),
{
    if is_max_value(m, v) {
        let w = max_value_of(m);
        assert(is_max_value(m, w));
        assert(v <= w && w <= v);
    }
    if is_min_value(m, v) {
        let w = min_value_of(m);
        assert(is_min_value(m, w));
        assert(v <= w && w <= v);
    }
}

impl View for Moves {
    type V = Map<(usize, usize), i64>;

    open spec fn view(&self) -> Map<(usize, usize), i64> {
        entries_map(self.moves@)
    }
}

impl Moves {
    /// Keys never repeat: the list models a map.
    pub open spec fn wf(&self) -> bool {
        entries_distinct(self.moves@)
    }

    /// Every value stays within the global bound.
    pub open spec fn bounded(&self) -> bool {
        entries_bounded(self.moves@)
    }

    /// The table has at least one entry.
    pub open spec fn has_moves(&self) -> bool {
        self.moves@.len() > 0
    }

    /// Bridge between the association list and its map model, phrased over
    /// the view so that callers can instantiate it directly.
    pub proof fn lemma_view(&self)
        requires
            self.wf(),
        ensures
            forall|i: int|
                0 <= i < self.moves@.len() ==> #[trigger] self@.dom().contains(self.moves@[i].0)
                    && self@[self.moves@[i].0] == self.moves@[i].1,
            forall|k: (usize, usize)|
                #[trigger] self@.dom().contains(k) ==> exists|i: int|
                    0 <= i < self.moves@.len() && self.moves@[i].0 == k,
    {
        let s = self.moves@;
        lemma_entries_map(s);
        assert(self@ == entries_map(s));
        assert forall|i: int|
            0 <= i < s.len() implies #[trigger] self@.dom().contains(s[i].0) && self@[s[i].0]
            == s[i].1 by {
            assert(entries_map(s).dom().contains(s[i].0));
        }
    }

    pub fn len(&self) -> (r: usize)
        ensures
            r == self.moves@.len(),
    {
        self.moves.len()
    }

    /// A fresh table over the given candidate moves, each seeded with small
    /// independent jitter to break ties before any learning occurs.
    pub fn new(m: Vec<(usize, usize)>) -> (r: Moves)
        requires
            distinct_positions(m@),
        ensures
            r.wf(),
            r.bounded(),
            r.moves@.len() == m@.len(),
            forall|i: int| 0 <= i < m@.len() ==> r.moves@[i].0 == m@[i],
            forall|k: (usize, usize)| r@.dom().contains(k) <==> m@.contains(k),
            forall|k: (usize, usize)|
                r@.dom().contains(k) ==> -JITTER_BOUND <= r@[k] < JITTER_BOUND,
    {
        let mut entries: Vec<((usize, usize), i64)> = Vec::new();
        let n = m.len();
        let mut i: usize = 0;
        while i < n
            invariant
                distinct_positions(m@),
                n == m@.len(),
                i <= n,
                entries@.len() == i,
                forall|j: int| 0 <= j < i ==> entries@[j].0 == m@[j],
                forall|j: int|
                    0 <= j < i ==> -JITTER_BOUND <= #[trigger] entries@[j].1 < JITTER_BOUND,
            decreases n - i,
        {
            let v = rand_range(-JITTER_BOUND, JITTER_BOUND);
            let mv = m[i];
            entries.push((mv, v));
            i = i + 1;
        }
        let r = Moves { moves: entries };
        proof {
            assert forall|a: int, b: int|
                0 <= a < b < r.moves@.len() implies r.moves@[a].0 != r.moves@[b].0 by {
                assert(r.moves@[a].0 == m@[a]);
                assert(r.moves@[b].0 == m@[b]);
            }
            r.lemma_view();
            assert forall|k: (usize, usize)| r@.dom().contains(k) <==> m@.contains(k) by {
                if r@.dom().contains(k) {
                    let j = choose|j: int| 0 <= j < r.moves@.len() && r.moves@[j].0 == k;
                    assert(m@[j] == k);
                }
                if m@.contains(k) {
                    let j = choose|j: int| 0 <= j < m@.len() && m@[j] == k;
                    assert(r.moves@[j].0 == k);
                    assert(r@.dom().contains(r.moves@[j].0));
                }
            }
            assert forall|k: (usize, usize)|
                r@.dom().contains(k) implies -JITTER_BOUND <= r@[k] < JITTER_BOUND by {
                let j = choose|j: int| 0 <= j < r.moves@.len() && r.moves@[j].0 == k;
                assert(r@[r.moves@[j].0] == r.moves@[j].1);
            }
        }
        r
    }

    /// A fresh table over the given candidate moves, each entry holding the
    /// sentinel value (-100.0), low enough that exact search scores always
    /// overwrite it.
    pub fn with_sentinel(m: Vec<(usize, usize)>) -> (r: Moves)
        requires
            distinct_positions(m@),
        ensures
            r.wf(),
            r.bounded(),
            r.moves@.len() == m@.len(),
            forall|i: int| 0 <= i < m@.len() ==> r.moves@[i].0 == m@[i],
            forall|k: (usize, usize)| r@.dom().contains(k) <==> m@.contains(k),
            forall|k: (usize, usize)| r@.dom().contains(k) ==> r@[k] == SENTINEL_VALUE,
    {
        let mut entries: Vec<((usize, usize), i64)> = Vec::new();
        let n = m.len();
        let mut i: usize = 0;
        while i < n
            invariant
                distinct_positions(m@),
                n == m@.len(),
                i <= n,
                entries@.len() == i,
                forall|j: int| 0 <= j < i ==> entries@[j].0 == m@[j],
                forall|j: int| 0 <= j < i ==> entries@[j].1 == SENTINEL_VALUE,
            decreases n - i,
        {
            let mv = m[i];
            entries.push((mv, SENTINEL_VALUE));
            i = i + 1;
        }
        let r = Moves { moves: entries };
        proof {
            assert forall|a: int, b: int|
                0 <= a < b < r.moves@.len() implies r.moves@[a].0 != r.moves@[b].0 by {
                assert(r.moves@[a].0 == m@[a]);
                assert(r.moves@[b].0 == m@[b]);
            }
            r.lemma_view();
            assert forall|k: (usize, usize)| r@.dom().contains(k) <==> m@.contains(k) by {
                if r@.dom().contains(k) {
                    let j = choose|j: int| 0 <= j < r.moves@.len() && r.moves@[j].0 == k;
                    assert(m@[j] == k);
                }
                if m@.contains(k) {
                    let j = choose|j: int| 0 <= j < m@.len() && m@[j] == k;
                    assert(r.moves@[j].0 == k);
                    assert(r@.dom().contains(r.moves@[j].0));
                }
            }
            assert forall|k: (usize, usize)|
                r@.dom().contains(k) implies r@[k] == SENTINEL_VALUE by {
                let j = choose|j: int| 0 <= j < r.moves@.len() && r.moves@[j].0 == k;
                assert(r@[r.moves@[j].0] == r.moves@[j].1);
            }
        }
        r
    }

    /// Look a move's value up.
    pub fn get(&self, mv: (usize, usize)) -> (r: Option<i64>)
        requires
            self.wf(),
        ensures
            match r {
                Some(v) => self@.dom().contains(mv) && v == self@[mv],
                None => !self@.dom().contains(mv),
            },
    {
        let n = self.moves.len();
        let mut i: usize = 0;
        while i < n
            invariant
                self.wf(),
                n == self.moves@.len(),
                i <= n,
                forall|j: int| 0 <= j < i ==> self.moves@[j].0 != mv,
            decreases n - i,
        {
            let e = self.moves[i];
            if e.0.0 == mv.0 && e.0.1 == mv.1 {
                proof {
                    self.lemma_view();
                }
                return Some(e.1);
            }
            i = i + 1;
        }
        proof {
            self.lemma_view();
            if self@.dom().contains(mv) {
                let j = choose|j: int| 0 <= j < self.moves@.len() && self.moves@[j].0 == mv;
                assert(false);
            }
        }
        None
    }

    /// The position of a present key in the list.
    fn index_of(&self, mv: (usize, usize)) -> (i: usize)
        requires
            self.wf(),
            self@.dom().contains(mv),
        ensures
            i < self.moves@.len(),
            self.moves@[i as int].0 == mv,
    {
        let n = self.moves.len();
        let mut i: usize = 0;
        while i < n
            invariant
                self.wf(),
                n == self.moves@.len(),
                i <= n,
                forall|j: int| 0 <= j < i ==> self.moves@[j].0 != mv,
            decreases n - i,
        {
            let e = self.moves[i];
            if e.0.0 == mv.0 && e.0.1 == mv.1 {
                return i;
            }
            i = i + 1;
        }
        proof {
            self.lemma_view();
            let j = choose|j: int| 0 <= j < self.moves@.len() && self.moves@[j].0 == mv;
            assert(false);
        }
        0
    }

    /// Overwrite the value of a present move.
    pub fn set_value(&mut self, mv: (usize, usize), v: i64)
        requires
            old(self).wf(),
            old(self)@.dom().contains(mv),
        ensures
            final(self).wf(),
            final(self)@ == old(self)@.insert(mv, v),
            final(self).moves@.len() == old(self).moves@.len(),
            forall|i: int|
                0 <= i < old(self).moves@.len() ==> final(self).moves@[i].0 == old(
                    self,
                ).moves@[i].0,
            forall|i: int|
                0 <= i < old(self).moves@.len() ==> final(self).moves@[i].1 == (
                if old(self).moves@[i].0 == mv {
                    v as int
                } else {
                    old(self).moves@[i].1 as int
                }),
            old(self).bounded() && -VAL_BOUND <= v <= VAL_BOUND ==> final(self).bounded(),
    {
        let i = self.index_of(mv);
        proof {
            lemma_entries_map_update(self.moves@, i as int, v);
        }
        self.moves[i] = (mv, v);
    }

    /// The greatest value the table holds.
    pub fn max_value(&self) -> (r: i64)
        requires
            self.wf(),
            self.has_moves(),
        ensures
            is_max_value(self@, r),
            r == max_value_of(self@),
    {
        let n = self.moves.len();
        let mut best: i64 = self.moves[0].1;
        let mut i: usize = 1;
        while i < n
            invariant
                self.wf(),
                self.has_moves(),
                n == self.moves@.len(),
                1 <= i <= n,
                exists|j: int| 0 <= j < i && self.moves@[j].1 == best,
                forall|j: int| 0 <= j < i ==> self.moves@[j].1 <= best,
            decreases n - i,
        {
            let v = self.moves[i].1;
            if v > best {
                best = v;
            }
            i = i + 1;
        }
        proof {
            self.lemma_view();
            let j = choose|j: int| 0 <= j < self.moves@.len() && self.moves@[j].1 == best;
            assert(self@.dom().contains(self.moves@[j].0));
            assert(self@[self.moves@[j].0] == best);
            assert forall|k: (usize, usize)| #[trigger] self@.dom().contains(k) implies self@[k]
                <= best by {
                let jj = choose|jj: int|
                    0 <= jj < self.moves@.len() && self.moves@[jj].0 == k;
                assert(self@[self.moves@[jj].0] == self.moves@[jj].1);
            }
            lemma_extremum_unique(self@, best);
        }
        best
    }

    /// The least value the table holds.
    pub fn min_value(&self) -> (r: i64)
        requires
            self.wf(),
            self.has_moves(),
        ensures
            is_min_value(self@, r),
            r == min_value_of(self@),
    {
        let n = self.moves.len();
        let mut best: i64 = self.moves[0].1;
        let mut i: usize = 1;
        while i < n
            invariant
                self.wf(),
                self.has_moves(),
                n == self.moves@.len(),
                1 <= i <= n,
                exists|j: int| 0 <= j < i && self.moves@[j].1 == best,
                forall|j: int| 0 <= j < i ==> best <= self.moves@[j].1,
            decreases n - i,
        {
            let v = self.moves[i].1;
            if v < best {
                best = v;
            }
            i = i + 1;
        }
        proof {
            self.lemma_view();
            let j = choose|j: int| 0 <= j < self.moves@.len() && self.moves@[j].1 == best;
            assert(self@.dom().contains(self.moves@[j].0));
            assert(self@[self.moves@[j].0] == best);
            assert forall|k: (usize, usize)| #[trigger] self@.dom().contains(k) implies best
                <= self@[k] by {
                let jj = choose|jj: int|
                    0 <= jj < self.moves@.len() && self.moves@[jj].0 == k;
                assert(self@[self.moves@[jj].0] == self.moves@[jj].1);
            }
            lemma_extremum_unique(self@, best);
        }
        best
    }

    /// One move whose value is the table's maximum, chosen uniformly at
    /// random among all moves tied for that maximum.
    #[verifier::rlimit(30)]
    pub fn select_max_move(&self) -> (r: (usize, usize))
        requires
            self.wf(),
            self.has_moves(),
        ensures
            self@.dom().contains(r),
            forall|k: (usize, usize)| #[trigger] self@.dom().contains(k) ==> self@[k] <= self@[r],
            self@[r] == max_value_of(self@),
    {
        let best = self.max_value();
        let n = self.moves.len();
        let mut ties: Vec<(usize, usize)> = Vec::new();
        let mut i: usize = 0;
        while i < n
            invariant
                self.wf(),
                self.has_moves(),
                n == self.moves@.len(),
                i <= n,
                forall|j: int|
                    0 <= j < ties@.len() ==> #[trigger] self@.dom().contains(ties@[j])
                        && self@[ties@[j]] == best,
                (exists|j: int| 0 <= j < i && self.moves@[j].1 == best) ==> ties@.len() > 0,
            decreases n - i,
        {
            let e = self.moves[i];
            if e.1 == best {
                proof {
                    self.lemma_view();
                    assert(self@.dom().contains(self.moves@[i as int].0));
                    assert(self@[self.moves@[i as int].0] == best);
                }
                ties.push(e.0);
            }
            i = i + 1;
        }
        proof {
            self.lemma_view();
            let k0 = choose|k: (usize, usize)| #[trigger] self@.dom().contains(k) && self@[k]
                == best;
            let j = choose|j: int| 0 <= j < self.moves@.len() && self.moves@[j].0 == k0;
            assert(self@[self.moves@[j].0] == self.moves@[j].1);
            assert(self.moves@[j].1 == best);
        }
        let idx = rand_below(ties.len());
        let r = ties[idx];
        proof {
            lemma_extremum_unique(self@, best);
            assert(self@.dom().contains(r));
            assert(self@[r] == best);
            assert forall|k: (usize, usize)| #[trigger] self@.dom().contains(k) implies self@[k]
                <= self@[r] by {}
        }
        r
    }

    /// One move whose value is the table's minimum, chosen uniformly at
    /// random among all moves tied for that minimum.
    #[verifier::rlimit(30)]
    pub fn select_min_move(&self) -> (r: (usize, usize))
        requires
            self.wf(),
            self.has_moves(),
        ensures
            self@.dom().contains(r),
            forall|k: (usize, usize)| #[trigger] self@.dom().contains(k) ==> self@[r] <= self@[k],
            self@[r] == min_value_of(self@),
    {
        let best = self.min_value();
        let n = self.moves.len();
        let mut ties: Vec<(usize, usize)> = Vec::new();
        let mut i: usize = 0;
        while i < n
            invariant
                self.wf(),
                self.has_moves(),
                n == self.moves@.len(),
                i <= n,
                forall|j: int|
                    0 <= j < ties@.len() ==> #[trigger] self@.dom().contains(ties@[j])
                        && self@[ties@[j]] == best,
                (exists|j: int| 0 <= j < i && self.moves@[j].1 == best) ==> ties@.len() > 0,
            decreases n - i,
        {
            let e = self.moves[i];
            if e.1 == best {
                proof {
                    self.lemma_view();
                    assert(self@.dom().contains(self.moves@[i as int].0));
                    assert(self@[self.moves@[i as int].0] == best);
                }
                ties.push(e.0);
            }
            i = i + 1;
        }
        proof {
            self.lemma_view();
            let k0 = choose|k: (usize, usize)| #[trigger] self@.dom().contains(k) && self@[k]
                == best;
            let j = choose|j: int| 0 <= j < self.moves@.len() && self.moves@[j].0 == k0;
            assert(self@[self.moves@[j].0] == self.moves@[j].1);
            assert(self.moves@[j].1 == best);
        }
        let idx = rand_below(ties.len());
        let r = ties[idx];
        proof {
            lemma_extremum_unique(self@, best);
            assert(self@.dom().contains(r));
            assert(self@[r] == best);
            assert forall|k: (usize, usize)| #[trigger] self@.dom().contains(k) implies self@[r]
                <= self@[k] by {}
        }
        r
    }

    /// The table with every value raised by the same shift: nothing if the
    /// least value is already non-negative, else the least value's magnitude
    /// plus a margin of 0.1, so that all values come out non-negative and in
    /// the same order.
    pub fn shifted_non_negative(&self) -> (r: Moves)
        requires
            self.wf(),
            self.bounded(),
            self.has_moves(),
        ensures
            r.wf(),
            r.has_moves(),
            r@.dom() =~= self@.dom(),
            forall|k: (usize, usize)|
                #[trigger] self@.dom().contains(k) ==> r@[k] == self@[k] + (
                if min_value_of(self@) < 0 {
                    -min_value_of(self@) + SHIFT_MARGIN
                } else {
                    0
                }),
            forall|k: (usize, usize)| #[trigger] self@.dom().contains(k) ==> 0 <= r@[k],
    {
        let mn = self.min_value();
        proof {
            self.lemma_view();
            let k0 = choose|k: (usize, usize)| #[trigger] self@.dom().contains(k) && self@[k]
                == mn;
            let j = choose|j: int| 0 <= j < self.moves@.len() && self.moves@[j].0 == k0;
            assert(self@[self.moves@[j].0] == self.moves@[j].1);
            assert(-VAL_BOUND <= self.moves@[j].1 <= VAL_BOUND);
            assert(mn == self.moves@[j].1);
        }
        let shift: i64 = if mn < 0 {
            -mn + SHIFT_MARGIN
        } else {
            0
        };
        let n = self.moves.len();
        let mut entries: Vec<((usize, usize), i64)> = Vec::new();
        let mut i: usize = 0;
        while i < n
            invariant
                self.wf(),
                self.bounded(),
                self.has_moves(),
                is_min_value(self@, mn),
                -VAL_BOUND <= mn <= VAL_BOUND,
                shift == if mn < 0 { -mn + SHIFT_MARGIN } else { 0int },
                0 <= shift <= VAL_BOUND + SHIFT_MARGIN,
                n == self.moves@.len(),
                i <= n,
                entries@.len() == i,
                forall|j: int| 0 <= j < i ==> entries@[j].0 == self.moves@[j].0,
                forall|j: int|
                    0 <= j < i ==> entries@[j].1 == self.moves@[j].1 + shift,
            decreases n - i,
        {
            let e = self.moves[i];
            proof {
                assert(-VAL_BOUND <= e.1 <= VAL_BOUND);
            }
            entries.push((e.0, e.1 + shift));
            i = i + 1;
        }
        let r = Moves { moves: entries };
        proof {
            assert forall|a: int, b: int|
                0 <= a < b < r.moves@.len() implies r.moves@[a].0 != r.moves@[b].0 by {
                assert(r.moves@[a].0 == self.moves@[a].0);
                assert(r.moves@[b].0 == self.moves@[b].0);
            }
            self.lemma_view();
            r.lemma_view();
            assert forall|k: (usize, usize)| r@.dom().contains(k) <==> self@.dom().contains(
                k,
            ) by {
                if r@.dom().contains(k) {
                    let j = choose|j: int| 0 <= j < r.moves@.len() && r.moves@[j].0 == k;
                    assert(self@.dom().contains(self.moves@[j].0));
                }
                if self@.dom().contains(k) {
                    let j = choose|j: int|
                        0 <= j < self.moves@.len() && self.moves@[j].0 == k;
                    assert(r@.dom().contains(r.moves@[j].0));
                }
            }
            assert forall|k: (usize, usize)| #[trigger] self@.dom().contains(k) implies r@[k]
                == self@[k] + shift by {
                let j = choose|j: int| 0 <= j < self.moves@.len() && self.moves@[j].0 == k;
                assert(self@[self.moves@[j].0] == self.moves@[j].1);
                assert(r@.dom().contains(r.moves@[j].0));
                assert(r@[r.moves@[j].0] == r.moves@[j].1);
            }
            assert forall|k: (usize, usize)| #[trigger] self@.dom().contains(k) implies 0
                <= r@[k] by {
                assert(mn <= self@[k]);
            }
        }
        r
    }
}

// ---------------------------------------------------------------------------
// The temporal-difference blend.
// ---------------------------------------------------------------------------

/// The fixed-point realization of `(1 - alpha) * old + alpha * target`: the
/// old value moved toward the target by the fraction `alpha` of the gap.
pub open spec fn spec_blend(v0: int, t: int, alpha: int) -> int {
    if t >= v0 {
        v0 + alpha * (t - v0) / (SCALE as int)
    } else {
        v0 - alpha * (v0 - t) / (SCALE as int)
    }
}

/// One rate applied to a fixed-point value, rounded toward zero.
pub open spec fn spec_scaled(rate: int, v: int) -> int {
    if v >= 0 {
        rate * v / (SCALE as int)
    } else {
        -(rate * (-v) / (SCALE as int))
    }
}

/// A non-terminal update looks one ply ahead through the other participant's
/// optimizing lens: the minimizing participant's update reads the greatest
/// next-state value, anyone else's the least, both discounted; a terminal
/// update takes the reward itself.
pub open spec fn spec_target(
    next: Map<(usize, usize), i64>,
    player: Seq<char>,
    reward: i64,
    game_over: bool,
    discount: int,
) -> int {
    if game_over {
        reward as int
    } else if player == "RLmin"@ {
        spec_scaled(discount, max_value_of(next) as int)
    } else {
        spec_scaled(discount, min_value_of(next) as int)
    }
}

proof fn lemma_div_bound(num: int, den: int, cap: int)
    requires
        0 <= num,
        0 <= cap,
        0 < den,
        num <= cap * den,
    ensures
        0 <= num / den <= cap,
{
    vstd::arithmetic::div_mod::lemma_div_is_ordered(num, cap * den, den);
    vstd::arithmetic::div_mod::lemma_div_by_multiple(cap, den);
    vstd::arithmetic::div_mod::lemma_div_pos_is_pos(num, den);
}

/// The blended value, computed in fixed point.
fn blend(v0: i64, t: i64, alpha: i64) -> (r: i64)
    requires
        -VAL_BOUND <= v0 <= VAL_BOUND,
        -VAL_BOUND <= t <= VAL_BOUND,
        0 <= alpha <= SCALE,
    ensures
        r == spec_blend(v0 as int, t as int, alpha as int),
        v0 <= t ==> v0 <= r <= t,
        t <= v0 ==> t <= r <= v0,
{
    proof {
        lemma_blend_in_range(v0 as int, t as int, alpha as int);
    }
    if t >= v0 {
        let d = t - v0;
        let step = (alpha * d) / SCALE;
        v0 + step
    } else {
        let d = v0 - t;
        let step = (alpha * d) / SCALE;
        v0 - step
    }
}

/// One rate applied to a fixed-point value, computed in fixed point.
fn scaled(rate: i64, v: i64) -> (r: i64)
    requires
        0 <= rate <= SCALE,
        -VAL_BOUND <= v <= VAL_BOUND,
    ensures
        r == spec_scaled(rate as int, v as int),
        -VAL_BOUND <= r <= VAL_BOUND,
        v >= 0 ==> 0 <= r <= v,
        v <= 0 ==> v <= r <= 0,
    {
    proof {
        lemma_scaled_in_range(rate as int, v as int);
    }
    if v >= 0 {
        (rate * v) / SCALE
    } else {
        -((rate * (-v)) / SCALE)
    }
}

/// The blend never leaves the closed interval between the old value and the
/// target: each temporal-difference step moves the stored value monotonically
/// toward the target and never past it.
pub proof fn lemma_blend_in_range(v0: int, t: int, alpha: int)
    requires
        0 <= alpha <= SCALE,
        -VAL_BOUND <= v0 <= VAL_BOUND,
        -VAL_BOUND <= t <= VAL_BOUND,
    ensures
        v0 <= t ==> v0 <= spec_blend(v0, t, alpha) <= t,
        t <= v0 ==> t <= spec_blend(v0, t, alpha) <= v0,
{
    let s = SCALE as int;
    if t >= v0 {
        let d = t - v0;
        assert(alpha * d <= d * s) by (nonlinear_arith)
            requires 0 <= alpha <= s && 0 <= d;
        assert(0 <= alpha * d) by (nonlinear_arith)
            requires 0 <= alpha && 0 <= d;
        lemma_div_bound(alpha * d, s, d);
    } else {
        let d = v0 - t;
        assert(alpha * d <= d * s) by (nonlinear_arith)
            requires 0 <= alpha <= s && 0 <= d;
        assert(0 <= alpha * d) by (nonlinear_arith)
            requires 0 <= alpha && 0 <= d;
        lemma_div_bound(alpha * d, s, d);
    }
}


/// With reward zero on a non-terminal ply and a stable successor table, each
/// update moves the stored value monotonically toward the discounted
/// extremum the acting participant's update reads, and never past it: under
/// repetition the value converges on that target, at the pace the learning
/// rate sets.
pub proof fn lemma_td_update_monotone(
    next: Map<(usize, usize), i64>,
    player: Seq<char>,
    v0: int,
    discount: int,
    alpha: int,
)
    requires
        0 <= alpha <= SCALE,
        0 <= discount <= SCALE,
        -VAL_BOUND <= v0 <= VAL_BOUND,
        -VAL_BOUND <= max_value_of(next) <= VAL_BOUND,
        -VAL_BOUND <= min_value_of(next) <= VAL_BOUND,
    ensures
        ({
            let t = spec_target(next, player, 0, false, discount);
            &&& v0 <= t ==> v0 <= spec_blend(v0, t, alpha) <= t
            &&& t <= v0 ==> t <= spec_blend(v0, t, alpha) <= v0
        }),
{
    let t = spec_target(next, player, 0, false, discount);
    if player == "RLmin"@ {
        lemma_scaled_in_range(discount, max_value_of(next) as int);
    } else {
        lemma_scaled_in_range(discount, min_value_of(next) as int);
    }
    lemma_blend_in_range(v0, t, alpha);
}

/// A rate in [0, 1] never grows a value's magnitude.
pub proof fn lemma_scaled_in_range(rate: int, v: int)
    requires
        0 <= rate <= SCALE,
        -VAL_BOUND <= v <= VAL_BOUND,
    ensures
        v >= 0 ==> 0 <= spec_scaled(rate, v) <= v,
        v <= 0 ==> v <= spec_scaled(rate, v) <= 0,
{
    let s = SCALE as int;
    if v >= 0 {
        assert(rate * v <= v * s) by (nonlinear_arith)
            requires 0 <= rate <= s && 0 <= v;
        assert(0 <= rate * v) by (nonlinear_arith)
            requires 0 <= rate && 0 <= v;
        lemma_div_bound(rate * v, s, v);
    } else {
        assert(rate * (-v) <= (-v) * s) by (nonlinear_arith)
            requires 0 <= rate <= s && 0 <= -v;
        assert(0 <= rate * (-v)) by (nonlinear_arith)
            requires 0 <= rate && 0 <= -v;
        lemma_div_bound(rate * (-v), s, -v);
    }
}

// ---------------------------------------------------------------------------
// The Value Store: a table of per-state move values, keyed by state key.
//
// A state key is the nine-character row-major form of a position followed by
// the acting participant's identity; the same geometric position can carry
// different learned values for different participants. The store is an
// association list with distinct keys; its model is the map from key
// characters to the move table's map.
// ---------------------------------------------------------------------------

/// The Value Store.
#[derive(Debug)]
pub struct QTable {
    pub qtable: Vec<(String, Moves)>,
}

pub open spec fn table_keys_distinct(s: Seq<(String, Moves)>) -> bool {
    forall|i: int, j: int| 0 <= i < j < s.len() ==> s[i].0@ != s[j].0@
}

pub open spec fn table_map(s: Seq<(String, Moves)>) -> Map<Seq<char>, Map<(usize, usize), i64>>
    decreases s.len(),
{
    if s.len() == 0 {
        Map::empty()
    } else {
        table_map(s.drop_last()).insert(s.last().0@, s.last().1@)
    }
}

/// The store's association list models its map, just as a move table's does.
pub proof fn lemma_table_map(s: Seq<(String, Moves)>)
    requires
        table_keys_distinct(s),
    ensures
        forall|i: int|
            0 <= i < s.len() ==> #[trigger] table_map(s).dom().contains(s[i].0@) && table_map(
                s,
            )[s[i].0@] == s[i].1@,
        forall|k: Seq<char>|
            #[trigger] table_map(s).dom().contains(k) ==> exists|i: int|
                0 <= i < s.len() && s[i].0@ == k,
    decreases s.len(),
{
    if s.len() > 0 {
        let s0 = s.drop_last();
        assert(forall|i: int| 0 <= i < s0.len() ==> s0[i] == s[i]);
        lemma_table_map(s0);
        let m = table_map(s);
        assert(m == table_map(s0).insert(s.last().0@, s.last().1@));
        assert forall|i: int|
            0 <= i < s.len() implies #[trigger] m.dom().contains(s[i].0@) && m[s[i].0@]
            == s[i].1@ by {
            if i < s.len() - 1 {
                assert(s[i].0@ != s.last().0@);
                assert(table_map(s0).dom().contains(s0[i].0@));
            }
        }
        assert forall|k: Seq<char>| #[trigger] m.dom().contains(k) implies exists|i: int|
            0 <= i < s.len() && s[i].0@ == k by {
            if k == s.last().0@ {
                assert(s[s.len() - 1].0@ == k);
            } else {
                assert(table_map(s0).dom().contains(k));
                let i = choose|i: int| 0 <= i < s0.len() && s0[i].0@ == k;
                assert(s[i].0@ == k);
            }
        }
    }
}

/// Whether a move lands on an empty cell of the position a key's first nine
/// characters spell out.
pub open spec fn move_on_empty_cell(cells: Seq<char>, mv: (usize, usize)) -> bool {
    mv.0 < 3 && mv.1 < 3 && cells[3 * mv.0 + mv.1] == crate::board::empty_char()
}

/// The store invariant the orchestrator maintains: every present key was
/// seeded from the available moves of the position it spells out, so its move
/// table's keys are exactly that position's empty cells.
pub open spec fn seeded(t: Map<Seq<char>, Map<(usize, usize), i64>>) -> bool {
    forall|k: Seq<char>|
        #[trigger] t.dom().contains(k) ==> k.len() >= 9 && (forall|mv: (usize, usize)|
            #[trigger] t[k].dom().contains(mv) <==> move_on_empty_cell(k.subrange(0, 9), mv))
}


/// One store entry is seeded from exactly the empty cells of the position its
/// key spells out.
pub open spec fn entry_seeded(key: Seq<char>, m: Map<(usize, usize), i64>) -> bool {
    key.len() >= 9 && (forall|mv: (usize, usize)|
        #[trigger] m.dom().contains(mv) <==> move_on_empty_cell(key.subrange(0, 9), mv))
}

/// Every entry key of a store's list is in its map, distinct keys or not.
proof fn lemma_table_map_dom(s: Seq<(String, Moves)>)
    ensures
        forall|i: int| 0 <= i < s.len() ==> #[trigger] table_map(s).dom().contains(s[i].0@),
    decreases s.len(),
{
    if s.len() > 0 {
        let s0 = s.drop_last();
        assert(forall|i: int| 0 <= i < s0.len() ==> s0[i] == s[i]);
        lemma_table_map_dom(s0);
        assert forall|i: int|
            0 <= i < s.len() implies #[trigger] table_map(s).dom().contains(s[i].0@) by {
            if i < s.len() - 1 {
                assert(table_map(s0).dom().contains(s0[i].0@));
            }
        }
    }
}

impl View for QTable {
    type V = Map<Seq<char>, Map<(usize, usize), i64>>;

    open spec fn view(&self) -> Map<Seq<char>, Map<(usize, usize), i64>> {
        table_map(self.qtable@)
    }
}

impl QTable {
    /// Keys never repeat, and every move table is well formed and bounded.
    pub open spec fn wf(&self) -> bool {
        &&& table_keys_distinct(self.qtable@)
        &&& forall|i: int|
            0 <= i < self.qtable@.len() ==> (#[trigger] self.qtable@[i].1).wf()
                && self.qtable@[i].1.bounded()
    }

    /// Bridge between the association list and its map model.
    pub proof fn lemma_view(&self)
        requires
            self.wf(),
        ensures
            forall|i: int|
                0 <= i < self.qtable@.len() ==> #[trigger] self@.dom().contains(
                    self.qtable@[i].0@,
                ) && self@[self.qtable@[i].0@] == self.qtable@[i].1@,
            forall|k: Seq<char>|
                #[trigger] self@.dom().contains(k) ==> exists|i: int|
                    0 <= i < self.qtable@.len() && self.qtable@[i].0@ == k,
    {
        let s = self.qtable@;
        lemma_table_map(s);
        assert(self@ == table_map(s));
        assert forall|i: int|
            0 <= i < s.len() implies #[trigger] self@.dom().contains(s[i].0@) && self@[s[i].0@]
            == s[i].1@ by {
            assert(table_map(s).dom().contains(s[i].0@));
        }
    }

    pub fn new() -> (r: Self)
        ensures
            r.wf(),
            r@ == Map::<Seq<char>, Map<(usize, usize), i64>>::empty(),
            r.qtable@.len() == 0,
    {
        QTable { qtable: Vec::new() }
    }

    pub fn len(&self) -> (r: usize)
        ensures
            r == self.qtable@.len(),
    {
        self.qtable.len()
    }

    /// The position of a present key in the list.
    fn index_of_key(&self, key: &str) -> (r: Option<usize>)
        requires
            self.wf(),
        ensures
            match r {
                Some(i) => i < self.qtable@.len() && self.qtable@[i as int].0@ == key@
                    && self@.dom().contains(key@),
                None => !self@.dom().contains(key@),
            },
    {
        let n = self.qtable.len();
        let mut i: usize = 0;
        while i < n
            invariant
                self.wf(),
                n == self.qtable@.len(),
                i <= n,
                forall|j: int| 0 <= j < i ==> self.qtable@[j].0@ != key@,
            decreases n - i,
        {
            if crate::util::str_eq(self.qtable[i].0.as_str(), key) {
                proof {
                    self.lemma_view();
                }
                return Some(i);
            }
            i = i + 1;
        }
        proof {
            self.lemma_view();
            if self@.dom().contains(key@) {
                let j = choose|j: int|
                    0 <= j < self.qtable@.len() && self.qtable@[j].0@ == key@;
                assert(false);
            }
        }
        None
    }

    /// Whether a state key is present.
    pub fn contains_key(&self, key: &str) -> (r: bool)
        requires
            self.wf(),
        ensures
            r == self@.dom().contains(key@),
    {
        match self.index_of_key(key) {
            Some(_) => true,
            None => false,
        }
    }

    /// The move table stored under a state key.
    pub fn get(&self, key: &str) -> (r: Option<&Moves>)
        requires
            self.wf(),
        ensures
            match r {
                Some(m) => self@.dom().contains(key@) && m@ == self@[key@] && m.wf()
                    && m.bounded(),
                None => !self@.dom().contains(key@),
            },
    {
        match self.index_of_key(key) {
            Some(i) => {
                proof {
                    self.lemma_view();
                }
                Some(&self.qtable[i].1)
            },
            None => None,
        }
    }

    /// Insert a move table under a key, replacing any table already there.
    pub fn insert(&mut self, key: String, m: Moves)
        requires
            old(self).wf(),
            m.wf(),
            m.bounded(),
        ensures
            final(self).wf(),
            final(self)@ == old(self)@.insert(key@, m@),
    {
        proof {
            self.lemma_view();
        }
        match self.index_of_key(key.as_str()) {
            Some(i) => {
                let ghost s = self.qtable@;
                self.qtable.remove(i);
                self.qtable.insert(i, (key, m));
                proof {
                    assert(self.qtable@ =~= s.update(i as int, (key, m)));
                    lemma_table_map_update(s, i as int, key, m);
                }
            },
            None => {
                self.qtable.push((key, m));
                proof {
                    let s = self.qtable@;
                    assert(s.drop_last() =~= old(self).qtable@);
                }
            },
        }
    }

    /// Insert a fresh move table seeded from the candidate moves, if and only
    /// if the key is absent; present keys are left untouched.
    pub fn ensure_entry(&mut self, key: String, candidate_moves: Vec<(usize, usize)>)
        requires
            old(self).wf(),
            distinct_positions(candidate_moves@),
        ensures
            final(self).wf(),
            old(self)@.dom().contains(key@) ==> final(self)@ == old(self)@
                && final(self).qtable@ == old(self).qtable@,
            !old(self)@.dom().contains(key@) ==> {
                &&& final(self)@.dom() =~= old(self)@.dom().insert(key@)
                &&& forall|k: Seq<char>|
                    #[trigger] old(self)@.dom().contains(k) && k != key@ ==> final(self)@[k]
                        == old(self)@[k]
                &&& forall|mv: (usize, usize)|
                    #[trigger] final(self)@[key@].dom().contains(mv)
                        <==> candidate_moves@.contains(mv)
                &&& forall|mv: (usize, usize)|
                    #[trigger] final(self)@[key@].dom().contains(mv) ==> -JITTER_BOUND <= final(self)@[key@][mv]
                        < JITTER_BOUND
            },
            seeded(old(self)@) && key@.len() >= 9 && (forall|mv: (usize, usize)|
                candidate_moves@.contains(mv) <==> move_on_empty_cell(
                    key@.subrange(0, 9),
                    mv,
                )) ==> seeded(final(self)@),
    {
        proof {
            self.lemma_view();
        }
        let ghost pre = *self;
        match self.index_of_key(key.as_str()) {
            Some(_) => {},
            None => {
                let m = Moves::new(candidate_moves);
                self.qtable.push((key, m));
                proof {
                    let s = self.qtable@;
                    assert(s.drop_last() =~= pre.qtable@);
                    assert(self@ == pre@.insert(s.last().0@, s.last().1@));
                    assert(final(self)@.dom() =~= pre@.dom().insert(s.last().0@));
                }
            },
        }
        proof {
            if seeded(pre@) && key@.len() >= 9 && (forall|mv: (usize, usize)|
                candidate_moves@.contains(mv) <==> move_on_empty_cell(key@.subrange(0, 9), mv)) {
                assert forall|k: Seq<char>| #[trigger] self@.dom().contains(k) implies k.len()
                    >= 9 && (forall|mv: (usize, usize)|
                    #[trigger] self@[k].dom().contains(mv) <==> move_on_empty_cell(
                        k.subrange(0, 9),
                        mv,
                    )) by {
                    if pre@.dom().contains(k) && (k != key@ || pre@.dom().contains(key@)) {
                        assert(pre@.dom().contains(k));
                        assert(self@[k] == pre@[k]);
                    } else {
                        assert(k == key@);
                        assert forall|mv: (usize, usize)|
                            #[trigger] self@[k].dom().contains(mv) <==> move_on_empty_cell(
                                k.subrange(0, 9),
                                mv,
                            ) by {
                            assert(self@[k].dom().contains(mv) <==> candidate_moves@.contains(
                                mv,
                            ));
                        }
                    }
                }
            }
        }
    }

    /// All values a well-formed, bounded table's map holds stay within the
    /// global bound.
    pub proof fn lemma_values_bounded(m: &Moves)
        requires
            m.wf(),
            m.bounded(),
        ensures
            forall|k: (usize, usize)|
                #[trigger] m@.dom().contains(k) ==> -VAL_BOUND <= m@[k] <= VAL_BOUND,
    {
        m.lemma_view();
        assert forall|k: (usize, usize)| #[trigger] m@.dom().contains(k) implies -VAL_BOUND
            <= m@[k] <= VAL_BOUND by {
            let i = choose|i: int| 0 <= i < m.moves@.len() && m.moves@[i].0 == k;
            assert(m@[m.moves@[i].0] == m.moves@[i].1);
            assert(-VAL_BOUND <= m.moves@[i].1 <= VAL_BOUND);
        }
    }


    /// Whether this store is a well-formed, seeded Value Store: keys never
    /// repeat, every move table is well formed with bounded values, and every
    /// entry holds exactly the empty cells of the position its key spells
    /// out. A store loaded from outside the library can be checked with this
    /// before any policy reads it.
    pub fn validate(&self) -> (r: bool)
        ensures
            r == (self.wf() && seeded(self@)),
    {
        let n = self.qtable.len();
        // no state key may repeat
        let mut a: usize = 0;
        while a < n
            invariant
                n == self.qtable@.len(),
                a <= n,
                forall|x: int, y: int|
                    0 <= x < y < n && y < a ==> (#[trigger] self.qtable@[x]).0@ != (
                    #[trigger] self.qtable@[y]).0@,
            decreases n - a,
        {
            let mut b: usize = 0;
            while b < a
                invariant
                    n == self.qtable@.len(),
                    b <= a < n,
                    forall|x: int|
                        0 <= x < b ==> (#[trigger] self.qtable@[x]).0@ != self.qtable@[
                            a as int
                        ].0@,
                decreases a - b,
            {
                if crate::util::str_eq(self.qtable[b].0.as_str(), self.qtable[a].0.as_str()) {
                    return false;
                }
                b = b + 1;
            }
            a = a + 1;
        }
        proof {
            assert(table_keys_distinct(self.qtable@));
            lemma_table_map(self.qtable@);
        }
        // every entry must be well formed, bounded and seeded
        let mut a: usize = 0;
        while a < n
            invariant
                n == self.qtable@.len(),
                a <= n,
                table_keys_distinct(self.qtable@),
                forall|x: int|
                    0 <= x < a ==> (#[trigger] self.qtable@[x]).1.wf() && self.qtable@[x].1.bounded()
                        && entry_seeded(self.qtable@[x].0@, self.qtable@[x].1@),
            decreases n - a,
        {
            proof {
                lemma_table_map(self.qtable@);
            }
            let m = &self.qtable[a].1;
            let mlen = m.moves.len();
            // distinct moves
            let mut x: usize = 0;
            while x < mlen
                invariant
                    n == self.qtable@.len(),
                    a < n,
                    m == &self.qtable@[a as int].1,
                    mlen == m.moves@.len(),
                    x <= mlen,
                    forall|u: int, w: int|
                        0 <= u < w < mlen && w < x ==> m.moves@[u].0 != m.moves@[w].0,
                decreases mlen - x,
            {
                let exa = m.moves[x];
                let mut y: usize = 0;
                while y < x
                    invariant
                        n == self.qtable@.len(),
                        a < n,
                        m == &self.qtable@[a as int].1,
                        mlen == m.moves@.len(),
                        y <= x < mlen,
                        exa == m.moves@[x as int],
                        forall|u: int| 0 <= u < y ==> m.moves@[u].0 != m.moves@[x as int].0,
                    decreases x - y,
                {
                    let eya = m.moves[y];
                    if eya.0.0 == exa.0.0 && eya.0.1 == exa.0.1 {
                        return false;
                    }
                    y = y + 1;
                }
                x = x + 1;
            }
            // bounded values, and every stored move on the board
            let mut x: usize = 0;
            while x < mlen
                invariant
                    n == self.qtable@.len(),
                    a < n,
                    m == &self.qtable@[a as int].1,
                    m.wf(),
                    mlen == m.moves@.len(),
                    x <= mlen,
                    table_keys_distinct(self.qtable@),
                    forall|u: int|
                        0 <= u < x ==> -VAL_BOUND <= #[trigger] m.moves@[u].1 <= VAL_BOUND
                            && m.moves@[u].0.0 < 3 && m.moves@[u].0.1 < 3,
                decreases mlen - x,
            {
                let e = m.moves[x];
                if e.1 < -VAL_BOUND || e.1 > VAL_BOUND {
                    return false;
                }
                if e.0.0 >= 3 || e.0.1 >= 3 {
                    proof {
                        lemma_table_map_dom(self.qtable@);
                        lemma_table_map(self.qtable@);
                        assert(self@ == table_map(self.qtable@));
                        assert(table_map(self.qtable@).dom().contains(
                            self.qtable@[a as int].0@,
                        ));
                        assert(table_map(self.qtable@)[self.qtable@[a as int].0@]
                            == self.qtable@[a as int].1@);
                        m.lemma_view();
                        assert(m@.dom().contains(m.moves@[x as int].0));
                        assert(self@[self.qtable@[a as int].0@].dom().contains(
                            m.moves@[x as int].0,
                        ));
                        assert(!move_on_empty_cell(
                            self.qtable@[a as int].0@.subrange(0, 9),
                            m.moves@[x as int].0,
                        ));
                        assert(!seeded(self@));
                    }
                    return false;
                }
                x = x + 1;
            }
            // the key spells a position whose empty cells are exactly the moves
            let key = &self.qtable[a].0;
            if key.as_str().unicode_len() < 9 {
                proof {
                    lemma_table_map_dom(self.qtable@);
                    assert(self@.dom().contains(self.qtable@[a as int].0@));
                    assert(!seeded(self@));
                }
                return false;
            }
            let mut row: usize = 0;
            while row < 3
                invariant
                    n == self.qtable@.len(),
                    a < n,
                    m == &self.qtable@[a as int].1,
                    m.wf(),
                    key == &self.qtable@[a as int].0,
                    key@.len() >= 9,
                    table_keys_distinct(self.qtable@),
                    row <= 3,
                    forall|rr: int, cc: int|
                        0 <= rr && 0 <= cc && cc < 3 && 3 * rr + cc < 3 * row ==> (
                        #[trigger] m@.dom().contains((rr as usize, cc as usize)) <==> key@[3 * rr
                            + cc] == crate::board::empty_char()),
                decreases 3 - row,
            {
                let mut col: usize = 0;
                while col < 3
                    invariant
                        n == self.qtable@.len(),
                        a < n,
                        m == &self.qtable@[a as int].1,
                        m.wf(),
                        key == &self.qtable@[a as int].0,
                        key@.len() >= 9,
                        table_keys_distinct(self.qtable@),
                        row < 3,
                        col <= 3,
                        forall|rr: int, cc: int|
                            0 <= rr && 0 <= cc && cc < 3 && 3 * rr + cc < 3 * row + col ==> (
                            #[trigger] m@.dom().contains((rr as usize, cc as usize)) <==> key@[3
                                * rr + cc] == crate::board::empty_char()),
                    decreases 3 - col,
                {
                    let empty = key.as_str().get_char(3 * row + col) == '-';
                    let has = match m.get((row, col)) {
                        Some(_) => true,
                        None => false,
                    };
                    if empty != has {
                        proof {
                            lemma_table_map_dom(self.qtable@);
                            lemma_table_map(self.qtable@);
                            assert(self@ == table_map(self.qtable@));
                            assert(table_map(self.qtable@).dom().contains(
                                self.qtable@[a as int].0@,
                            ));
                            assert(table_map(self.qtable@)[self.qtable@[a as int].0@]
                                == self.qtable@[a as int].1@);
                            assert(self@[self.qtable@[a as int].0@] == m@);
                            assert(key@.subrange(0, 9)[3 * row + col] == key@[3 * row + col]);
                            assert(m@.dom().contains((row, col)) != move_on_empty_cell(
                                key@.subrange(0, 9),
                                (row, col),
                            ));
                            assert(!seeded(self@));
                        }
                        return false;
                    }
                    proof {
                        assert forall|rr: int, cc: int|
                            0 <= rr && 0 <= cc && cc < 3 && 3 * rr + cc < 3 * row + col + 1
                                implies (#[trigger] m@.dom().contains((rr as usize, cc as usize))
                            <==> key@[3 * rr + cc] == crate::board::empty_char()) by {
                            if 3 * rr + cc == 3 * row + col {
                                assert(rr == row as int && cc == col as int) by (nonlinear_arith)
                                    requires
                                        0 <= rr && 0 <= cc < 3 && row < 3 && col < 3 && 3 * rr
                                            + cc == 3 * row + col,
                                ;
                            }
                        }
                    }
                    col = col + 1;
                }
                row = row + 1;
            }
            proof {
                m.lemma_view();
                assert forall|mv: (usize, usize)| #[trigger] m@.dom().contains(mv)
                    <==> move_on_empty_cell(
                    self.qtable@[a as int].0@.subrange(0, 9),
                    mv,
                ) by {
                    assert(key@.subrange(0, 9).len() == 9);
                    if m@.dom().contains(mv) {
                        let u = choose|u: int| 0 <= u < m.moves@.len() && m.moves@[u].0 == mv;
                        assert(mv.0 < 3 && mv.1 < 3);
                        assert(m@.dom().contains((mv.0 as int as usize, mv.1 as int as usize))
                            <==> key@[3 * mv.0 + mv.1] == crate::board::empty_char());
                        assert(key@.subrange(0, 9)[3 * mv.0 + mv.1] == key@[3 * mv.0 + mv.1]);
                    }
                    if move_on_empty_cell(self.qtable@[a as int].0@.subrange(0, 9), mv) {
                        assert(key@.subrange(0, 9)[3 * mv.0 + mv.1] == key@[3 * mv.0 + mv.1]);
                        assert(m@.dom().contains((mv.0 as int as usize, mv.1 as int as usize))
                            <==> key@[3 * mv.0 + mv.1] == crate::board::empty_char());
                    }
                }
                assert(entry_seeded(self.qtable@[a as int].0@, self.qtable@[a as int].1@));
            }
            a = a + 1;
        }
        proof {
            assert(self.wf());
            lemma_table_map(self.qtable@);
            assert forall|k: Seq<char>| #[trigger] self@.dom().contains(k) implies k.len() >= 9
                && (forall|mv: (usize, usize)|
                #[trigger] self@[k].dom().contains(mv) <==> move_on_empty_cell(
                    k.subrange(0, 9),
                    mv,
                )) by {
                let i = choose|i: int|
                    0 <= i < self.qtable@.len() && self.qtable@[i].0@ == k;
                assert(self@[self.qtable@[i].0@] == self.qtable@[i].1@);
                assert(entry_seeded(self.qtable@[i].0@, self.qtable@[i].1@));
            }
            assert(seeded(self@));
        }
        true
    }

    /// One temporal-difference update.
    ///
    /// The stored value of the move just played is blended toward a target:
    /// the reward itself on a terminal ply, else the discounted extremum of
    /// the successor state's table, read through the other participant's
    /// optimizing lens (greatest for the minimizing participant, least for
    /// anyone else). A move absent from the current key's table leaves the
    /// store unchanged.
    pub fn update_q_table(
        &mut self,
        current_state_key: &str,
        next_state_key: &str,
        current_move: &(usize, usize),
        player: &str,
        reward: i64,
        game_over: bool,
        cfg: &Config,
    )
        requires
            old(self).wf(),
            cfg.wf(),
            -VAL_BOUND <= reward <= VAL_BOUND,
            old(self)@.dom().contains(current_state_key@),
            old(self)@.dom().contains(next_state_key@),
            !game_over ==> exists|k: (usize, usize)|
                #[trigger] old(self)@[next_state_key@].dom().contains(k),
        ensures
            final(self).wf(),
            final(self)@.dom() =~= old(self)@.dom(),
            forall|k: Seq<char>|
                #[trigger] old(self)@.dom().contains(k) && k != current_state_key@
                    ==> final(self)@[k] == old(self)@[k],
            old(self)@[current_state_key@].dom().contains(*current_move)
                ==> final(self)@[current_state_key@] == old(self)@[current_state_key@].insert(
                *current_move,
                spec_blend(
                    old(self)@[current_state_key@][*current_move] as int,
                    spec_target(
                        old(self)@[next_state_key@],
                        player@,
                        reward,
                        game_over,
                        cfg.discount_rate as int,
                    ),
                    cfg.learning_rate as int,
                ) as i64,
            ),
            !old(self)@[current_state_key@].dom().contains(*current_move)
                ==> final(self)@ == old(self)@,
            seeded(old(self)@) ==> seeded(final(self)@),
    {
        let ghost pre = *self;
        let target: i64 = if game_over {
            reward
        } else {
            let nm_opt = self.get(next_state_key);
            let nm = match nm_opt {
                Some(nm) => nm,
                None => {
                    proof {
                        assert(false);
                    }
                    return ;
                },
            };
            proof {
                nm.lemma_view();
                let k0 = choose|k: (usize, usize)| #[trigger] nm@.dom().contains(k);
                let i0 = choose|i: int| 0 <= i < nm.moves@.len() && nm.moves@[i].0 == k0;
                assert(nm.moves@.len() > 0);
                Self::lemma_values_bounded(nm);
            }
            let ex: i64 = if crate::util::str_eq(player, "RLmin") {
                nm.max_value()
            } else {
                nm.min_value()
            };
            proof {
                let m0 = nm@;
                if player@ == "RLmin"@ {
                    let kw = choose|k: (usize, usize)| #[trigger] m0.dom().contains(k) && m0[k]
                        == ex;
                    assert(-VAL_BOUND <= m0[kw] <= VAL_BOUND);
                } else {
                    let kw = choose|k: (usize, usize)| #[trigger] m0.dom().contains(k) && m0[k]
                        == ex;
                    assert(-VAL_BOUND <= m0[kw] <= VAL_BOUND);
                }
            }
            scaled(cfg.discount_rate, ex)
        };
        proof {
            assert(target as int == spec_target(
                pre@[next_state_key@],
                player@,
                reward,
                game_over,
                cfg.discount_rate as int,
            ));
        }
        let i = match self.index_of_key(current_state_key) {
            Some(i) => i,
            None => {
                proof {
                    assert(false);
                }
                return ;
            },
        };
        proof {
            self.lemma_view();
            assert(self.qtable@[i as int].1@ == self@[current_state_key@]);
        }
        let old_v_opt = self.qtable[i].1.get(*current_move);
        match old_v_opt {
            Some(old_v) => {
                proof {
                    Self::lemma_values_bounded(&self.qtable[i as int].1);
                }
                let new_v = blend(old_v, target, cfg.learning_rate);
                let ghost s = self.qtable@;
                let mut entry = self.qtable.remove(i);
                entry.1.set_value(*current_move, new_v);
                self.qtable.insert(i, entry);
                proof {
                    assert(self.qtable@ =~= s.update(
                        i as int,
                        (s[i as int].0, self.qtable@[i as int].1),
                    ));
                    lemma_table_map_update(
                        s,
                        i as int,
                        s[i as int].0,
                        self.qtable@[i as int].1,
                    );
                    assert(self@ =~= pre@.insert(
                        current_state_key@,
                        pre@[current_state_key@].insert(*current_move, new_v),
                    ));
                    assert(final(self)@.dom() =~= pre@.dom());
                    if seeded(pre@) {
                        assert forall|k: Seq<char>| #[trigger] self@.dom().contains(
                            k,
                        ) implies k.len() >= 9 && (forall|mv: (usize, usize)|
                            #[trigger] self@[k].dom().contains(mv) <==> move_on_empty_cell(
                                k.subrange(0, 9),
                                mv,
                            )) by {
                            assert(pre@.dom().contains(k));
                            if k == current_state_key@ {
                                assert(self@[k].dom() =~= pre@[k].dom());
                                assert forall|mv: (usize, usize)|
                                    #[trigger] self@[k].dom().contains(mv)
                                        <==> move_on_empty_cell(k.subrange(0, 9), mv) by {
                                    assert(pre@[k].dom().contains(mv) <==> move_on_empty_cell(
                                        k.subrange(0, 9),
                                        mv,
                                    ));
                                }
                            } else {
                                assert(self@[k] == pre@[k]);
                            }
                        }
                    }
                }
            },
            None => {
                proof {
                    assert(self@ == pre@);
                }
            },
        }
    }

    /// One move tied for the greatest stored value under a key, the tie
    /// broken uniformly at random.
    pub fn max_move(&self, state_key: String) -> (r: (usize, usize))
        requires
            self.wf(),
            self@.dom().contains(state_key@),
            exists|k: (usize, usize)| #[trigger] self@[state_key@].dom().contains(k),
        ensures
            self@[state_key@].dom().contains(r),
            forall|k: (usize, usize)|
                #[trigger] self@[state_key@].dom().contains(k) ==> self@[state_key@][k]
                    <= self@[state_key@][r],
    {
        let m = match self.get(state_key.as_str()) {
            Some(m) => m,
            None => {
                proof {
                    assert(false);
                }
                return (0, 0);
            },
        };
        proof {
            m.lemma_view();
            let k0 = choose|k: (usize, usize)| #[trigger] m@.dom().contains(k);
            let i0 = choose|i: int| 0 <= i < m.moves@.len() && m.moves@[i].0 == k0;
            assert(m.moves@.len() > 0);
        }
        m.select_max_move()
    }

    /// One move tied for the least stored value under a key, the tie broken
    /// uniformly at random.
    pub fn min_move(&self, state_key: String) -> (r: (usize, usize))
        requires
            self.wf(),
            self@.dom().contains(state_key@),
            exists|k: (usize, usize)| #[trigger] self@[state_key@].dom().contains(k),
        ensures
            self@[state_key@].dom().contains(r),
            forall|k: (usize, usize)|
                #[trigger] self@[state_key@].dom().contains(k) ==> self@[state_key@][r]
                    <= self@[state_key@][k],
    {
        let m = match self.get(state_key.as_str()) {
            Some(m) => m,
            None => {
                proof {
                    assert(false);
                }
                return (0, 0);
            },
        };
        proof {
            m.lemma_view();
            let k0 = choose|k: (usize, usize)| #[trigger] m@.dom().contains(k);
            let i0 = choose|i: int| 0 <= i < m.moves@.len() && m.moves@[i].0 == k0;
            assert(m.moves@.len() > 0);
        }
        m.select_min_move()
    }
}

/// Replacing the entry at one position updates the store's map at the old
/// entry's key, provided the key itself is kept.
pub proof fn lemma_table_map_update(s: Seq<(String, Moves)>, i: int, key: String, m: Moves)
    requires
        table_keys_distinct(s),
        0 <= i < s.len(),
        key@ == s[i].0@,
    ensures
        table_map(s.update(i, (key, m))) =~= table_map(s).insert(s[i].0@, m@),
    decreases s.len(),
{
    let s2 = s.update(i, (key, m));
    assert(s2.len() == s.len());
    if i == s.len() - 1 {
        assert(s2.drop_last() =~= s.drop_last());
        assert(s2.last() == (key, m));
        assert(table_map(s2) == table_map(s.drop_last()).insert(key@, m@));
    } else {
        let s0 = s.drop_last();
        assert(forall|j: int| 0 <= j < s0.len() ==> s0[j] == s[j]);
        assert(s2.drop_last() =~= s0.update(i, (key, m)));
        lemma_table_map_update(s0, i, key, m);
        assert(s2.last() == s.last());
        assert(s[i].0@ != s.last().0@);
        assert(table_map(s2) == table_map(s0.update(i, (key, m))).insert(
            s.last().0@,
            s.last().1@,
        ));
        assert(table_map(s2) =~= table_map(s).insert(s[i].0@, m@));
    }
}

} // verus!

use vstd::prelude::*;
use crate::error::CollisionError;

verus! {

/// Depth cap used by the convenience entry point of the line manager.
pub const DEFAULT_MAX_DEPTH: i16 = 255;

/// A collision manager for one-dimensional intervals on parallel lines.
///
/// For each logical line (a station's track, addressed by a zero-based
/// index; storage grows on demand) it keeps an unbounded series of stacking
/// levels, each holding mutually non-overlapping intervals ordered by their
/// start.  Levels are probed in the order `0, +1, -1, +2, -2, ...`, which
/// maps them onto storage slots `0, 1, 2, 3, 4, ...`.
pub struct LineCollisionManager {
    /// Per line, per storage slot, the registered intervals sorted by
    /// strictly increasing start.  Callers must not mutate it directly.
    pub lines: Vec<Vec<Vec<(i64, i64)>>>,
}

/// An interval normalized so that its start does not exceed its end.
pub open spec fn norm_iv(start: i64, end: i64) -> (i64, i64) {
    if start <= end {
        (start, end)
    } else {
        (end, start)
    }
}

/// The storage slot probed for a stacking level.
pub open spec fn slot_of(level: int) -> int {
    if level == 0 {
        0
    } else if level > 0 {
        2 * level - 1
    } else {
        -2 * level
    }
}

/// The stacking level of a storage slot: slots `0, 1, 2, 3, 4, ...` carry
/// levels `0, 1, -1, 2, -2, ...`.
pub open spec fn level_of(slot: int) -> int {
    if slot == 0 {
        0
    } else if slot % 2 == 1 {
        (slot + 1) / 2
    } else {
        -(slot / 2)
    }
}

/// The normalized interval `iv` overlaps (endpoints inclusive) some
/// interval of the sequence.
pub open spec fn occupied_at(ivs: Seq<(i64, i64)>, iv: (i64, i64)) -> bool {
    exists|k: int| 0 <= k < ivs.len() && (#[trigger] ivs[k]).0 <= iv.1 && ivs[k].1 >= iv.0
}

/// The sequence holds exactly the intervals of `old` whose start differs
/// from `iv`'s, plus `iv` itself: the effect of keying storage by interval
/// start.
pub open spec fn upserted(olds: Seq<(i64, i64)>, news: Seq<(i64, i64)>, iv: (i64, i64)) -> bool {
    forall|p: (i64, i64)|
        #![trigger news.contains(p)]
        #![trigger olds.contains(p)]
        news.contains(p) <==> ((olds.contains(p) && p.0 != iv.0) || p == iv)
}

/// The first storage slot at or after `i`, up to `d`, whose interval set
/// the interval does not overlap.
pub open spec fn first_free_from(
    m: LineCollisionManager,
    line: int,
    iv: (i64, i64),
    i: int,
    d: int,
) -> Option<int>
    decreases d - i + 1,
{
    if i > d {
        None
    } else if !occupied_at(m.ivals(line, i), iv) {
        Some(i)
    } else {
        first_free_from(m, line, iv, i + 1, d)
    }
}

/// No two intervals of the sequence overlap (endpoints inclusive).
pub open spec fn pairwise_disjoint(ivs: Seq<(i64, i64)>) -> bool {
    forall|k1: int, k2: int|
        0 <= k1 < ivs.len() && 0 <= k2 < ivs.len() && k1 != k2 ==> !((#[trigger] ivs[k1]).0
            <= (#[trigger] ivs[k2]).1 && ivs[k1].1 >= ivs[k2].0)
}

/// What a found slot means: the probe really returns the first free slot.
/// A result `Some(s)` says the interval overlaps something at every slot
/// before `s` and nothing at `s`; `None` says every probed slot is
/// occupied.
pub proof fn lemma_first_free_props(
    m: LineCollisionManager,
    line: int,
    iv: (i64, i64),
    i: int,
    d: int,
)
    ensures
        first_free_from(m, line, iv, i, d) matches Some(s) ==> {
            &&& i <= s <= d
            &&& !occupied_at(m.ivals(line, s), iv)
            &&& forall|s2: int| i <= s2 < s ==> occupied_at(#[trigger] m.ivals(line, s2), iv)
        },
        first_free_from(m, line, iv, i, d) is None ==> forall|s2: int|
            i <= s2 <= d ==> occupied_at(#[trigger] m.ivals(line, s2), iv),
    decreases d - i + 1,
{
    if i <= d {
        lemma_first_free_props(m, line, iv, i + 1, d);
    }
}

/// Inserting an interval at a level it does not overlap keeps that level's
/// intervals mutually non-overlapping.
pub proof fn lemma_free_insert_keeps_disjoint(
    olds: Seq<(i64, i64)>,
    news: Seq<(i64, i64)>,
    iv: (i64, i64),
)
    requires
        pairwise_disjoint(olds),
        !occupied_at(olds, iv),
        upserted(olds, news, iv),
        forall|k1: int, k2: int|
            0 <= k1 < k2 < news.len() ==> (#[trigger] news[k1]).0 < (#[trigger] news[k2]).0,
    ensures
        pairwise_disjoint(news),
{
    assert forall|k1: int, k2: int|
        0 <= k1 < news.len() && 0 <= k2 < news.len() && k1 != k2 implies !((#[trigger] news[k1]).0
        <= (#[trigger] news[k2]).1 && news[k1].1 >= news[k2].0) by {
        let p = news[k1];
        let q = news[k2];
        assert(news.contains(p));
        assert(news.contains(q));
        assert(p.0 != q.0);
        if p == iv || q == iv {
            let o = if p == iv {
                q
            } else {
                p
            };
            assert(olds.contains(o) && o.0 != iv.0);
            let j = choose|j: int| 0 <= j < olds.len() && olds[j] == o;
            if o.0 <= iv.1 && o.1 >= iv.0 {
                assert(olds[j].0 <= iv.1 && olds[j].1 >= iv.0);
                assert(occupied_at(olds, iv));
            }
        } else {
            let j1 = choose|j: int| 0 <= j < olds.len() && olds[j] == p;
            let j2 = choose|j: int| 0 <= j < olds.len() && olds[j] == q;
            assert(j1 != j2);
            assert(!(olds[j1].0 <= olds[j2].1 && olds[j1].1 >= olds[j2].0));
        }
    }
}

/// The central invariant of level resolution: in a manager built through
/// `resolve_collisions` alone, every stacking level of every line holds
/// mutually non-overlapping intervals, because an interval is only ever
/// registered at the first level it does not overlap.  This lemma carries
/// the invariant across one successful resolution, whose effect is what
/// `resolve_collisions` ensures.
pub proof fn lemma_resolution_keeps_levels_disjoint(
    pre: LineCollisionManager,
    post: LineCollisionManager,
    line: int,
    slot: int,
    iv: (i64, i64),
)
    requires
        post.wf(),
        forall|l2: int, s2: int| pairwise_disjoint(#[trigger] pre.ivals(l2, s2)),
        !occupied_at(pre.ivals(line, slot), iv),
        upserted(pre.ivals(line, slot), post.ivals(line, slot), iv),
        forall|l2: int, s2: int|
            !(l2 == line && s2 == slot) ==> #[trigger] post.ivals(l2, s2) == pre.ivals(l2, s2),
    ensures
        forall|l2: int, s2: int| pairwise_disjoint(#[trigger] post.ivals(l2, s2)),
{
    assert forall|l2: int, s2: int| pairwise_disjoint(#[trigger] post.ivals(l2, s2)) by {
        if l2 == line && s2 == slot {
            lemma_free_insert_keeps_disjoint(
                pre.ivals(line, slot),
                post.ivals(line, slot),
                iv,
            );
        } else {
            assert(post.ivals(l2, s2) == pre.ivals(l2, s2));
            assert(pairwise_disjoint(pre.ivals(l2, s2)));
        }
    }
}

impl LineCollisionManager {
    /// The intervals stored for one line at one storage slot; lines or
    /// slots never written are empty.
    pub open spec fn ivals(self, line: int, slot: int) -> Seq<(i64, i64)> {
        if 0 <= line < self.lines@.len() && 0 <= slot < self.lines@[line]@.len() {
            self.lines@[line]@[slot]@
        } else {
            Seq::empty()
        }
    }

    /// Every stored interval is normalized, and the intervals of one slot
    /// are sorted by strictly increasing start (so starts are unique).
    pub open spec fn wf(self) -> bool {
        forall|line: int, slot: int|
            {
                let ivs = #[trigger] self.ivals(line, slot);
                &&& (forall|k: int| 0 <= k < ivs.len() ==> (#[trigger] ivs[k]).0 <= ivs[k].1)
                &&& (forall|k1: int, k2: int|
                    0 <= k1 < k2 < ivs.len() ==> (#[trigger] ivs[k1]).0 < (#[trigger] ivs[k2]).0)
            }
    }

    /// Create an empty manager.
    pub fn new() -> (r: LineCollisionManager)
        ensures
            r.wf(),
            forall|line: int, slot: int| r.ivals(line, slot) == Seq::<(i64, i64)>::empty(),
    {
        LineCollisionManager { lines: Vec::new() }
    }

    /// Does the normalized interval overlap anything stored at this slot?
    fn occupied_slot(&self, line: usize, slot: usize, lo: i64, hi: i64) -> (r: bool)
        requires
            lo <= hi,
        ensures
            r == occupied_at(self.ivals(line as int, slot as int), (lo, hi)),
    {
        if line >= self.lines.len() {
            return false;
        }
        let lv = &self.lines[line];
        if slot >= lv.len() {
            return false;
        }
        let ivs = &lv[slot];
        let mut k: usize = 0;
        while k < ivs.len()
            invariant
                0 <= k <= ivs@.len(),
                ivs@ == self.ivals(line as int, slot as int),
                forall|k2: int|
                    0 <= k2 < k ==> !((#[trigger] ivs@[k2]).0 <= hi && ivs@[k2].1 >= lo),
            decreases ivs@.len() - k,
        {
            let (s, e) = ivs[k];
            if s <= hi && e >= lo {
                return true;
            }
            k = k + 1;
        }
        false
    }

    /// Is the given (not yet normalized) interval occupied at the given
    /// stacking level of the given line?  Overlap is inclusive: intervals
    /// that merely touch at an endpoint count as overlapping.
    pub fn check_collision(&self, line: usize, start: i64, end: i64, level: i16) -> (r: bool)
        ensures
            r == occupied_at(
                self.ivals(line as int, slot_of(level as int)),
                norm_iv(start, end),
            ),
    {
        let li: i32 = level as i32;
        let slot_i: i32 = if li == 0 {
            0
        } else if li > 0 {
            2 * li - 1
        } else {
            let neg: i32 = -li;
            2 * neg
        };
        let slot = slot_i as usize;
        let (lo, hi) = if start <= end {
            (start, end)
        } else {
            (end, start)
        };
        self.occupied_slot(line, slot, lo, hi)
    }

    /// Insert a normalized interval at one line and slot, growing storage
    /// as needed; an interval with the same start replaces the old one.
    fn insert_at_slot(&mut self, line: usize, slot: usize, lo: i64, hi: i64)
        requires
            old(self).wf(),
            lo <= hi,
        ensures
            final(self).wf(),
            upserted(
                old(self).ivals(line as int, slot as int),
                final(self).ivals(line as int, slot as int),
                (lo, hi),
            ),
            forall|l2: int, s2: int|
                !(l2 == line as int && s2 == slot as int) ==> final(self).ivals(l2, s2) == old(
                    self,
                ).ivals(l2, s2),
    {
        while self.lines.len() <= line
            invariant
                old(self).wf(),
                forall|l2: int, s2: int| self.ivals(l2, s2) == old(self).ivals(l2, s2),
            decreases line + 1 - self.lines@.len(),
        {
            let ghost pre = *self;
            self.lines.push(Vec::new());
            proof {
                assert forall|l2: int, s2: int| self.ivals(l2, s2) == old(self).ivals(
                    l2,
                    s2,
                ) by {
                    if 0 <= l2 < pre.lines@.len() {
                        assert(self.lines@[l2] == pre.lines@[l2]);
                    }
                    assert(pre.ivals(l2, s2) == old(self).ivals(l2, s2));
                }
            }
        }
        while self.lines[line].len() <= slot
            invariant
                old(self).wf(),
                line < self.lines@.len(),
                forall|l2: int, s2: int| self.ivals(l2, s2) == old(self).ivals(l2, s2),
            decreases slot + 1 - self.lines@[line as int]@.len(),
        {
            let ghost pre = *self;
            let lv = &mut self.lines[line];
            lv.push(Vec::new());
            proof {
                assert forall|l2: int, s2: int| self.ivals(l2, s2) == old(self).ivals(
                    l2,
                    s2,
                ) by {
                    if l2 == line as int {
                        if 0 <= s2 < pre.lines@[l2]@.len() {
                            assert(self.lines@[l2]@[s2] == pre.lines@[l2]@[s2]);
                        }
                    } else if 0 <= l2 < pre.lines@.len() {
                        assert(self.lines@[l2] == pre.lines@[l2]);
                    }
                    assert(pre.ivals(l2, s2) == old(self).ivals(l2, s2));
                }
            }
        }
        let ghost grown = *self;
        let ghost olds = old(self).ivals(line as int, slot as int);
        proof {
            assert(grown.ivals(line as int, slot as int) == olds);
        }
        // find the insertion position: the first stored interval whose
        // start is at or after `lo`
        let n = self.lines[line][slot].len();
        let mut pos: usize = 0;
        while pos < n && self.lines[line][slot][pos].0 < lo
            invariant
                *self == grown,
                line < self.lines@.len(),
                (slot as int) < self.lines@[line as int]@.len(),
                n == olds.len(),
                olds == self.ivals(line as int, slot as int),
                0 <= pos <= n,
                forall|k: int| 0 <= k < pos ==> (#[trigger] olds[k]).0 < lo,
            decreases n - pos,
        {
            pos = pos + 1;
        }
        let ghost l = line as int;
        let ghost s = slot as int;
        if pos < n && self.lines[line][slot][pos].0 == lo {
            // same start: replace the stored interval
            let lv = &mut self.lines[line];
            let sv = &mut lv[slot];
            let el = &mut sv[pos];
            *el = (lo, hi);
            proof {
                let news = self.ivals(l, s);
                assert(news =~= olds.update(pos as int, (lo, hi)));
                Self::lemma_replace_keeps_sorted(olds, news, pos as int, (lo, hi), grown, l, s);
                self.lemma_other_slots(grown, l, s);
            }
        } else {
            // new start: insert, keeping the slot sorted
            let lv = &mut self.lines[line];
            let sv = &mut lv[slot];
            sv.insert(pos, (lo, hi));
            proof {
                let news = self.ivals(l, s);
                assert(news =~= olds.insert(pos as int, (lo, hi)));
                Self::lemma_insert_keeps_sorted(olds, news, pos as int, (lo, hi), grown, l, s);
                self.lemma_other_slots(grown, l, s);
            }
        }
    }

    /// Replacing the interval with equal start keeps the slot sorted and
    /// realizes the keyed-by-start update.
    proof fn lemma_replace_keeps_sorted(
        olds: Seq<(i64, i64)>,
        news: Seq<(i64, i64)>,
        pos: int,
        iv: (i64, i64),
        grown: LineCollisionManager,
        l: int,
        s: int,
    )
        requires
            grown.wf(),
            olds == grown.ivals(l, s),
            0 <= pos < olds.len(),
            olds[pos].0 == iv.0,
            iv.0 <= iv.1,
            news == olds.update(pos, iv),
        ensures
            forall|k: int| 0 <= k < news.len() ==> (#[trigger] news[k]).0 <= news[k].1,
            forall|k1: int, k2: int|
                0 <= k1 < k2 < news.len() ==> (#[trigger] news[k1]).0 < (#[trigger] news[k2]).0,
            upserted(olds, news, iv),
    {
        assert forall|p: (i64, i64)| #![trigger news.contains(p)] #![trigger olds.contains(p)]
            news.contains(p) <==> ((olds.contains(p) && p.0 != iv.0) || p == iv) by {
            if news.contains(p) {
                let k = choose|k: int| 0 <= k < news.len() && news[k] == p;
                if k == pos {
                    assert(p == iv);
                } else {
                    assert(olds[k] == p);
                    assert(olds.contains(p));
                    if k < pos {
                        assert(olds[k].0 < olds[pos].0);
                    } else {
                        assert(olds[pos].0 < olds[k].0);
                    }
                    assert(p.0 != iv.0);
                }
            }
            if olds.contains(p) && p.0 != iv.0 {
                let k = choose|k: int| 0 <= k < olds.len() && olds[k] == p;
                assert(k != pos);
                assert(news[k] == p);
                assert(news.contains(p));
            }
            if p == iv {
                assert(news[pos] == p);
                assert(news.contains(p));
            }
        }
    }

    /// Inserting at the scan position keeps the slot sorted and realizes
    /// the keyed-by-start update.
    proof fn lemma_insert_keeps_sorted(
        olds: Seq<(i64, i64)>,
        news: Seq<(i64, i64)>,
        pos: int,
        iv: (i64, i64),
        grown: LineCollisionManager,
        l: int,
        s: int,
    )
        requires
            grown.wf(),
            olds == grown.ivals(l, s),
            0 <= pos <= olds.len(),
            forall|k: int| 0 <= k < pos ==> (#[trigger] olds[k]).0 < iv.0,
            pos < olds.len() ==> olds[pos].0 > iv.0,
            iv.0 <= iv.1,
            news == olds.insert(pos, iv),
        ensures
            forall|k: int| 0 <= k < news.len() ==> (#[trigger] news[k]).0 <= news[k].1,
            forall|k1: int, k2: int|
                0 <= k1 < k2 < news.len() ==> (#[trigger] news[k1]).0 < (#[trigger] news[k2]).0,
            upserted(olds, news, iv),
    {
        assert forall|k1: int, k2: int|
            0 <= k1 < k2 < news.len() implies (#[trigger] news[k1]).0 < (#[trigger] news[k2]).0 by {
            if k1 < pos {
                assert(news[k1] == olds[k1]);
            } else if k1 == pos {
                assert(news[k1] == iv);
            } else {
                assert(news[k1] == olds[k1 - 1]);
            }
            if k2 < pos {
                assert(news[k2] == olds[k2]);
            } else if k2 == pos {
                assert(news[k2] == iv);
            } else {
                assert(news[k2] == olds[k2 - 1]);
            }
            if k1 < pos && pos < k2 {
                assert(olds[k1].0 < iv.0);
                if k2 - 1 >= pos {
                    if pos < olds.len() {
                        if k2 - 1 == pos {
                            assert(olds[k2 - 1].0 > iv.0);
                        } else {
                            assert(olds[pos].0 < olds[k2 - 1].0);
                        }
                    }
                }
            }
        }
        assert forall|k: int| 0 <= k < news.len() implies (#[trigger] news[k]).0 <= news[k].1 by {
            if k < pos {
                assert(news[k] == olds[k]);
            } else if k == pos {
            } else {
                assert(news[k] == olds[k - 1]);
            }
        }
        assert forall|p: (i64, i64)| #![trigger news.contains(p)] #![trigger olds.contains(p)]
            news.contains(p) <==> ((olds.contains(p) && p.0 != iv.0) || p == iv) by {
            if news.contains(p) {
                let k = choose|k: int| 0 <= k < news.len() && news[k] == p;
                if k == pos {
                    assert(p == iv);
                } else if k < pos {
                    assert(olds[k] == p);
                    assert(olds.contains(p));
                    assert(p.0 < iv.0);
                } else {
                    assert(olds[k - 1] == p);
                    assert(olds.contains(p));
                    assert(p.0 > iv.0);
                }
            }
            if olds.contains(p) && p.0 != iv.0 {
                let k = choose|k: int| 0 <= k < olds.len() && olds[k] == p;
                if k < pos {
                    assert(news[k] == p);
                } else {
                    assert(news[k + 1] == p);
                }
                assert(news.contains(p));
            }
            if p == iv {
                assert(news[pos] == p);
                assert(news.contains(p));
            }
        }
    }

    /// After an update at `(l, s)`, every other line and slot is unchanged
    /// and the whole manager is still well-formed (given the updated slot
    /// is sorted and normalized).
    proof fn lemma_other_slots(self, grown: LineCollisionManager, l: int, s: int)
        requires
            grown.wf(),
            0 <= l < grown.lines@.len(),
            0 <= s < grown.lines@[l]@.len(),
            0 <= l < self.lines@.len(),
            0 <= s < self.lines@[l]@.len(),
            self.lines@.len() == grown.lines@.len(),
            self.lines@ == grown.lines@.update(
                l,
                self.lines@[l],
            ),
            self.lines@[l]@ == grown.lines@[l]@.update(s, self.lines@[l]@[s]),
            forall|k: int|
                0 <= k < self.ivals(l, s).len() ==> (#[trigger] self.ivals(l, s)[k]).0 <= self.ivals(
                    l,
                    s,
                )[k].1,
            forall|k1: int, k2: int|
                0 <= k1 < k2 < self.ivals(l, s).len() ==> (#[trigger] self.ivals(l, s)[k1]).0 < (
                #[trigger] self.ivals(l, s)[k2]).0,
        ensures
            self.wf(),
            forall|l2: int, s2: int|
                !(l2 == l && s2 == s) ==> self.ivals(l2, s2) == grown.ivals(l2, s2),
    {
        assert(grown.lines@[l]@.len() == grown.lines@[l]@.update(s, self.lines@[l]@[s]).len());
        assert(grown.lines@[l]@.len() == self.lines@[l]@.len());
        assert forall|l2: int, s2: int|
            !(l2 == l && s2 == s) implies self.ivals(l2, s2) == grown.ivals(l2, s2) by {
            if l2 == l {
                if 0 <= s2 < self.lines@[l]@.len() {
                    assert(self.lines@[l]@[s2] == grown.lines@[l]@.update(
                        s,
                        self.lines@[l]@[s],
                    )[s2]);
                    assert(self.lines@[l]@[s2] == grown.lines@[l]@[s2]);
                }
            } else if 0 <= l2 < self.lines@.len() {
                assert(self.lines@[l2] == grown.lines@.update(l, self.lines@[l])[l2]);
                assert(self.lines@[l2] == grown.lines@[l2]);
            }
        }
        assert forall|line: int, slot: int|
            {
                let ivs = #[trigger] self.ivals(line, slot);
                &&& (forall|k: int| 0 <= k < ivs.len() ==> (#[trigger] ivs[k]).0 <= ivs[k].1)
                &&& (forall|k1: int, k2: int|
                    0 <= k1 < k2 < ivs.len() ==> (#[trigger] ivs[k1]).0 < (#[trigger] ivs[k2]).0)
            } by {
            if !(line == l && slot == s) {
                assert(self.ivals(line, slot) == grown.ivals(line, slot));
                let ivs = grown.ivals(line, slot);
                assert(forall|k: int| 0 <= k < ivs.len() ==> (#[trigger] ivs[k]).0 <= ivs[k].1);
            }
        }
    }

    /// Register a (not yet normalized) interval on one line at one stacking
    /// level.  Storage grows on demand; an interval with the same start
    /// replaces the stored one, as in a structure keyed by interval start.
    pub fn add_collision(&mut self, line: usize, start: i64, end: i64, level: i16)
        requires
            old(self).wf(),
        ensures
            final(self).wf(),
            upserted(
                old(self).ivals(line as int, slot_of(level as int)),
                final(self).ivals(line as int, slot_of(level as int)),
                norm_iv(start, end),
            ),
            forall|l2: int, s2: int|
                !(l2 == line as int && s2 == slot_of(level as int)) ==> final(self).ivals(l2, s2)
                    == old(self).ivals(l2, s2),
    {
        let li: i32 = level as i32;
        let slot_i: i32 = if li == 0 {
            0
        } else if li > 0 {
            2 * li - 1
        } else {
            let neg: i32 = -li;
            2 * neg
        };
        let slot = slot_i as usize;
        let (lo, hi) = if start <= end {
            (start, end)
        } else {
            (end, start)
        };
        self.insert_at_slot(line, slot, lo, hi);
    }
}


impl LineCollisionManager {
    /// Find a stacking level for a (not yet normalized) interval on one
    /// line and register it there.
    ///
    /// Storage slots are probed in order, i.e. levels in the order
    /// `0, +1, -1, +2, -2, ...`; the interval is registered at the first
    /// level whose stored intervals it does not overlap, and that level is
    /// returned.  When every level within `max_depth` probes is occupied
    /// the call fails with `StackingExhausted` and the manager is
    /// unchanged.
    pub fn resolve_collisions_impl(
        &mut self,
        line: usize,
        start: i64,
        end: i64,
        max_depth: i16,
    ) -> (r: Result<i16, CollisionError>)
        requires
            old(self).wf(),
        ensures
            final(self).wf(),
            ({
                let iv = norm_iv(start, end);
                match first_free_from(*old(self), line as int, iv, 0, max_depth as int) {
                    None => r == Err::<i16, CollisionError>(CollisionError::StackingExhausted)
                        && *final(self) == *old(self),
                    Some(s) => {
                        &&& r == Ok::<i16, CollisionError>(level_of(s) as i16)
                        &&& upserted(
                            old(self).ivals(line as int, s),
                            final(self).ivals(line as int, s),
                            iv,
                        )
                        &&& forall|l2: int, s2: int|
                            !(l2 == line as int && s2 == s) ==> final(self).ivals(l2, s2) == old(
                                self,
                            ).ivals(l2, s2)
                    },
                }
            }),
    {
        let ghost iv = norm_iv(start, end);
        let ghost d = max_depth as int;
        let (lo, hi) = if start <= end {
            (start, end)
        } else {
            (end, start)
        };
        if max_depth < 0 {
            return Err(CollisionError::StackingExhausted);
        }
        let md: i32 = max_depth as i32;
        let mut slot: i32 = 0;
        while slot <= md
            invariant
                *self == *old(self),
                self.wf(),
                iv == norm_iv(start, end),
                (lo, hi) == iv,
                lo <= hi,
                d == max_depth as int,
                md == max_depth as i32,
                0 <= md,
                0 <= slot <= md + 1,
                first_free_from(*old(self), line as int, iv, 0, d) == first_free_from(
                    *old(self),
                    line as int,
                    iv,
                    slot as int,
                    d,
                ),
            decreases md + 1 - slot,
        {
            if !self.occupied_slot(line, slot as usize, lo, hi) {
                proof {
                    assert(first_free_from(*old(self), line as int, iv, slot as int, d)
                        == Some(slot as int));
                }
                self.insert_at_slot(line, slot as usize, lo, hi);
                let lvl: i32 = if slot == 0 {
                    0
                } else if slot % 2 == 1 {
                    (slot + 1) / 2
                } else {
                    -(slot / 2)
                };
                proof {
                    assert(lvl as int == level_of(slot as int));
                    assert(-16384 <= lvl <= 16384);
                }
                return Ok(lvl as i16);
            }
            proof {
                assert(first_free_from(*old(self), line as int, iv, slot as int, d)
                    == first_free_from(*old(self), line as int, iv, slot as int + 1, d));
            }
            slot = slot + 1;
        }
        proof {
            assert(first_free_from(*old(self), line as int, iv, slot as int, d) is None);
        }
        Err(CollisionError::StackingExhausted)
    }

    /// Find a stacking level with the default depth cap and register the
    /// interval there.  This is the recommended entry point.
    pub fn resolve_collisions(&mut self, line: usize, start: i64, end: i64) -> (r: Result<
        i16,
        CollisionError,
    >)
        requires
            old(self).wf(),
        ensures
            final(self).wf(),
            ({
                let iv = norm_iv(start, end);
                match first_free_from(*old(self), line as int, iv, 0, DEFAULT_MAX_DEPTH as int) {
                    None => r == Err::<i16, CollisionError>(CollisionError::StackingExhausted)
                        && *final(self) == *old(self),
                    Some(s) => {
                        &&& r == Ok::<i16, CollisionError>(level_of(s) as i16)
                        &&& upserted(
                            old(self).ivals(line as int, s),
                            final(self).ivals(line as int, s),
                            iv,
                        )
                        &&& forall|l2: int, s2: int|
                            !(l2 == line as int && s2 == s) ==> final(self).ivals(l2, s2) == old(
                                self,
                            ).ivals(l2, s2)
                    },
                }
            }),
    {
        self.resolve_collisions_impl(line, start, end, DEFAULT_MAX_DEPTH)
    }
}

} // verus!

//! The frontier: discovered nodes that await expansion, cheapest first.

use vstd::prelude::*;

verus! {

/// A queued node: the cost estimated when it was discovered, and its index
/// in the graph store. The cost is never recomputed.
#[derive(Clone, Copy, Debug, PartialEq, Eq, Structural)]
pub struct PQEntry {
    pub distance: u128,
    pub idx: usize,
}

impl PQEntry {
    /// `self` leaves the frontier before `other`: it is cheaper, or as cheap
    /// and discovered later.
    pub open spec fn precedes(self, other: PQEntry) -> bool {
        self.distance < other.distance || (self.distance == other.distance && self.idx
            > other.idx)
    }

    /// Whether `self` leaves the frontier before `other`.
    pub fn comes_before(&self, other: &PQEntry) -> (before: bool)
        ensures
            before == self.precedes(*other),
    {
        self.distance < other.distance || (self.distance == other.distance && self.idx
            > other.idx)
    }
}

/// `precedes` is a strict total order: no entry precedes itself, of two
/// different entries exactly one precedes the other, and what precedes an
/// entry precedes all that the entry precedes.
pub proof fn lemma_precedes_is_total(a: PQEntry, b: PQEntry, c: PQEntry)
    ensures
        !a.precedes(a),
        a != b ==> (a.precedes(b) <==> !b.precedes(a)),
        a.precedes(b) && b.precedes(c) ==> a.precedes(c),
{
}

/// No entry of `q` stands behind one that it precedes.
pub open spec fn ordered(q: Seq<PQEntry>) -> bool {
    forall|i: int, j: int| 0 <= i < j < q.len() ==> !(#[trigger] q[j]).precedes(#[trigger] q[i])
}

/// Number of leading entries of `q` that precede `e`: the place where `e`
/// enters an ordered queue.
pub open spec fn rank(q: Seq<PQEntry>, e: PQEntry) -> int
    decreases q.len(),
{
    if q.len() == 0 || !q[0].precedes(e) {
        0
    } else {
        1 + rank(q.drop_first(), e)
    }
}

/// `rank` lies within the queue, every entry in front of it precedes `e`, and
/// in an ordered queue no entry from it on does.
pub proof fn lemma_rank(q: Seq<PQEntry>, e: PQEntry)
    ensures
        0 <= rank(q, e) <= q.len(),
        forall|i: int| 0 <= i < rank(q, e) ==> (#[trigger] q[i]).precedes(e),
        ordered(q) ==> forall|i: int| rank(q, e) <= i < q.len() ==> !(#[trigger] q[i]).precedes(e),
    decreases q.len(),
{
    if q.len() > 0 {
        let rest = q.drop_first();
        lemma_rank(rest, e);
        if q[0].precedes(e) {
            assert forall|i: int| 0 <= i < rank(q, e) implies (#[trigger] q[i]).precedes(e) by {
                if i > 0 {
                    assert(q[i] == rest[i - 1]);
                }
            }
            if ordered(q) {
                assert forall|i: int, j: int| 0 <= i < j < rest.len() implies !(
                #[trigger] rest[j]).precedes(#[trigger] rest[i]) by {
                    assert(rest[i] == q[i + 1] && rest[j] == q[j + 1]);
                }
                assert forall|i: int| rank(q, e) <= i < q.len() implies !(#[trigger] q[i]).precedes(
                    e,
                ) by {
                    assert(q[i] == rest[i - 1]);
                }
            }
        } else if ordered(q) {
            assert forall|i: int| 0 <= i < q.len() implies !(#[trigger] q[i]).precedes(e) by {
                if i > 0 {
                    assert(!q[i].precedes(q[0]));
                }
            }
        }
    }
}

/// An ordered queue stays ordered when `e` enters at its rank.
pub proof fn lemma_insert_keeps_order(q: Seq<PQEntry>, e: PQEntry)
    requires
        ordered(q),
    ensures
        ordered(q.insert(rank(q, e), e)),
{
    lemma_rank(q, e);
    let r = rank(q, e);
    let grown = q.insert(r, e);
    assert forall|i: int, j: int| 0 <= i < j < grown.len() implies !(#[trigger] grown[j]).precedes(
        #[trigger] grown[i],
    ) by {
        if j < r {
            assert(grown[i] == q[i] && grown[j] == q[j]);
        } else if j == r {
            assert(grown[i] == q[i]);
        } else if i < r {
            assert(grown[i] == q[i] && grown[j] == q[j - 1]);
        } else if i == r {
            assert(grown[j] == q[j - 1]);
        } else {
            assert(grown[i] == q[i - 1] && grown[j] == q[j - 1]);
        }
    }
}

/// The entry at the head of an ordered queue is preceded by none.
pub proof fn lemma_head_is_best(q: Seq<PQEntry>)
    requires
        ordered(q),
        q.len() > 0,
    ensures
        forall|i: int| 0 <= i < q.len() ==> !(#[trigger] q[i]).precedes(q[0]),
{
    assert forall|i: int| 0 <= i < q.len() implies !(#[trigger] q[i]).precedes(q[0]) by {
        if i > 0 {
            assert(!q[i].precedes(q[0]));
        }
    }
}

/// The queue of nodes that await expansion.
pub struct Frontier {
    entries: Vec<PQEntry>,
}

impl View for Frontier {
    type V = Seq<PQEntry>;

    /// The queued entries in the order in which they will leave.
    closed spec fn view(&self) -> Seq<PQEntry> {
        self.entries@.reverse()
    }
}

impl Frontier {
    /// The queue is ordered.
    pub open spec fn wf(&self) -> bool {
        ordered(self@)
    }

    /// An empty frontier.
    pub fn new() -> (frontier: Self)
        ensures
            frontier.wf(),
            frontier@ == Seq::<PQEntry>::empty(),
    {
        let frontier = Frontier { entries: Vec::new() };
        assert(frontier@ =~= Seq::<PQEntry>::empty());
        frontier
    }

    /// Number of queued entries.
    pub fn len(&self) -> (n: usize)
        ensures
            n == self@.len(),
    {
        self.entries.len()
    }

    /// Whether nothing is queued.
    pub fn is_empty(&self) -> (empty: bool)
        ensures
            empty == (self@.len() == 0),
    {
        self.entries.len() == 0
    }

    /// Queues `entry` behind the entries that precede it.
    pub fn insert(&mut self, entry: PQEntry)
        requires
            old(self).wf(),
        ensures
            final(self).wf(),
            final(self)@ == old(self)@.insert(rank(old(self)@, entry), entry),
    {
        let ghost before = self@;
        let total: usize = self.entries.len();
        let mut at: usize = total;
        assert(before.skip(0) =~= before);
        while at > 0 && self.entries[at - 1].comes_before(&entry)
            invariant
                at <= total == self.entries@.len(),
                before == self.entries@.reverse(),
                rank(before, entry) == (total - at) + rank(before.skip(total - at), entry),
            decreases at,
        {
            proof {
                let ahead = before.skip(total - at);
                assert(ahead[0] == self.entries@[at - 1]);
                assert(ahead.drop_first() =~= before.skip(total - at + 1));
            }
            at = at - 1;
        }
        proof {
            let ahead = before.skip(total - at);
            if at > 0 {
                assert(ahead[0] == self.entries@[at - 1]);
            }
            assert(rank(before, entry) == total - at);
            lemma_insert_keeps_order(before, entry);
        }
        self.entries.insert(at, entry);
        assert(self@ =~= before.insert(total - at, entry));
    }

    /// Removes and returns the head of the queue, if anything is queued: the
    /// entry that no queued entry precedes.
    pub fn pop_best(&mut self) -> (best: Option<PQEntry>)
        requires
            old(self).wf(),
        ensures
            final(self).wf(),
            old(self)@.len() == 0 ==> best is None && final(self)@ == old(self)@,
            old(self)@.len() > 0 ==> best == Some(old(self)@[0]) && final(self)@ == old(
                self,
            )@.drop_first(),
            forall|i: int| 0 <= i < old(self)@.len() ==> !(#[trigger] old(self)@[i]).precedes(best->0),
    {
        let ghost before = self@;
        let best = self.entries.pop();
        proof {
            if before.len() > 0 {
                lemma_head_is_best(before);
                assert(self@ =~= before.drop_first());
                assert forall|i: int, j: int| 0 <= i < j < self@.len() implies !(
                #[trigger] self@[j]).precedes(#[trigger] self@[i]) by {
                    assert(self@[i] == before[i + 1] && self@[j] == before[j + 1]);
                }
            }
        }
        best
    }

    /// The entry that `pop_best` would return, left in place.
    pub fn peek_best(&self) -> (best: Option<PQEntry>)
        ensures
            self@.len() == 0 ==> best is None,
            self@.len() > 0 ==> best == Some(self@[0]),
    {
        let total: usize = self.entries.len();
        if total == 0 {
            None
        } else {
            Some(self.entries[total - 1])
        }
    }

    /// The first `n` entries in leaving order, or all of them if fewer are
    /// queued; nothing is removed.
    pub fn peek_best_n(&self, n: usize) -> (best: Vec<PQEntry>)
        ensures
            best@ == self@.take(if n <= self@.len() { n as int } else { self@.len() as int }),
    {
        let total: usize = self.entries.len();
        let count: usize = if n <= total { n } else { total };
        let mut best: Vec<PQEntry> = Vec::new();
        let mut i: usize = 0;
        while i < count
            invariant
                i <= count <= total == self.entries@.len(),
                best@ == self@.take(i as int),
            decreases count - i,
        {
            best.push(self.entries[total - 1 - i]);
            assert(best@ =~= self@.take(i + 1));
            i = i + 1;
        }
        best
    }
}

} // verus!

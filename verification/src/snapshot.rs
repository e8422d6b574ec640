//! The snapshot that a layout step takes of the positions: one entry per
//! node, ordered by position, so that forces are summed in an order that
//! does not depend on how the nodes are stored.

use crate::graph::Graph;
use vstd::prelude::*;

verus! {

/// A node's position at the time of the snapshot.
#[derive(Clone, Copy, Debug)]
pub struct Sample {
    /// Horizontal position, in millionths.
    pub x: i64,
    /// Vertical position, in millionths.
    pub y: i64,
    /// Index of the node among the nodes of the graph.
    pub node: usize,
}

/// The mathematical content of a [`Sample`].
pub struct Placed {
    pub x: int,
    pub y: int,
    pub node: int,
}

impl View for Sample {
    type V = Placed;

    open spec fn view(&self) -> Placed {
        Placed { x: self.x as int, y: self.y as int, node: self.node as int }
    }
}

impl Placed {
    /// The position as a pair.
    pub open spec fn position(self) -> (int, int) {
        (self.x, self.y)
    }

    /// Whether this entry stands before `other` in the snapshot: its `x` is
    /// smaller, or the `x` are equal and its `y` is smaller.
    pub open spec fn before(self, other: Placed) -> bool {
        self.x < other.x || (self.x == other.x && self.y < other.y)
    }
}

/// The contents of a list of samples.
pub open spec fn placed(samples: Seq<Sample>) -> Seq<Placed> {
    Seq::new(samples.len(), |k: int| samples[k]@)
}

/// The sequence `sorted` with `entry` put in behind the last element that
/// does not stand after it.
pub open spec fn inserted(sorted: Seq<Placed>, entry: Placed) -> Seq<Placed>
    decreases sorted.len(),
{
    if sorted.len() == 0 || !entry.before(sorted.last()) {
        sorted.push(entry)
    } else {
        inserted(sorted.drop_last(), entry).push(sorted.last())
    }
}

/// The snapshot of a list of positions: the entries `(x, y, index)` in the
/// order of their positions.
pub open spec fn snapshot_of(positions: Seq<(int, int)>) -> Seq<Placed>
    decreases positions.len(),
{
    if positions.len() == 0 {
        Seq::empty()
    } else {
        inserted(
            snapshot_of(positions.drop_last()),
            Placed { x: positions.last().0, y: positions.last().1, node: positions.len() - 1 },
        )
    }
}

/// No entry stands before an earlier one.
pub open spec fn ordered(entries: Seq<Placed>) -> bool {
    forall|i: int, j: int| 0 <= i < j < entries.len() ==> !entries[j].before(entries[i])
}

/// Whether one of the entries is that of the node `i`.
pub open spec fn has_entry(entries: Seq<Placed>, i: int) -> bool {
    exists|k: int| 0 <= k < entries.len() && (#[trigger] entries[k]).node == i
}

/// The entries are those of `positions`: each carries the position of its
/// node, and each node has exactly one entry.
pub open spec fn lists(entries: Seq<Placed>, positions: Seq<(int, int)>) -> bool {
    &&& entries.len() == positions.len()
    &&& forall|k: int|
        0 <= k < entries.len() ==> 0 <= (#[trigger] entries[k]).node < positions.len()
            && entries[k].position() == positions[entries[k].node]
    &&& forall|k: int, l: int|
        0 <= k < l < entries.len() ==> entries[k].node != entries[l].node
    &&& forall|i: int| 0 <= i < positions.len() ==> #[trigger] has_entry(entries, i)
}

/// No two positions are the same.
pub open spec fn distinct(positions: Seq<(int, int)>) -> bool {
    forall|i: int, j: int| 0 <= i < j < positions.len() ==> positions[i] != positions[j]
}

/// Two neighbours in the sequence have the same position.
pub open spec fn has_twins(entries: Seq<Placed>) -> bool {
    exists|k: int|
        0 <= k < entries.len() - 1 && (#[trigger] entries[k]).position() == entries[k
            + 1].position()
}

/// Where `inserted` puts an entry: at the place `at` if everything from `at`
/// on stands after the entry and the element in front of `at` does not.
pub proof fn lemma_inserted_at(sorted: Seq<Placed>, entry: Placed, at: int)
    requires
        0 <= at <= sorted.len(),
        at > 0 ==> !entry.before(sorted[at - 1]),
        forall|k: int| at <= k < sorted.len() ==> entry.before(#[trigger] sorted[k]),
    ensures
        inserted(sorted, entry) == sorted.insert(at, entry),
    decreases sorted.len() - at,
{
    if at == sorted.len() {
        assert(sorted.insert(at, entry) =~= sorted.push(entry));
    } else {
        assert(entry.before(sorted.last()));
        lemma_inserted_at(sorted.drop_last(), entry, at);
        assert(sorted.drop_last().insert(at, entry).push(sorted.last()) =~= sorted.insert(
            at,
            entry,
        ));
    }
}

/// `inserted` puts the entry at some place and keeps the others in order.
pub proof fn lemma_inserted_place(sorted: Seq<Placed>, entry: Placed) -> (at: int)
    ensures
        0 <= at <= sorted.len(),
        inserted(sorted, entry) == sorted.insert(at, entry),
        at > 0 ==> !entry.before(sorted[at - 1]),
        forall|k: int| at <= k < sorted.len() ==> entry.before(#[trigger] sorted[k]),
    decreases sorted.len(),
{
    if sorted.len() == 0 || !entry.before(sorted.last()) {
        assert(sorted.insert(sorted.len() as int, entry) =~= sorted.push(entry));
        sorted.len() as int
    } else {
        let at = lemma_inserted_place(sorted.drop_last(), entry);
        assert(sorted.drop_last().insert(at, entry).push(sorted.last()) =~= sorted.insert(
            at,
            entry,
        ));
        assert forall|k: int| at <= k < sorted.len() implies entry.before(
            #[trigger] sorted[k],
        ) by {
            if k < sorted.len() - 1 {
                assert(sorted.drop_last()[k] == sorted[k]);
            }
        }
        if at > 0 {
            assert(sorted.drop_last()[at - 1] == sorted[at - 1]);
        }
        at
    }
}

/// A snapshot is ordered by position and lists every node once.
pub proof fn lemma_snapshot(positions: Seq<(int, int)>)
    ensures
        ordered(snapshot_of(positions)),
        lists(snapshot_of(positions), positions),
    decreases positions.len(),
{
    if positions.len() > 0 {
        let shorter = positions.drop_last();
        lemma_snapshot(shorter);
        let prev = snapshot_of(shorter);
        let n = positions.len() - 1;
        let entry = Placed { x: positions.last().0, y: positions.last().1, node: n };
        let at = lemma_inserted_place(prev, entry);
        let next = snapshot_of(positions);
        assert(next == prev.insert(at, entry));
        assert forall|i: int, j: int| 0 <= i < j < next.len() implies !next[j].before(
            next[i],
        ) by {
            if i < at && j > at {
                assert(!prev[j - 1].before(prev[i]));
            } else if i < at && j < at {
                assert(!prev[j].before(prev[i]));
            } else if i > at {
                assert(!prev[j - 1].before(prev[i - 1]));
            } else if i == at {
                assert(entry.before(prev[j - 1]));
            } else {
                if i < at - 1 {
                    assert(!prev[at - 1].before(prev[i]));
                }
            }
        }
        assert forall|k: int| 0 <= k < next.len() implies 0 <= (#[trigger] next[k]).node
            < positions.len() && next[k].position() == positions[next[k].node] by {
            if k < at {
                assert(next[k] == prev[k]);
                assert(shorter[prev[k].node] == positions[prev[k].node]);
            } else if k > at {
                assert(next[k] == prev[k - 1]);
                assert(shorter[prev[k - 1].node] == positions[prev[k - 1].node]);
            }
        }
        assert forall|k: int, l: int| 0 <= k < l < next.len() implies next[k].node
            != next[l].node by {
            let pk = if k < at {
                k
            } else {
                k - 1
            };
            let pl = if l < at {
                l
            } else {
                l - 1
            };
            if k != at && l != at {
                assert(prev[pk].node != prev[pl].node);
            } else if k == at {
                assert(prev[pl].node < n);
            } else {
                assert(prev[pk].node < n);
            }
        }
        assert forall|i: int| 0 <= i < positions.len() implies #[trigger] has_entry(next, i) by {
            if i == n {
                assert(next[at].node == i);
            } else {
                assert(has_entry(prev, i));
                let k = choose|k: int| 0 <= k < prev.len() && (#[trigger] prev[k]).node == i;
                if k < at {
                    assert(next[k].node == i);
                } else {
                    assert(next[k + 1].node == i);
                }
            }
        }
    }
}

/// Two neighbours of an ordered listing coincide exactly if two of the
/// positions do.
pub proof fn lemma_twins(entries: Seq<Placed>, positions: Seq<(int, int)>)
    requires
        ordered(entries),
        lists(entries, positions),
    ensures
        has_twins(entries) <==> !distinct(positions),
{
    if has_twins(entries) {
        let k = choose|k: int|
            0 <= k < entries.len() - 1 && (#[trigger] entries[k]).position() == entries[k
                + 1].position();
        let a = entries[k].node;
        let b = entries[k + 1].node;
        assert(a != b);
        assert(positions[a] == positions[b]);
        if a < b {
            assert(!distinct(positions));
        } else {
            assert(!distinct(positions));
        }
    }
    if !distinct(positions) {
        let (i, j) = choose|i: int, j: int|
            0 <= i < j < positions.len() && positions[i] == positions[j];
        assert(has_entry(entries, i) && has_entry(entries, j));
        let k = choose|k: int| 0 <= k < entries.len() && (#[trigger] entries[k]).node == i;
        let l = choose|l: int| 0 <= l < entries.len() && (#[trigger] entries[l]).node == j;
        assert(entries[k].position() == entries[l].position());
        let lo = if k < l {
            k
        } else {
            l
        };
        let hi = if k < l {
            l
        } else {
            k
        };
        assert(lo < hi);
        if lo + 1 < hi {
            assert(!entries[lo + 1].before(entries[lo]));
            assert(!entries[hi].before(entries[lo + 1]));
        }
        assert(entries[lo].position() == entries[lo + 1].position());
    }
}

/// Whether `a` stands before `b` in a snapshot.
fn stands_before(a: &Sample, b: &Sample) -> (r: bool)
    ensures
        r == a@.before(b@),
{
    a.x < b.x || (a.x == b.x && a.y < b.y)
}

/// Whether two neighbours in a snapshot have the same position.
pub fn coincide(samples: &Vec<Sample>) -> (r: bool)
    ensures
        r == has_twins(placed(samples@)),
{
    let ghost entries = placed(samples@);
    let mut k: usize = 1;
    while k < samples.len()
        invariant
            1 <= k,
            entries == placed(samples@),
            forall|j: int|
                0 <= j < k - 1 ==> (#[trigger] entries[j]).position() != entries[j + 1].position(),
        decreases samples.len() - k,
    {
        if samples[k - 1].x == samples[k].x && samples[k - 1].y == samples[k].y {
            assert(entries[k - 1].position() == entries[k - 1 + 1].position());
            return true;
        }
        assert(entries[k - 1].position() != entries[k - 1 + 1].position());
        k += 1;
    }
    false
}

impl Graph {
    /// Takes the snapshot of the positions.
    pub fn snapshot(&self) -> (samples: Vec<Sample>)
        ensures
            placed(samples@) == snapshot_of(self@.positions()),
            samples.len() == self.nodes.len(),
    {
        let mut samples: Vec<Sample> = Vec::new();
        let mut i: usize = 0;
        let ghost positions = self@.positions();
        assert(positions.take(0) =~= Seq::empty());
        assert(placed(samples@) =~= Seq::empty());
        while i < self.nodes.len()
            invariant
                i <= self.nodes.len(),
                positions == self@.positions(),
                placed(samples@) == snapshot_of(positions.take(i as int)),
                samples.len() == i,
            decreases self.nodes.len() - i,
        {
            let entry = Sample { x: self.nodes[i].x, y: self.nodes[i].y, node: i };
            let ghost sorted = placed(samples@);
            let mut at: usize = samples.len();
            while at > 0 && stands_before(&entry, &samples[at - 1])
                invariant
                    at <= samples.len(),
                    sorted == placed(samples@),
                    forall|k: int| at <= k < sorted.len() ==> entry@.before(#[trigger] sorted[k]),
                decreases at,
            {
                at -= 1;
                assert(sorted[at as int] == samples[at as int]@);
            }
            proof {
                if at > 0 {
                    assert(sorted[at - 1] == samples[at - 1]@);
                }
                lemma_inserted_at(sorted, entry@, at as int);
                let next = positions.take(i + 1);
                assert(next.drop_last() =~= positions.take(i as int));
                assert(next.last() == positions[i as int]);
            }
            samples.insert(at, entry);
            assert(placed(samples@) =~= sorted.insert(at as int, entry@));
            i += 1;
        }
        assert(positions.take(i as int) =~= positions);
        samples
    }
}

} // verus!

//! Positions of the agents tagged as dynamic obstacles, snapshotted for one
//! rebuild window. Answers radius queries and nearest-neighbor queries, and
//! doubles as the registry that resolves an agent id to its position.

use vstd::prelude::*;
use crate::vec2::{Vec2, MAX_COORD, boundedp, len2p, subp};

verus! {

/// Most entries a spatial index may hold, so that force sums stay in range.
pub const MAX_AGENTS: usize = 1_000_000;

/// One indexed agent: a stable identifier and its position.
#[derive(Clone, Copy, Debug, PartialEq, Eq, Structural)]
pub struct Neighbor {
    /// Stable agent identifier.
    pub id: u64,
    /// Position at snapshot time, in milli-units.
    pub pos: Vec2,
}

/// A snapshot of agent positions, queryable by id, radius, or nearness.
pub struct SpatialIndex {
    entries: Vec<Neighbor>,
}

impl View for SpatialIndex {
    type V = Seq<Neighbor>;

    closed spec fn view(&self) -> Seq<Neighbor> {
        self.entries@
    }
}

/// The entry lies within distance `r` of `p` (compared on squared lengths).
pub open spec fn within_radius(e: Neighbor, p: (int, int), r: int) -> bool {
    len2p(subp(e.pos@, p)) <= r * r
}

/// The entries of `s` within distance `r` of `p`, in index order.
pub open spec fn filtered(s: Seq<Neighbor>, p: (int, int), r: int) -> Seq<Neighbor>
    decreases s.len(),
{
    if s.len() == 0 {
        Seq::empty()
    } else {
        let rest = filtered(s.drop_last(), p, r);
        if within_radius(s.last(), p, r) {
            rest.push(s.last())
        } else {
            rest
        }
    }
}

/// The position of the first entry carrying `id`, scanning forward.
pub open spec fn lookup(s: Seq<Neighbor>, id: u64) -> Option<Vec2>
    decreases s.len(),
{
    if s.len() == 0 {
        None
    } else if s[0].id == id {
        Some(s[0].pos)
    } else {
        lookup(s.drop_first(), id)
    }
}

/// The entry other than `self_id` nearest to `p`; ties keep the earliest.
pub open spec fn nearest_other_spec(s: Seq<Neighbor>, p: (int, int), self_id: u64)
    -> Option<Neighbor>
    decreases s.len(),
{
    if s.len() == 0 {
        None
    } else {
        let prev = nearest_other_spec(s.drop_last(), p, self_id);
        let e = s.last();
        if e.id == self_id {
            prev
        } else {
            match prev {
                None => Some(e),
                Some(b) => if len2p(subp(e.pos@, p)) < len2p(subp(b.pos@, p)) {
                    Some(e)
                } else {
                    Some(b)
                },
            }
        }
    }
}

impl SpatialIndex {
    /// Every stored position is in world bounds and the index is not overfull.
    pub open spec fn wf(&self) -> bool {
        &&& self@.len() <= MAX_AGENTS as int
        &&& forall|i: int| 0 <= i < self@.len()
            ==> boundedp(#[trigger] self@[i].pos@, MAX_COORD as int)
    }

    /// An empty snapshot.
    pub fn new() -> (r: SpatialIndex)
        ensures
            r@ == Seq::<Neighbor>::empty(),
            r.wf(),
    {
        SpatialIndex { entries: Vec::new() }
    }

    /// Number of entries.
    pub fn len(&self) -> (r: usize)
        ensures
            r == self@.len(),
    {
        self.entries.len()
    }

    /// Record one agent's position in the snapshot.
    pub fn insert(&mut self, id: u64, pos: Vec2)
        requires
            old(self).wf(),
            old(self)@.len() < MAX_AGENTS,
            boundedp(pos@, MAX_COORD as int),
        ensures
            final(self)@ == old(self)@.push(Neighbor { id, pos }),
            final(self).wf(),
    {
        self.entries.push(Neighbor { id, pos });
    }

    /// Position of the first entry carrying `id`, if any.
    pub fn get(&self, id: u64) -> (r: Option<Vec2>)
        ensures
            r == lookup(self@, id),
    {
        let ghost s = self@;
        let mut i: usize = 0;
        proof {
            assert(s.skip(0) =~= s);
        }
        while i < self.entries.len()
            invariant
                0 <= i <= s.len(),
                s == self@,
                lookup(s, id) == lookup(s.skip(i as int), id),
            decreases s.len() - i,
        {
            let e = self.entries[i];
            proof {
                assert(s.skip(i as int)[0] == s[i as int]);
            }
            if e.id == id {
                return Some(e.pos);
            }
            proof {
                assert(s.skip(i as int).drop_first() =~= s.skip(i as int + 1));
            }
            i = i + 1;
        }
        proof {
            assert(s.skip(s.len() as int).len() == 0);
        }
        None
    }

    /// All entries within `radius` of `p`, in index order.
    pub fn within_distance(&self, p: Vec2, radius: i64) -> (r: Vec<Neighbor>)
        requires
            self.wf(),
            boundedp(p@, 1_050_000_000),
            0 <= radius <= 3_000_000_000,
        ensures
            r@ == filtered(self@, p@, radius as int),
    {
        let ghost s = self@;
        let mut out: Vec<Neighbor> = Vec::new();
        let mut i: usize = 0;
        proof {
            assert(s.take(0) =~= Seq::<Neighbor>::empty());
        }
        proof {
            assert(radius * radius <= 9_000_000_000_000_000_000 && radius * radius >= 0)
                by (nonlinear_arith)
                requires 0 <= radius <= 3_000_000_000;
        }
        let r2 = radius * radius;
        while i < self.entries.len()
            invariant
                0 <= i <= s.len(),
                s == self@,
                self.wf(),
                r2 == radius * radius,
                0 <= radius <= 3_000_000_000,
                boundedp(p@, 1_050_000_000),
                out@ == filtered(s.take(i as int), p@, radius as int),
            decreases s.len() - i,
        {
            let e = self.entries[i];
            proof {
                assert(boundedp(s[i as int].pos@, MAX_COORD as int));
            }
            let d2 = e.pos.minus(p).len2();
            proof {
                assert(s.take(i as int + 1).drop_last() =~= s.take(i as int));
                assert(s.take(i as int + 1).last() == s[i as int]);
            }
            if d2 <= r2 {
                out.push(e);
            }
            i = i + 1;
        }
        proof {
            assert(s.take(s.len() as int) =~= s);
        }
        out
    }

    /// The entry other than `self_id` nearest to `p`; ties keep the earliest.
    pub fn nearest_other(&self, p: Vec2, self_id: u64) -> (r: Option<Neighbor>)
        requires
            self.wf(),
            boundedp(p@, 1_050_000_000),
        ensures
            r == nearest_other_spec(self@, p@, self_id),
    {
        let ghost s = self@;
        let mut best: Option<Neighbor> = None;
        let mut best_d2: i64 = 0;
        let mut i: usize = 0;
        proof {
            assert(s.take(0) =~= Seq::<Neighbor>::empty());
        }
        while i < self.entries.len()
            invariant
                0 <= i <= s.len(),
                s == self@,
                self.wf(),
                boundedp(p@, 1_050_000_000),
                best == nearest_other_spec(s.take(i as int), p@, self_id),
                match best {
                    None => true,
                    Some(b) => best_d2 == len2p(subp(b.pos@, p@)),
                },
            decreases s.len() - i,
        {
            let e = self.entries[i];
            proof {
                assert(s.take(i as int + 1).drop_last() =~= s.take(i as int));
                assert(s.take(i as int + 1).last() == s[i as int]);
            }
            if e.id != self_id {
                proof {
                    assert(boundedp(s[i as int].pos@, MAX_COORD as int));
                }
                let d2 = e.pos.minus(p).len2();
                match best {
                    None => {
                        best = Some(e);
                        best_d2 = d2;
                    },
                    Some(_) => {
                        if d2 < best_d2 {
                            best = Some(e);
                            best_d2 = d2;
                        }
                    },
                }
            }
            i = i + 1;
        }
        proof {
            assert(s.take(s.len() as int) =~= s);
        }
        best
    }
}

} // verus!

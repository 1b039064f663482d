//! The navigation-mesh provider: one queryable mesh per clearance radius,
//! selected by the smallest clearance that covers a request, with corridor
//! queries answered by the `navmesh` crate.
//!
//! Mesh coordinates use the same milli-unit convention as the rest of the
//! crate: a mesh is built from vertices given in milli-unit counts, and the
//! corridor points come back as milli-unit counts.

use vstd::prelude::*;
use navmesh::{NavPathMode, NavQuery, NavVec3};
use crate::vec2::{Vec2, MAX_COORD, boundedp};
use crate::motion::{lemma_wf_corridor_views, points_in_world, views, wf_corridor};

verus! {

#[verifier::external_type_specification]
#[verifier::external_body]
pub struct ExNavMesh(navmesh::NavMesh);

/// Quality of querying a point on the mesh.
#[derive(Clone, Copy, Debug, PartialEq, Eq, Structural)]
pub enum QueryQuality {
    /// Best quality, totally accurate.
    Accuracy,
    /// Medium quality: the closest triangle.
    Closest,
    /// Low quality: the first triangle in range.
    ClosestFirst,
}

/// Quality of finding a path.
#[derive(Clone, Copy, Debug, PartialEq, Eq, Structural)]
pub enum PathQuality {
    /// Best quality: the shortest path.
    Accuracy,
    /// Medium quality: a path through triangle midpoints.
    MidPoints,
}

/// One mesh variant and the clearance radius (milli-units) it was built for.
pub struct MeshEntry {
    /// Clearance radius this mesh variant supports.
    pub clearance: u64,
    /// The queryable mesh.
    pub mesh: navmesh::NavMesh,
}

/// The mesh variants of one map, sorted by strictly increasing clearance.
pub struct Navmeshes {
    entries: Vec<MeshEntry>,
}

/// How many leading entries have a clearance below `c` (with a sorted
/// sequence: the index where `c` fits).
pub open spec fn lower_idx(s: Seq<MeshEntry>, c: u64) -> int
    decreases s.len(),
{
    if s.len() == 0 {
        0
    } else if s[0].clearance < c {
        1 + lower_idx(s.drop_first(), c)
    } else {
        0
    }
}

/// Clearances are strictly increasing.
pub open spec fn sorted_by_clearance(s: Seq<MeshEntry>) -> bool {
    forall|i: int, j: int| 0 <= i < j < s.len()
        ==> #[trigger] s[i].clearance < #[trigger] s[j].clearance
}

/// Some entry supports clearance `c`.
pub open spec fn has_fit(s: Seq<MeshEntry>, c: u64) -> bool {
    exists|i: int| 0 <= i < s.len() && #[trigger] s[i].clearance >= c
}

/// `lower_idx` splits a sorted sequence: everything before it is below `c`,
/// and the entry at it (when there is one) is the first fit.
pub proof fn lemma_lower_idx(s: Seq<MeshEntry>, c: u64)
    requires
        sorted_by_clearance(s),
    ensures
        0 <= lower_idx(s, c) <= s.len(),
        forall|j: int| 0 <= j < lower_idx(s, c) ==> #[trigger] s[j].clearance < c,
        lower_idx(s, c) < s.len() ==> s[lower_idx(s, c)].clearance >= c,
        (lower_idx(s, c) < s.len()) == has_fit(s, c),
    decreases s.len(),
{
    if s.len() == 0 {
    } else {
        let rest = s.drop_first();
        assert(forall|i: int, j: int| 0 <= i < j < rest.len()
            ==> #[trigger] rest[i].clearance < #[trigger] rest[j].clearance);
        lemma_lower_idx(rest, c);
        let k = lower_idx(s, c);
        if s[0].clearance < c {
            assert(k == 1 + lower_idx(rest, c));
            assert forall|j: int| 1 <= j < k implies #[trigger] s[j].clearance < c by {
                assert(rest[j - 1] == s[j]);
            }
            if k < s.len() {
                assert(s[k] == rest[k - 1]);
            }
            if has_fit(s, c) {
                let w = choose|i: int| 0 <= i < s.len() && #[trigger] s[i].clearance >= c;
                assert(w >= 1);
                assert(rest[w - 1].clearance >= c);
                assert(has_fit(rest, c));
            }
            if has_fit(rest, c) {
                let w = choose|i: int| 0 <= i < rest.len()
                    && #[trigger] rest[i].clearance >= c;
                assert(s[w + 1].clearance >= c);
            }
        } else {
            assert(k == 0);
        }
    }
}

impl Navmeshes {
    /// The stored entries, in clearance order.
    pub closed spec fn view(&self) -> Seq<MeshEntry> {
        self.entries@
    }

    /// The clearance order is strictly increasing.
    pub open spec fn wf(&self) -> bool {
        sorted_by_clearance(self@)
    }

    /// No mesh variants yet.
    pub fn new() -> (r: Navmeshes)
        ensures
            r@ == Seq::<MeshEntry>::empty(),
            r.wf(),
    {
        Navmeshes { entries: Vec::new() }
    }

    /// Add a mesh variant for `clearance`; an existing variant with the same
    /// clearance is replaced.
    pub fn insert(&mut self, clearance: u64, mesh: navmesh::NavMesh)
        requires
            old(self).wf(),
        ensures
            final(self).wf(),
            ({
                let k = lower_idx(old(self)@, clearance);
                if k < old(self)@.len() && old(self)@[k].clearance == clearance {
                    final(self)@ =~= old(self)@.update(k,
                        MeshEntry { clearance, mesh })
                } else {
                    final(self)@ =~= old(self)@.insert(k,
                        MeshEntry { clearance, mesh })
                }
            }),
    {
        proof {
            lemma_lower_idx(self@, clearance);
        }
        let ghost s0 = self@;
        let mut k: usize = 0;
        while k < self.entries.len() && self.entries[k].clearance < clearance
            invariant
                s0 == self@,
                0 <= k <= s0.len(),
                forall|j: int| 0 <= j < k ==> #[trigger] s0[j].clearance < clearance,
                k > 0 ==> k - 1 < s0.len() && s0[k - 1].clearance < clearance,
            decreases s0.len() - k,
        {
            k = k + 1;
        }
        proof {
            lemma_lower_idx(s0, clearance);
            assert(k == lower_idx(s0, clearance)) by {
                let l = lower_idx(s0, clearance);
                if k < l {
                    assert(s0[k as int].clearance < clearance);
                }
                if l < k {
                    assert(s0[l].clearance < clearance);
                }
            }
        }
        if k < self.entries.len() && self.entries[k].clearance == clearance {
            let _ = self.entries.remove(k);
            self.entries.insert(k, MeshEntry { clearance, mesh });
            proof {
                assert(s0.remove(k as int).insert(k as int,
                    MeshEntry { clearance, mesh }) =~= s0.update(k as int,
                    MeshEntry { clearance, mesh }));
                assert(forall|i: int, j: int| 0 <= i < j < s0.len()
                    ==> #[trigger] s0.update(k as int, MeshEntry { clearance, mesh })[i]
                        .clearance
                    < #[trigger] s0.update(k as int, MeshEntry { clearance, mesh })[j]
                        .clearance);
            }
        } else {
            self.entries.insert(k, MeshEntry { clearance, mesh });
            proof {
                lemma_insert_keeps_sorted(s0, k as int, MeshEntry { clearance, mesh });
            }
        }
    }

    /// The mesh variant with the smallest clearance of at least `radius`, or
    /// `None` when no variant supports that clearance.
    pub fn mesh(&self, radius: u64) -> (r: Option<&navmesh::NavMesh>)
        requires
            self.wf(),
        ensures
            ({
                let k = lower_idx(self@, radius);
                match r {
                    Some(m) => k < self@.len() && *m == self@[k].mesh
                        && self@[k].clearance >= radius,
                    None => !has_fit(self@, radius),
                }
            }),
            r is Some <==> has_fit(self@, radius),
    {
        proof {
            lemma_lower_idx(self@, radius);
        }
        let ghost s0 = self@;
        let mut k: usize = 0;
        while k < self.entries.len() && self.entries[k].clearance < radius
            invariant
                s0 == self@,
                0 <= k <= s0.len(),
                forall|j: int| 0 <= j < k ==> #[trigger] s0[j].clearance < radius,
            decreases s0.len() - k,
        {
            k = k + 1;
        }
        proof {
            assert(k == lower_idx(s0, radius)) by {
                let l = lower_idx(s0, radius);
                if k < l {
                    assert(s0[k as int].clearance < radius);
                }
                if l < k {
                    assert(s0[l].clearance < radius);
                }
            }
        }
        if k < self.entries.len() {
            Some(&self.entries[k].mesh)
        } else {
            None
        }
    }
}

/// Inserting at the split point keeps the clearance order strict, when the
/// clearance is new.
proof fn lemma_insert_keeps_sorted(s: Seq<MeshEntry>, k: int, e: MeshEntry)
    requires
        sorted_by_clearance(s),
        0 <= k <= s.len(),
        forall|j: int| 0 <= j < k ==> #[trigger] s[j].clearance < e.clearance,
        k < s.len() ==> s[k].clearance > e.clearance,
    ensures
        sorted_by_clearance(s.insert(k, e)),
{
    let t = s.insert(k, e);
    assert forall|i: int, j: int| 0 <= i < j < t.len()
        implies #[trigger] t[i].clearance < #[trigger] t[j].clearance by {
        if i < k {
            assert(t[i] == s[i]);
        } else if i == k {
            assert(t[i] == e);
        } else {
            assert(t[i] == s[i - 1]);
        }
        if j < k {
            assert(t[j] == s[j]);
        } else if j == k {
            assert(t[j] == e);
        } else {
            assert(t[j] == s[j - 1]);
        }
    }
}

/// What `navmesh::NavMesh::find_path` answers for a mesh and a query, as
/// milli-unit points: `None` when the mesh holds no path. The answer is a
/// function of the mesh value and the arguments alone (a spatial lookup and a
/// shortest-path search over the mesh's own data; no randomness, time or
/// environment).
pub uninterp spec fn path_of(
    m: navmesh::NavMesh,
    from: (int, int),
    to: (int, int),
    query: QueryQuality,
    path_mode: PathQuality,
) -> Option<Seq<(int, int)>>;

/// Relies on `navmesh::NavMesh::find_path`: across the given mesh, find a
/// corridor of points from `from` to `to` at the requested query and path
/// quality, or `None` when no path exists. Coordinates cross the boundary as
/// the mesh's single-precision scalars: counts are exact up to 2^24
/// milli-units in magnitude and rounded beyond that, and the corridor comes
/// back truncated to whole counts; `path_of` names the answer after both
/// conversions.
#[verifier::external_body]
pub(crate) fn mesh_find_path(
    mesh: &navmesh::NavMesh,
    from: Vec2,
    to: Vec2,
    query: QueryQuality,
    path_mode: PathQuality,
) -> (r: Option<Vec<Vec2>>)
    ensures
        (r is Some) == (path_of(*mesh, from@, to@, query, path_mode) is Some),
        r matches Some(p)
            ==> Some(views(p@)) == path_of(*mesh, from@, to@, query, path_mode),
{
    let q = match query {
        QueryQuality::Accuracy => NavQuery::Accuracy,
        QueryQuality::Closest => NavQuery::Closest,
        QueryQuality::ClosestFirst => NavQuery::ClosestFirst,
    };
    let m = match path_mode {
        PathQuality::Accuracy => NavPathMode::Accuracy,
        PathQuality::MidPoints => NavPathMode::MidPoints,
    };
    let (mut f, mut t) = (NavVec3::default(), NavVec3::default());
    f.x = from.x as _; f.y = from.y as _;
    t.x = to.x as _; t.y = to.y as _;
    mesh.find_path(f, t, q, m)
        .map(|p| p.into_iter().map(|v| Vec2 { x: v.x as i64, y: v.y as i64 }).collect())
}

/// Every waypoint of `v` lies within the world coordinate bound.
pub fn corridor_in_bounds(v: &Vec<Vec2>) -> (r: bool)
    ensures
        r == wf_corridor(v@),
        r == points_in_world(views(v@)),
{
    proof {
        lemma_wf_corridor_views(v@);
    }
    let mut i: usize = 0;
    while i < v.len()
        invariant
            0 <= i <= v@.len(),
            forall|j: int| 0 <= j < i ==> boundedp(#[trigger] v@[j]@, MAX_COORD as int),
        decreases v@.len() - i,
    {
        let w = v[i];
        if w.x > MAX_COORD || w.x < -MAX_COORD || w.y > MAX_COORD || w.y < -MAX_COORD {
            proof {
                assert(!boundedp(v@[i as int]@, MAX_COORD as int));
                assert(!wf_corridor(v@));
                lemma_wf_corridor_views(v@);
            }
            return false;
        }
        i = i + 1;
    }
    true
}

} // verus!

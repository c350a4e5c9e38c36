use vstd::prelude::*;
use vstd::arithmetic::div_mod::{
    lemma_div_is_ordered, lemma_div_nonincreasing, lemma_div_pos_is_pos, lemma_fundamental_div_mod,
    lemma_fundamental_div_mod_converse, lemma_div_plus_one,
};
use std::collections::HashMap;
use crate::closest::{
    is_closest_pair, is_pair_in, lemma_exists_closest_index_pair, lemma_pairs_from_index_bound,
    lemma_seq_pair_in_multiset,
};
use crate::geometry::{all_valid, sq_dist, valid_point, Distance, Point, PointPair, MAX_ABS_COORD};

verus! {

// ---------------------------------------------------------------------------
// Randomness, through the crate the sieve relies on.
// ---------------------------------------------------------------------------

#[verifier::external_type_specification]
#[verifier::external_body]
pub struct ExStdRng(rand::rngs::StdRng);

/// Relies on rand's `SeedableRng::seed_from_u64` to build the deterministic
/// generator the sieve samples from. Nothing is promised of its state.
#[verifier::external_body]
fn rng_from_seed(seed: u64) -> (r: rand::rngs::StdRng) {
    <rand::rngs::StdRng as rand::SeedableRng>::seed_from_u64(seed)
}

/// Relies on rand's `Rng::gen_range`: on the nonempty range `0..bound` the
/// sample lies in the range. Which index comes back depends on the
/// generator's state; the contract promises membership and nothing more.
#[verifier::external_body]
fn rand_below(rng: &mut rand::rngs::StdRng, bound: usize) -> (r: usize)
    requires
        bound > 0,
    ensures
        r < bound,
{
    rand::Rng::gen_range(rng, 0..bound)
}

// ---------------------------------------------------------------------------
// Integer geometry for the grid: square roots and floor division.
// ---------------------------------------------------------------------------

/// The integer square root, by bisection.
fn isqrt(n: u64) -> (r: u64)
    ensures
        r * r <= n,
        n < (r + 1) * (r + 1),
        r < 0x1_0000_0000,
{
    let mut lo: u64 = 0;
    let mut hi: u64 = 0x1_0000_0000;
    proof {
        assert((0x1_0000_0000 as int) * (0x1_0000_0000 as int) == 0x1_0000_0000_0000_0000);
    }
    while lo + 1 < hi
        invariant
            lo < hi <= 0x1_0000_0000,
            (lo as int) * (lo as int) <= n,
            (n as int) < (hi as int) * (hi as int),
        decreases hi - lo,
    {
        let mid = lo + (hi - lo) / 2;
        proof {
            assert((mid as int) * (mid as int) <= 0x1_0000_0000_0000_0000) by (nonlinear_arith)
                requires
                    0 <= mid as int <= 0x1_0000_0000,
            ;
        }
        if (mid as u128) * (mid as u128) <= n as u128 {
            lo = mid;
        } else {
            hi = mid;
        }
    }
    lo
}

/// The cell index along one axis: the coordinate divided by the cell size,
/// rounded towards negative infinity.
pub open spec fn cell_of(v: int, size: int) -> int {
    v / size
}

/// The grid key packing both cell indices into one number.
pub open spec fn cell_key_int(cx: int, cy: int) -> int {
    (cx + 0x8000_0000) * 0x1_0000_0000 + (cy + 0x8000_0000)
}

/// The key of the cell that a point falls in at the given cell size.
pub open spec fn point_key(p: Point, size: int) -> int {
    cell_key_int(cell_of(p.x as int, size), cell_of(p.y as int, size))
}

/// Two keys of in-range cells agree only on the same cell.
proof fn lemma_key_injective(cx1: int, cy1: int, cx2: int, cy2: int)
    requires
        -0x4000_0001 <= cx1 <= 0x4000_0001,
        -0x4000_0001 <= cy1 <= 0x4000_0001,
        -0x4000_0001 <= cx2 <= 0x4000_0001,
        -0x4000_0001 <= cy2 <= 0x4000_0001,
        cell_key_int(cx1, cy1) == cell_key_int(cx2, cy2),
    ensures
        cx1 == cx2,
        cy1 == cy2,
{
}

/// Floor division of a bounded coordinate by the cell size.
fn cell_coord(v: i64, size: i64) -> (c: i64)
    requires
        1 <= size <= 0x1_0000_0000,
        -MAX_ABS_COORD <= v <= MAX_ABS_COORD,
    ensures
        c as int == cell_of(v as int, size as int),
        -MAX_ABS_COORD <= c <= MAX_ABS_COORD,
{
    if v >= 0 {
        let q = (v as u64) / (size as u64);
        proof {
            lemma_div_pos_is_pos(v as int, size as int);
            lemma_div_nonincreasing(v as int, size as int);
        }
        q as i64
    } else {
        let m = (0i64 - v) as u64;
        let d = size as u64;
        let q = (m + d - 1) / d;
        proof {
            lemma_fundamental_div_mod(m as int + d as int - 1, d as int);
            let r = (m as int + d as int - 1) % (d as int);
            assert(m as int + d as int - 1 == (d as int) * (q as int) + r);
            assert(q as int * (d as int) >= m as int) by (nonlinear_arith)
                requires
                    (m as int + d as int - 1) == (d as int) * (q as int) + r,
                    0 <= r < d as int,
                    d as int >= 1,
            ;
            assert(q as int * (d as int) <= m as int + d as int - 1) by (nonlinear_arith)
                requires
                    (m as int + d as int - 1) == (d as int) * (q as int) + r,
                    0 <= r < d as int,
            ;
            assert(q as int <= m as int) by (nonlinear_arith)
                requires
                    q as int * (d as int) <= m as int + d as int - 1,
                    d as int >= 1,
                    m as int >= 0,
                    q as int >= 0,
            ;
            let rr = (q as int) * (d as int) - m as int;
            assert(0 <= rr < d as int);
            assert(v as int == (-(q as int)) * (d as int) + rr) by (nonlinear_arith)
                requires
                    v as int == -(m as int),
                    rr == (q as int) * (d as int) - m as int,
            ;
            lemma_fundamental_div_mod_converse(v as int, d as int, -(q as int), rr);
        }
        0i64 - (q as i64)
    }
}

/// The cell index of an in-range coordinate is itself in range.
proof fn lemma_cell_bounds(v: int, size: int)
    requires
        size >= 1,
        -0x4000_0000 <= v <= 0x4000_0000,
    ensures
        -0x4000_0000 <= cell_of(v, size) <= 0x4000_0000,
{
    lemma_fundamental_div_mod(v, size);
    let q = v / size;
    let r = v % size;
    assert(-0x4000_0000 <= q <= 0x4000_0000) by (nonlinear_arith)
        requires
            v == size * q + r,
            0 <= r < size,
            size >= 1,
            -0x4000_0000 <= v <= 0x4000_0000,
    ;
}

/// A single cell of the mesh, indexed by its position along the `x` and `y`
/// axis.
#[derive(Copy, Clone, Debug, PartialEq, Eq, Structural)]
pub struct MeshPoint {
    pub xth: i64,
    pub yth: i64,
}

/// The packed grid key of a cell.
fn key_for_cell(mp: MeshPoint) -> (k: u64)
    requires
        -MAX_ABS_COORD - 1 <= mp.xth <= MAX_ABS_COORD + 1,
        -MAX_ABS_COORD - 1 <= mp.yth <= MAX_ABS_COORD + 1,
    ensures
        k as int == cell_key_int(mp.xth as int, mp.yth as int),
{
    ((mp.xth + 0x8000_0000i64) as u64) * 0x1_0000_0000u64 + ((mp.yth + 0x8000_0000i64) as u64)
}

/// An offset reaching one of the 3-by-3 block of cells.
pub open spec fn adjacent_offset(dx: int, dy: int) -> bool {
    -1 <= dx <= 1 && -1 <= dy <= 1
}

/// `q` lies in the 3-by-3 block of cells around `p`'s cell.
pub open spec fn in_neighbourhood(p: Point, q: Point, size: int) -> bool {
    &&& -1 <= cell_of(q.x as int, size) - cell_of(p.x as int, size) <= 1
    &&& -1 <= cell_of(q.y as int, size) - cell_of(p.y as int, size) <= 1
}

/// Whether a point had any neighbour.
pub enum PointsInNeighbour {
    /// Yes
    Yes,
    /// No (it was alone)
    No,
}

/// A collection of cells with a defined edge-to-edge size.
///
/// Internally, this is a HashMap from the packed x and y cell index to the
/// bucket of points falling in that cell. When a point is added, it lands in
/// the bucket its coordinates select. Each point carries the caller's
/// identifier, so that coincident points stay distinguishable.
pub struct Mesh {
    size: i64,
    mesh: HashMap<u64, Vec<(Point, usize)>>,
    ids: Ghost<Map<usize, Point>>,
}

impl Mesh {
    /// The points currently in the mesh, keyed by the caller's identifier.
    pub closed spec fn contents(self) -> Map<usize, Point> {
        self.ids@
    }

    /// The cell size the mesh was built with.
    pub closed spec fn spec_size(self) -> int {
        self.size as int
    }

    /// Every bucket entry sits in the cell its coordinates select, and the
    /// buckets hold exactly the identified points.
    pub closed spec fn wf(self) -> bool {
        &&& 1 <= self.size <= 0x1_0000_0000
        &&& forall|key: u64, t: int|
            #![trigger self.mesh@[key]@[t]]
            self.mesh@.contains_key(key) && 0 <= t < self.mesh@[key]@.len() ==> {
                let e = self.mesh@[key]@[t];
                &&& self.ids@.contains_key(e.1)
                &&& self.ids@[e.1] == e.0
                &&& valid_point(e.0)
                &&& key as int == point_key(e.0, self.size as int)
            }
        &&& forall|id: usize|
            #[trigger] self.ids@.contains_key(id) ==> {
                let p = self.ids@[id];
                &&& valid_point(p)
                &&& self.mesh@.contains_key(point_key(p, self.size as int) as u64)
                &&& point_key(p, self.size as int) == point_key(p, self.size as int) as u64 as int
                &&& exists|t: int|
                    0 <= t < self.mesh@[point_key(p, self.size as int) as u64]@.len()
                        && #[trigger] self.mesh@[point_key(p, self.size as int) as u64]@[t] == (
                        p,
                        id,
                    )
            }
    }

    /// Create a new mesh with a specified size.
    pub fn new(size: i64) -> (r: Self)
        requires
            1 <= size <= 0x1_0000_0000,
        ensures
            r.wf(),
            r.spec_size() == size,
            r.contents() == Map::<usize, Point>::empty(),
    {
        Self { size, mesh: HashMap::new(), ids: Ghost(Map::empty()) }
    }

    /// Returns the cell a point belongs to.
    fn get_meshpoint_of_point(&self, point: Point) -> (mp: MeshPoint)
        requires
            self.wf(),
            valid_point(point),
        ensures
            mp.xth as int == cell_of(point.x as int, self.spec_size()),
            mp.yth as int == cell_of(point.y as int, self.spec_size()),
            -MAX_ABS_COORD <= mp.xth <= MAX_ABS_COORD,
            -MAX_ABS_COORD <= mp.yth <= MAX_ABS_COORD,
    {
        MeshPoint {
            xth: cell_coord(point.x, self.size),
            yth: cell_coord(point.y, self.size),
        }
    }

    /// Add a point to the mesh, but do not check if the point has any
    /// neighbours. The identifier must be fresh.
    #[verifier::rlimit(50)]
    pub fn add_point_unchecked(&mut self, point: Point, id: usize)
        requires
            old(self).wf(),
            valid_point(point),
            !old(self).contents().contains_key(id),
        ensures
            final(self).wf(),
            final(self).spec_size() == old(self).spec_size(),
            final(self).contents() == old(self).contents().insert(id, point),
    {
        let mp = self.get_meshpoint_of_point(point);
        let key = key_for_cell(mp);
        let ghost old_map = self.mesh@;
        let bucket_opt = self.mesh.remove(&key);
        let mut bucket = match bucket_opt {
            Some(b) => b,
            None => Vec::new(),
        };
        let ghost old_bucket = bucket@;
        bucket.push((point, id));
        let ghost new_bucket_view = bucket@;
        self.mesh.insert(key, bucket);
        self.ids = Ghost(self.ids@.insert(id, point));
        proof {
            let size = self.size as int;
            assert(self.mesh@.contains_key(key));
            assert(self.mesh@[key]@ == new_bucket_view);
            assert(new_bucket_view == old_bucket.push((point, id)));
            assert(forall|k2: u64|
                k2 != key && old_map.contains_key(k2) ==> self.mesh@.contains_key(k2)
                    && self.mesh@[k2] == old_map[k2]);
            assert(forall|k2: u64| k2 != key && self.mesh@.contains_key(k2) ==> old_map.contains_key(k2));
            // the bucket before the push held what the old mesh had at `key`
            assert(old_bucket == if old_map.contains_key(key) {
                old_map[key]@
            } else {
                Seq::<(Point, usize)>::empty()
            });
            assert(key as int == point_key(point, size));
            // the fresh identifier is not among the old entries
            assert forall|k2: u64, t: int|
                #![trigger self.mesh@[k2]@[t]]
                self.mesh@.contains_key(k2) && 0 <= t < self.mesh@[k2]@.len() implies {
                let e = self.mesh@[k2]@[t];
                &&& self.ids@.contains_key(e.1)
                &&& self.ids@[e.1] == e.0
                &&& valid_point(e.0)
                &&& k2 as int == point_key(e.0, size)
            } by {
                let e = self.mesh@[k2]@[t];
                if k2 == key {
                    if t < old_bucket.len() {
                        assert(e == old_bucket[t]);
                        if old_map.contains_key(key) {
                            assert(e == old_map[key]@[t]);
                            assert(old(self).ids@.contains_key(e.1));
                        }
                    } else {
                        assert(e == (point, id));
                    }
                } else {
                    assert(self.mesh@[k2] == old_map[k2]);
                    assert(old_map.contains_key(k2));
                    assert(old(self).ids@.contains_key(e.1));
                }
            }
            assert forall|id2: usize| #[trigger] self.ids@.contains_key(id2) implies {
                let p = self.ids@[id2];
                &&& valid_point(p)
                &&& self.mesh@.contains_key(point_key(p, size) as u64)
                &&& point_key(p, size) == point_key(p, size) as u64 as int
                &&& exists|t: int|
                    0 <= t < self.mesh@[point_key(p, size) as u64]@.len()
                        && #[trigger] self.mesh@[point_key(p, size) as u64]@[t] == (p, id2)
            } by {
                let p = self.ids@[id2];
                if id2 == id {
                    assert(p == point);
                    assert(point_key(p, size) as u64 == key);
                    assert(self.mesh@.contains_key(key));
                    assert(self.mesh@[key]@[old_bucket.len() as int] == (point, id));
                } else {
                    assert(old(self).ids@.contains_key(id2));
                    assert(p == old(self).ids@[id2]);
                    let pk = point_key(p, size) as u64;
                    let t0 = choose|t: int|
                        0 <= t < old_map[pk]@.len() && old_map[pk]@[t] == (p, id2);
                    if pk == key {
                        assert(old_map.contains_key(key));
                        assert(self.mesh@[key]@[t0] == (p, id2));
                    } else {
                        assert(self.mesh@[pk] == old_map[pk]);
                        assert(self.mesh@[pk]@[t0] == (p, id2));
                    }
                }
            }
        }
    }

    /// A point of the mesh lies in one of the cells of the 3-by-3 block
    /// around the given cell.
    pub open spec fn has_neighbour_of_cell(self, cx: int, cy: int) -> bool {
        exists|id: usize|
            #[trigger] self.contents().contains_key(id) && -1 <= cell_of(
                self.contents()[id].x as int,
                self.spec_size(),
            ) - cx <= 1 && -1 <= cell_of(self.contents()[id].y as int, self.spec_size()) - cy <= 1
    }

    /// The 3-by-3 block of cells around a point, by its cell indices.
    pub open spec fn has_neighbour_of_point(self, p: Point) -> bool {
        self.has_neighbour_of_cell(
            cell_of(p.x as int, self.spec_size()),
            cell_of(p.y as int, self.spec_size()),
        )
    }

    /// Returns the cells neighbouring a cell, the cell itself included.
    fn get_neighbours_of_mesh(&self, meshpoint: MeshPoint) -> (r: Vec<MeshPoint>)
        requires
            -MAX_ABS_COORD <= meshpoint.xth <= MAX_ABS_COORD,
            -MAX_ABS_COORD <= meshpoint.yth <= MAX_ABS_COORD,
        ensures
            r@.len() == 9,
            forall|t: int|
                0 <= t < 9 ==> -1 <= (#[trigger] r@[t]).xth - meshpoint.xth <= 1 && -1 <= r@[t].yth
                    - meshpoint.yth <= 1,
            forall|dx: int, dy: int|
                #[trigger] adjacent_offset(dx, dy) ==> exists|t: int|
                    #![trigger r@[t]]
                    0 <= t < 9 && r@[t].xth == meshpoint.xth + dx && r@[t].yth == meshpoint.yth
                        + dy,
    {
        let cx = meshpoint.xth;
        let cy = meshpoint.yth;
        let mut r: Vec<MeshPoint> = Vec::new();
        r.push(MeshPoint { xth: cx - 1, yth: cy + 1 });
        r.push(MeshPoint { xth: cx, yth: cy + 1 });
        r.push(MeshPoint { xth: cx + 1, yth: cy + 1 });
        r.push(MeshPoint { xth: cx - 1, yth: cy });
        r.push(MeshPoint { xth: cx, yth: cy });
        r.push(MeshPoint { xth: cx + 1, yth: cy });
        r.push(MeshPoint { xth: cx - 1, yth: cy - 1 });
        r.push(MeshPoint { xth: cx, yth: cy - 1 });
        r.push(MeshPoint { xth: cx + 1, yth: cy - 1 });
        proof {
            assert forall|dx: int, dy: int| #[trigger] adjacent_offset(dx, dy) implies exists|t: int|
                #![trigger r@[t]]
                0 <= t < 9 && r@[t].xth == meshpoint.xth + dx && r@[t].yth == meshpoint.yth
                    + dy by {
                if dy == 1 {
                    if dx == -1 {
                        assert(r@[0].xth == meshpoint.xth + dx && r@[0].yth == meshpoint.yth + dy);
                    } else if dx == 0 {
                        assert(r@[1].xth == meshpoint.xth + dx && r@[1].yth == meshpoint.yth + dy);
                    } else {
                        assert(r@[2].xth == meshpoint.xth + dx && r@[2].yth == meshpoint.yth + dy);
                    }
                } else if dy == 0 {
                    if dx == -1 {
                        assert(r@[3].xth == meshpoint.xth + dx && r@[3].yth == meshpoint.yth + dy);
                    } else if dx == 0 {
                        assert(r@[4].xth == meshpoint.xth + dx && r@[4].yth == meshpoint.yth + dy);
                    } else {
                        assert(r@[5].xth == meshpoint.xth + dx && r@[5].yth == meshpoint.yth + dy);
                    }
                } else {
                    if dx == -1 {
                        assert(r@[6].xth == meshpoint.xth + dx && r@[6].yth == meshpoint.yth + dy);
                    } else if dx == 0 {
                        assert(r@[7].xth == meshpoint.xth + dx && r@[7].yth == meshpoint.yth + dy);
                    } else {
                        assert(r@[8].xth == meshpoint.xth + dx && r@[8].yth == meshpoint.yth + dy);
                    }
                }
            }
        }
        r
    }

    /// Checks whether a neighbourhood is populated, given a single cell.
    fn neighbour_is_populated(&self, point_mp: MeshPoint) -> (r: PointsInNeighbour)
        requires
            self.wf(),
            -MAX_ABS_COORD <= point_mp.xth <= MAX_ABS_COORD,
            -MAX_ABS_COORD <= point_mp.yth <= MAX_ABS_COORD,
        ensures
            (r is Yes) <==> self.has_neighbour_of_cell(point_mp.xth as int, point_mp.yth as int),
    {
        let ncells = self.get_neighbours_of_mesh(point_mp);
        let mut t: usize = 0;
        let mut found = false;
        while t < 9
            invariant
                t <= 9,
                self.wf(),
                ncells@.len() == 9,
                -MAX_ABS_COORD <= point_mp.xth <= MAX_ABS_COORD,
                -MAX_ABS_COORD <= point_mp.yth <= MAX_ABS_COORD,
                forall|u: int|
                    0 <= u < 9 ==> -1 <= (#[trigger] ncells@[u]).xth - point_mp.xth <= 1 && -1
                        <= ncells@[u].yth - point_mp.yth <= 1,
                found ==> self.has_neighbour_of_cell(point_mp.xth as int, point_mp.yth as int),
                !found ==> forall|id: usize, u: int|
                    #![trigger self.contents().contains_key(id), ncells@[u]]
                    self.contents().contains_key(id) && 0 <= u < t ==> !(cell_of(
                        self.contents()[id].x as int,
                        self.spec_size(),
                    ) == ncells@[u].xth as int && cell_of(
                        self.contents()[id].y as int,
                        self.spec_size(),
                    ) == ncells@[u].yth as int),
            decreases 9 - t,
        {
            let cellt = ncells[t];
            let key = key_for_cell(cellt);
            let mut nonempty = false;
            match self.mesh.get(&key) {
                Some(bucket) => {
                    if bucket.len() > 0 {
                        nonempty = true;
                        proof {
                            let e = bucket@[0];
                            assert(self.mesh@.contains_key(key) && 0 < self.mesh@[key]@.len());
                            assert(self.mesh@[key]@[0] == e);
                            assert(self.contents().contains_key(e.1));
                            assert(key as int == point_key(e.0, self.spec_size()));
                            lemma_cell_bounds(e.0.x as int, self.spec_size());
                            lemma_cell_bounds(e.0.y as int, self.spec_size());
                            lemma_key_injective(
                                cell_of(e.0.x as int, self.spec_size()),
                                cell_of(e.0.y as int, self.spec_size()),
                                cellt.xth as int,
                                cellt.yth as int,
                            );
                        }
                    }
                },
                None => {},
            }
            if nonempty {
                found = true;
            } else {
                proof {
                    assert forall|id: usize|
                        #[trigger] self.contents().contains_key(id) implies !(cell_of(
                        self.contents()[id].x as int,
                        self.spec_size(),
                    ) == cellt.xth as int && cell_of(
                        self.contents()[id].y as int,
                        self.spec_size(),
                    ) == cellt.yth as int) by {
                        let p = self.contents()[id];
                        if cell_of(p.x as int, self.spec_size()) == cellt.xth as int && cell_of(
                            p.y as int,
                            self.spec_size(),
                        ) == cellt.yth as int {
                            assert(point_key(p, self.spec_size()) == key as int);
                            assert(self.mesh@.contains_key(key));
                            let w = choose|w: int|
                                0 <= w < self.mesh@[key]@.len() && #[trigger] self.mesh@[key]@[w]
                                    == (p, id);
                            assert(self.mesh@[key]@.len() > 0);
                            assert(false);
                        }
                    }
                }
            }
            t += 1;
        }
        proof {
            if !found {
                if self.has_neighbour_of_cell(point_mp.xth as int, point_mp.yth as int) {
                    let id = choose|id: usize|
                        #[trigger] self.contents().contains_key(id) && -1 <= cell_of(
                            self.contents()[id].x as int,
                            self.spec_size(),
                        ) - point_mp.xth <= 1 && -1 <= cell_of(
                            self.contents()[id].y as int,
                            self.spec_size(),
                        ) - point_mp.yth <= 1;
                    let dx = cell_of(self.contents()[id].x as int, self.spec_size())
                        - point_mp.xth as int;
                    let dy = cell_of(self.contents()[id].y as int, self.spec_size())
                        - point_mp.yth as int;
                    assert(adjacent_offset(dx, dy));
                    let u = choose|u: int|
                        #![trigger ncells@[u]]
                        0 <= u < 9 && ncells@[u].xth == point_mp.xth + dx && ncells@[u].yth
                            == point_mp.yth + dy;
                    assert(false);
                }
            }
        }
        if found {
            PointsInNeighbour::Yes
        } else {
            PointsInNeighbour::No
        }
    }

    /// Finds the closest companion of the point within its neighbourhood:
    /// the 3-by-3 block of cells around the point's own cell. The point's
    /// own identifier is passed alongside and skipped, so that a coincident
    /// companion still counts.
    /// # Returns
    /// Function returns `None` if it is the only point in its neighbourhood.
    pub fn closest_pair_to_point_in_neighbour(&self, point: Point, id: usize) -> (r: Option<
        PointPair,
    >)
        requires
            self.wf(),
            valid_point(point),
        ensures
            match r {
                Some(pair) => {
                    &&& pair.0 == point
                    &&& valid_point(pair.1)
                    &&& in_neighbourhood(point, pair.1, self.spec_size())
                    &&& exists|id2: usize|
                        #[trigger] self.contents().contains_key(id2) && id2 != id
                            && self.contents()[id2] == pair.1
                    &&& forall|id2: usize|
                        #[trigger] self.contents().contains_key(id2) && id2 != id
                            && in_neighbourhood(point, self.contents()[id2], self.spec_size())
                            ==> sq_dist(point, self.contents()[id2]) >= sq_dist(point, pair.1)
                },
                None => forall|id2: usize|
                    #[trigger] self.contents().contains_key(id2) && id2 != id
                        ==> !in_neighbourhood(point, self.contents()[id2], self.spec_size()),
            },
    {
        let point_mp = self.get_meshpoint_of_point(point);
        let ncells = self.get_neighbours_of_mesh(point_mp);
        let mut best: Option<Point> = None;
        let mut best_d: u64 = 0;
        let mut t: usize = 0;
        while t < 9
            invariant
                t <= 9,
                self.wf(),
                valid_point(point),
                ncells@.len() == 9,
                point_mp.xth as int == cell_of(point.x as int, self.spec_size()),
                point_mp.yth as int == cell_of(point.y as int, self.spec_size()),
                -MAX_ABS_COORD <= point_mp.xth <= MAX_ABS_COORD,
                -MAX_ABS_COORD <= point_mp.yth <= MAX_ABS_COORD,
                forall|u: int|
                    0 <= u < 9 ==> -1 <= (#[trigger] ncells@[u]).xth - point_mp.xth <= 1 && -1
                        <= ncells@[u].yth - point_mp.yth <= 1,
                forall|dx: int, dy: int|
                    #[trigger] adjacent_offset(dx, dy) ==> exists|u: int|
                        #![trigger ncells@[u]]
                        0 <= u < 9 && ncells@[u].xth == point_mp.xth + dx && ncells@[u].yth
                            == point_mp.yth + dy,
                match best {
                    Some(q) => {
                        &&& valid_point(q)
                        &&& best_d == sq_dist(point, q)
                        &&& in_neighbourhood(point, q, self.spec_size())
                        &&& exists|id2: usize|
                            #[trigger] self.contents().contains_key(id2) && id2 != id
                                && self.contents()[id2] == q
                    },
                    None => true,
                },
                forall|id2: usize, u: int|
                    #![trigger self.contents().contains_key(id2), ncells@[u]]
                    self.contents().contains_key(id2) && id2 != id && 0 <= u < t && cell_of(
                        self.contents()[id2].x as int,
                        self.spec_size(),
                    ) == ncells@[u].xth as int && cell_of(
                        self.contents()[id2].y as int,
                        self.spec_size(),
                    ) == ncells@[u].yth as int ==> best is Some && best_d <= sq_dist(
                        point,
                        self.contents()[id2],
                    ),
            decreases 9 - t,
        {
            let cellt = ncells[t];
            let key = key_for_cell(cellt);
            match self.mesh.get(&key) {
                Some(bucket) => {
                    let blen = bucket.len();
                    let mut u: usize = 0;
                    while u < blen
                        invariant
                            u <= blen,
                            t < 9,
                            self.wf(),
                            valid_point(point),
                            ncells@.len() == 9,
                            self.mesh@.contains_key(key),
                            bucket@ == self.mesh@[key]@,
                            blen == bucket@.len(),
                            cellt == ncells@[t as int],
                            key as int == cell_key_int(cellt.xth as int, cellt.yth as int),
                            point_mp.xth as int == cell_of(point.x as int, self.spec_size()),
                            point_mp.yth as int == cell_of(point.y as int, self.spec_size()),
                            -MAX_ABS_COORD <= point_mp.xth <= MAX_ABS_COORD,
                            -MAX_ABS_COORD <= point_mp.yth <= MAX_ABS_COORD,
                            -1 <= cellt.xth - point_mp.xth <= 1,
                            -1 <= cellt.yth - point_mp.yth <= 1,
                            match best {
                                Some(q) => {
                                    &&& valid_point(q)
                                    &&& best_d == sq_dist(point, q)
                                    &&& in_neighbourhood(point, q, self.spec_size())
                                    &&& exists|id2: usize|
                                        #[trigger] self.contents().contains_key(id2) && id2 != id
                                            && self.contents()[id2] == q
                                },
                                None => true,
                            },
                            forall|id2: usize, u2: int|
                                #![trigger self.contents().contains_key(id2), ncells@[u2]]
                                self.contents().contains_key(id2) && id2 != id && 0 <= u2 < t
                                    && cell_of(self.contents()[id2].x as int, self.spec_size())
                                    == ncells@[u2].xth as int && cell_of(
                                    self.contents()[id2].y as int,
                                    self.spec_size(),
                                ) == ncells@[u2].yth as int ==> best is Some && best_d <= sq_dist(
                                    point,
                                    self.contents()[id2],
                                ),
                            forall|id2: usize, w: int|
                                #![trigger self.contents().contains_key(id2), bucket@[w]]
                                self.contents().contains_key(id2) && id2 != id && 0 <= w < u
                                    && bucket@[w] == (self.contents()[id2], id2) ==> best is Some
                                    && best_d <= sq_dist(point, self.contents()[id2]),
                        decreases blen - u,
                    {
                        let e = bucket[u];
                        proof {
                            assert(self.mesh@[key]@[u as int] == e);
                            assert(self.contents().contains_key(e.1));
                            assert(self.contents()[e.1] == e.0);
                            assert(valid_point(e.0));
                            // the entry's cell is the bucket's cell, which
                            // neighbours the point's own cell
                            assert(key as int == point_key(e.0, self.spec_size()));
                            lemma_cell_bounds(e.0.x as int, self.spec_size());
                            lemma_cell_bounds(e.0.y as int, self.spec_size());
                            lemma_key_injective(
                                cell_of(e.0.x as int, self.spec_size()),
                                cell_of(e.0.y as int, self.spec_size()),
                                cellt.xth as int,
                                cellt.yth as int,
                            );
                            assert(in_neighbourhood(point, e.0, self.spec_size()));
                        }
                        if e.1 != id {
                            let d = point.distance_to(e.0);
                            let better = match best {
                                Some(_) => d.0 < best_d,
                                None => true,
                            };
                            if better {
                                best = Some(e.0);
                                best_d = d.0;
                            }
                        }
                        u += 1;
                    }
                    proof {
                        let size = self.spec_size();
                        assert forall|id2: usize|
                            #[trigger] self.contents().contains_key(id2) && id2 != id && cell_of(
                            self.contents()[id2].x as int,
                            size,
                        ) == cellt.xth as int && cell_of(self.contents()[id2].y as int, size)
                            == cellt.yth as int implies best is Some && best_d <= sq_dist(
                            point,
                            self.contents()[id2],
                        ) by {
                            let p2 = self.contents()[id2];
                            assert(point_key(p2, size) == key as int);
                            let w = choose|w: int|
                                0 <= w < self.mesh@[point_key(p2, size) as u64]@.len()
                                    && #[trigger] self.mesh@[point_key(p2, size) as u64]@[w] == (
                                p2,
                                id2,
                                );
                            assert(bucket@[w] == (p2, id2));
                        }
                    }
                },
                None => {
                    proof {
                        let size = self.spec_size();
                        assert forall|id2: usize|
                            #[trigger] self.contents().contains_key(id2) && id2 != id && cell_of(
                            self.contents()[id2].x as int,
                            size,
                        ) == cellt.xth as int && cell_of(self.contents()[id2].y as int, size)
                            == cellt.yth as int implies false by {
                            let p2 = self.contents()[id2];
                            assert(point_key(p2, size) == key as int);
                            assert(self.mesh@.contains_key(point_key(p2, size) as u64));
                        }
                    }
                },
            }
            t += 1;
        }
        proof {
            let size = self.spec_size();
            match best {
                Some(q) => {
                    assert forall|id2: usize|
                        #[trigger] self.contents().contains_key(id2) && id2 != id
                            && in_neighbourhood(point, self.contents()[id2], size) implies sq_dist(
                        point,
                        self.contents()[id2],
                    ) >= best_d by {
                        let p2 = self.contents()[id2];
                        let dx = cell_of(p2.x as int, size) - point_mp.xth as int;
                        let dy = cell_of(p2.y as int, size) - point_mp.yth as int;
                        assert(adjacent_offset(dx, dy));
                        let u = choose|u: int|
                            #![trigger ncells@[u]]
                            0 <= u < 9 && ncells@[u].xth == point_mp.xth + dx && ncells@[u].yth
                                == point_mp.yth + dy;
                    }
                },
                None => {
                    assert forall|id2: usize|
                        #[trigger] self.contents().contains_key(id2) && id2 != id implies
                        !in_neighbourhood(point, self.contents()[id2], size) by {
                        if in_neighbourhood(point, self.contents()[id2], size) {
                            let p2 = self.contents()[id2];
                            let dx = cell_of(p2.x as int, size) - point_mp.xth as int;
                            let dy = cell_of(p2.y as int, size) - point_mp.yth as int;
                            assert(adjacent_offset(dx, dy));
                            let u = choose|u: int|
                                #![trigger ncells@[u]]
                                0 <= u < 9 && ncells@[u].xth == point_mp.xth + dx && ncells@[u].yth
                                    == point_mp.yth + dy;
                            assert(false);
                        }
                    }
                },
            }
        }
        match best {
            Some(q) => Some(PointPair(point, q)),
            None => None,
        }
    }

    /// Add a point to the mesh and return whether the point added had any
    /// neighbours already there. This involves more lookups than the
    /// unchecked variant.
    pub fn add_point(&mut self, point: Point, id: usize) -> (r: PointsInNeighbour)
        requires
            old(self).wf(),
            valid_point(point),
            !old(self).contents().contains_key(id),
        ensures
            final(self).wf(),
            final(self).spec_size() == old(self).spec_size(),
            final(self).contents() == old(self).contents().insert(id, point),
            (r is Yes) <==> old(self).has_neighbour_of_point(point),
    {
        let point_mp = self.get_meshpoint_of_point(point);
        // If any of the neighbouring cells holds a point
        let has_neighbour = self.neighbour_is_populated(point_mp);
        self.add_point_unchecked(point, id);
        has_neighbour
    }
}

/// Points within the cell size of each other land in the same or in an
/// adjacent cell along each axis.
proof fn lemma_close_means_adjacent(a: int, b: int, size: int)
    requires
        size >= 1,
        -size < a - b < size,
    ensures
        -1 <= cell_of(a, size) - cell_of(b, size) <= 1,
{
    lemma_div_is_ordered(b - size, a, size);
    lemma_div_is_ordered(a, b + size, size);
    lemma_div_plus_one(b, size);
    assert((size + b) / size == 1 + b / size);
    assert(b + size == size + b);
    lemma_div_plus_one(b - size, size);
    assert((size + (b - size)) / size == 1 + (b - size) / size);
    assert(size + (b - size) == b);
    assert((b - size) / size == b / size - 1);
}


/// A pair closer than the cell size lies within one neighbourhood.
proof fn lemma_close_pair_in_neighbourhood(a: Point, b: Point, size: int)
    requires
        size >= 1,
        sq_dist(a, b) < size * size,
    ensures
        in_neighbourhood(a, b, size),
{
    crate::geometry::lemma_sq_nonneg(a.x - b.x);
    crate::geometry::lemma_sq_nonneg(a.y - b.y);
    assert(-size < a.x - b.x < size) by (nonlinear_arith)
        requires
            (a.x - b.x) * (a.x - b.x) + (a.y - b.y) * (a.y - b.y) < size * size,
            (a.y - b.y) * (a.y - b.y) >= 0,
            (a.x - b.x) * (a.x - b.x) >= 0,
            size >= 1,
    ;
    assert(-size < a.y - b.y < size) by (nonlinear_arith)
        requires
            (a.x - b.x) * (a.x - b.x) + (a.y - b.y) * (a.y - b.y) < size * size,
            (a.y - b.y) * (a.y - b.y) >= 0,
            (a.x - b.x) * (a.x - b.x) >= 0,
            size >= 1,
    ;
    lemma_close_means_adjacent(b.x as int, a.x as int, size);
    lemma_close_means_adjacent(b.y as int, a.y as int, size);
}

/// Copies out the points at the given positions.
fn select_points(points: &Vec<Point>, idxs: &Vec<usize>) -> (r: Vec<Point>)
    requires
        forall|u: int| 0 <= u < idxs@.len() ==> (#[trigger] idxs@[u]) < points@.len(),
        all_valid(points@),
    ensures
        r@.len() == idxs@.len(),
        forall|u: int| 0 <= u < idxs@.len() ==> (#[trigger] r@[u]) == points@[idxs@[u] as int],
        all_valid(r@),
{
    let n = idxs.len();
    let mut r: Vec<Point> = Vec::new();
    let mut t: usize = 0;
    while t < n
        invariant
            t <= n,
            n == idxs@.len(),
            forall|u: int| 0 <= u < idxs@.len() ==> (#[trigger] idxs@[u]) < points@.len(),
            all_valid(points@),
            r@.len() == t,
            forall|u: int| 0 <= u < t ==> (#[trigger] r@[u]) == points@[idxs@[u] as int],
        decreases n - t,
    {
        r.push(points[idxs[t]]);
        t += 1;
    }
    proof {
        assert forall|u: int| 0 <= u < r@.len() implies valid_point(#[trigger] r@[u]) by {
            assert(r@[u] == points@[idxs@[u] as int]);
        }
    }
    r
}

/// Task 4: the randomised sieve.
///
/// Rounds of filtering against ever finer meshes discard points with no
/// nearby companion; once fewer than two survive, the full set is bucketed
/// one final time at the last sampled nearest-neighbour distance, and every
/// point is compared against its 3-by-3 neighbourhood. That final scan is
/// what the contract rests on: the estimate is the distance of a real pair,
/// so the true closest pair shares a neighbourhood whatever the earlier
/// random draws did.
#[derive(Clone, Debug)]
pub struct Task4 {
    points: Vec<Point>,
}

impl View for Task4 {
    type V = Seq<Point>;

    closed spec fn view(&self) -> Seq<Point> {
        self.points@
    }
}

impl Task4 {
    /// Create a new `Task4` struct.
    pub fn new(points: Vec<Point>) -> (r: Self)
        ensures
            r@ == points@,
    {
        Self { points }
    }

    /// The exact nearest-neighbour squared distance of the point at `i`,
    /// by brute force over the whole collection.
    fn minimum_distance_to(points: &Vec<Point>, i: usize) -> (d: Distance)
        requires
            points@.len() >= 2,
            i < points@.len(),
            all_valid(points@),
        ensures
            exists|j: int|
                0 <= j < points@.len() && j != i && d.0 == sq_dist(
                    points@[i as int],
                    #[trigger] points@[j],
                ),
            forall|j: int|
                0 <= j < points@.len() && j != i ==> sq_dist(
                    points@[i as int],
                    #[trigger] points@[j],
                ) >= d.0,
    {
        let n = points.len();
        let p = points[i];
        let j0: usize = if i == 0 {
            1
        } else {
            0
        };
        let mut best = p.distance_to(points[j0]);
        let mut j: usize = 0;
        while j < n
            invariant
                j <= n,
                n == points@.len(),
                n >= 2,
                i < n,
                j0 < n,
                j0 != i,
                p == points@[i as int],
                all_valid(points@),
                exists|j2: int|
                    0 <= j2 < n && j2 != i && best.0 == sq_dist(
                        points@[i as int],
                        #[trigger] points@[j2],
                    ),
                forall|j2: int|
                    0 <= j2 < j && j2 != i ==> sq_dist(points@[i as int], #[trigger] points@[j2])
                        >= best.0,
            decreases n - j,
        {
            if j != i {
                let d = p.distance_to(points[j]);
                if d.0 < best.0 {
                    best = d;
                }
            }
            j += 1;
        }
        best
    }

    /// Find the closest pair of points in the list.
    pub fn find_closest_pair(&self) -> (r: PointPair)
        requires
            self@.len() >= 2,
            all_valid(self@),
        ensures
            is_closest_pair(self@.to_multiset(), r),
            valid_point(r.0),
            valid_point(r.1),
    {
        // A Simple Randomized Sieve Algorithm for the Closest-Pair Problem.
        // (Khuller, Matias 2009)
        let n = self.points.len();
        let mut rng = rng_from_seed(0x4749_4232_3050_4C53);
        // Filtering: the working set, as positions into the point list
        let mut working: Vec<usize> = Vec::new();
        let mut t: usize = 0;
        while t < n
            invariant
                t <= n,
                n == self.points@.len(),
                working@.len() == t,
                forall|u: int| 0 <= u < t ==> (#[trigger] working@[u]) < n,
            decreases n - t,
        {
            working.push(t);
            t += 1;
        }
        let mut random_id: usize = 0;
        while working.len() >= 2
            invariant
                n == self.points@.len(),
                n >= 2,
                all_valid(self.points@),
                random_id < n,
                forall|u: int| 0 <= u < working@.len() ==> (#[trigger] working@[u]) < n,
            decreases working@.len(),
        {
            let wlen = working.len();
            let wpts = select_points(&self.points, &working);
            // Pick a random point from the working set and find its exact
            // nearest-neighbour distance within the set
            let pick = rand_below(&mut rng, wlen);
            random_id = working[pick];
            let est = Task4::minimum_distance_to(&wpts, pick);
            // Bucket the working set at a third of that distance, keeping
            // only points whose neighbourhood is already populated
            let cell = isqrt(est.0) / 3 + 1;
            let mut mesh = Mesh::new(cell as i64);
            let mut retained: Vec<usize> = Vec::new();
            let mut t2: usize = 0;
            while t2 < wlen
                invariant
                    t2 <= wlen,
                    wlen == wpts@.len(),
                    wlen == working@.len(),
                    n == self.points@.len(),
                    all_valid(wpts@),
                    mesh.wf(),
                    forall|id: usize| #[trigger] mesh.contents().contains_key(id) ==> id < t2,
                    forall|u: int| 0 <= u < working@.len() ==> (#[trigger] working@[u]) < n,
                    retained@.len() <= t2,
                    t2 >= 1 ==> retained@.len() < t2,
                    forall|u: int| 0 <= u < retained@.len() ==> (#[trigger] retained@[u]) < n,
                decreases wlen - t2,
            {
                let ghost pre_contents = mesh.contents();
                match mesh.add_point(wpts[t2], t2) {
                    PointsInNeighbour::Yes => {
                        proof {
                            if t2 == 0 {
                                let id = choose|id: usize|
                                    #[trigger] pre_contents.contains_key(id) && -1 <= cell_of(
                                        pre_contents[id].x as int,
                                        mesh.spec_size(),
                                    ) - cell_of(wpts@[0].x as int, mesh.spec_size()) <= 1 && -1
                                        <= cell_of(pre_contents[id].y as int, mesh.spec_size())
                                        - cell_of(wpts@[0].y as int, mesh.spec_size()) <= 1;
                                assert(false);
                            }
                        }
                        retained.push(working[t2]);
                    },
                    PointsInNeighbour::No => {},
                }
                t2 += 1;
            }
            working = retained;
        }
        // Finalisation: bucket the full set at the exact nearest-neighbour
        // distance of the last sampled point, and scan every neighbourhood
        let est = Task4::minimum_distance_to(&self.points, random_id);
        let cell = isqrt(est.0) + 1;
        let mut mesh = Mesh::new(cell as i64);
        let mut t3: usize = 0;
        while t3 < n
            invariant
                t3 <= n,
                n == self.points@.len(),
                all_valid(self.points@),
                mesh.wf(),
                mesh.spec_size() == cell as int,
                forall|id: usize| #[trigger] mesh.contents().contains_key(id) <==> id < t3,
                forall|id: usize|
                    #[trigger] mesh.contents().contains_key(id) ==> mesh.contents()[id]
                        == self.points@[id as int],
            decreases n - t3,
        {
            mesh.add_point_unchecked(self.points[t3], t3);
            t3 += 1;
        }
        let ghost gij = lemma_exists_closest_index_pair(self.points@);
        proof {
            // the estimate is the distance of a real pair, so the minimal
            // pair is closer than the final cell size
            let je = choose|j: int|
                0 <= j < n && j != random_id && est.0 == sq_dist(
                    self.points@[random_id as int],
                    #[trigger] self.points@[j],
                );
            assert(sq_dist(self.points@[gij.0], self.points@[gij.1]) <= est.0);
            assert(est.0 < cell as int * cell as int);
        }
        let mut best: Option<PointPair> = None;
        let mut best_d: u64 = 0;
        let mut t4: usize = 0;
        while t4 < n
            invariant
                t4 <= n,
                n == self.points@.len(),
                n >= 2,
                all_valid(self.points@),
                mesh.wf(),
                mesh.spec_size() == cell as int,
                forall|id: usize| #[trigger] mesh.contents().contains_key(id) <==> id < n,
                forall|id: usize|
                    #[trigger] mesh.contents().contains_key(id) ==> mesh.contents()[id]
                        == self.points@[id as int],
                0 <= gij.0 < n,
                0 <= gij.1 < n,
                gij.0 != gij.1,
                sq_dist(self.points@[gij.0], self.points@[gij.1]) < cell as int * cell as int,
                forall|i: int, j: int|
                    #![trigger self.points@[i], self.points@[j]]
                    0 <= i < n && 0 <= j < n && i != j ==> sq_dist(
                        self.points@[gij.0],
                        self.points@[gij.1],
                    ) <= sq_dist(self.points@[i], self.points@[j]),
                match best {
                    Some(pr) => {
                        &&& valid_point(pr.0)
                        &&& valid_point(pr.1)
                        &&& best_d == sq_dist(pr.0, pr.1)
                        &&& is_pair_in(self.points@.to_multiset(), pr.0, pr.1)
                    },
                    None => true,
                },
                t4 > gij.0 ==> (best is Some && best_d <= sq_dist(
                    self.points@[gij.0],
                    self.points@[gij.1],
                )),
            decreases n - t4,
        {
            let q = mesh.closest_pair_to_point_in_neighbour(self.points[t4], t4);
            proof {
                if t4 == gij.0 {
                    lemma_close_pair_in_neighbourhood(
                        self.points@[gij.0],
                        self.points@[gij.1],
                        cell as int,
                    );
                    assert(mesh.contents().contains_key(gij.1 as usize));
                    assert(mesh.contents()[gij.1 as usize] == self.points@[gij.1]);
                    assert(in_neighbourhood(
                        self.points@[t4 as int],
                        mesh.contents()[gij.1 as usize],
                        mesh.spec_size(),
                    ));
                    match q {
                        Some(pair) => {
                            assert(sq_dist(self.points@[t4 as int], mesh.contents()[gij.1 as usize])
                                >= sq_dist(self.points@[t4 as int], pair.1));
                        },
                        None => {
                            assert(false);
                        },
                    }
                }
            }
            match q {
                Some(pair) => {
                    proof {
                        let id2 = choose|id2: usize|
                            #[trigger] mesh.contents().contains_key(id2) && id2 != t4
                                && mesh.contents()[id2] == pair.1;
                        lemma_seq_pair_in_multiset(self.points@, t4 as int, id2 as int);
                    }
                    let d = pair.distance();
                    let better = match best {
                        Some(_) => d.0 < best_d,
                        None => true,
                    };
                    if better {
                        best = Some(pair);
                        best_d = d.0;
                    }
                },
                None => {},
            }
            t4 += 1;
        }
        proof {
            lemma_pairs_from_index_bound(
                self.points@,
                sq_dist(self.points@[gij.0], self.points@[gij.1]),
            );
        }
        match best {
            Some(pr) => {
                proof {
                    assert(is_pair_in(self.points@.to_multiset(), pr.0, pr.1));
                    assert(best_d >= sq_dist(self.points@[gij.0], self.points@[gij.1]));
                    assert forall|a: Point, b: Point|
                        #[trigger] is_pair_in(self.points@.to_multiset(), a, b) implies sq_dist(
                        a,
                        b,
                    ) >= sq_dist(pr.0, pr.1) by {
                        assert(sq_dist(a, b) >= sq_dist(self.points@[gij.0], self.points@[gij.1]));
                    }
                }
                pr
            },
            None => {
                proof {
                    assert(false);
                }
                vstd::pervasive::unreached()
            },
        }
    }
}

} // verus!

//! Diffusion-limited aggregation on a bounded grid, and the multi-resolution
//! step that doubles a settled aggregate while keeping it connected.
//!
//! Settled particles live in a `ParticleMap`, a dense grid addressed by
//! coordinate. A particle's links name, by coordinate, the settled neighbour
//! it attached to, so that links lead toward the spawn the particle grew from.
//! A spawn has no links; a particle's height counts the particles on the
//! longest link path from it, itself included.
use rand::Rng;
use vstd::arithmetic::power2::{
    lemma2_to64, lemma2_to64_rest, lemma_pow2_pos, lemma_pow2_strictly_increases, lemma_pow2_unfold,
    pow2,
};
use vstd::prelude::*;
use vstd::set_lib::{lemma_int_range, lemma_len_subset, set_int_range};

verus! {

/// A grid coordinate.
#[derive(Clone, Copy, Debug, PartialEq, Eq, Structural)]
pub struct Point {
    pub x: u32,
    pub y: u32,
}

/// A settled particle and the coordinates of the particles it links to.
#[derive(Clone, Debug)]
pub struct Particle {
    pub linked: Vec<(u32, u32)>,
    pub point: Point,
}

/// How a smoothing kernel's cells are filled.
#[derive(Clone, Copy, Debug, PartialEq, Eq, Structural)]
pub enum KernelType {
    Gaussian,
    SingleValue,
    Directional,
}

/// What an aggregation pass records.
#[derive(Clone, Copy, Debug, PartialEq, Eq, Structural)]
pub enum DiffusionLimitedAggregationMode {
    Particle,
    Image,
}

/// Where new walkers start.
#[derive(Clone, Copy, Debug, PartialEq, Eq, Structural)]
pub enum ParticleSpawnPattern {
    Random,
    Edge,
}

/// A smoothing kernel: `size` x `size` cells (odd), filled according to
/// `k_type` from `value`, in thousandths (a constant, a standard deviation, or
/// an angle in degrees).
#[derive(Clone, Copy, Debug, PartialEq, Eq, Structural)]
pub struct Kernel {
    pub size: usize,
    pub value: i64,
    pub k_type: KernelType,
}

/// Parameters of a multi-resolution aggregation run.
#[derive(Clone, Debug)]
pub struct DiffusionLimitedAggregationParams {
    /// Height of the first layer's grid.
    pub height: usize,
    /// Width of the first layer's grid.
    pub width: usize,
    /// Particles settled before any walker starts.
    pub spawns: Vec<Point>,
    /// Absorption coefficient in `(0, 1]`, scaled by `ABSORPTION_SCALE`.
    pub t: u32,
    /// Walkers released per layer.
    pub particles: u32,
    /// Number of layers; each doubles the grid.
    pub layers: u32,
    /// Share of a layer's cells released as walkers, in thousandths.
    pub density: u32,
    /// Moves a walker may make before it settles where it stands or is dropped.
    pub walk_limit: u64,
    pub kernel: Kernel,
}

/// Whether `a` and `b` are 4-neighbours.
pub open spec fn adjacent(a: (u32, u32), b: (u32, u32)) -> bool {
    (a.0 == b.0 && (a.1 + 1 == b.1 || b.1 + 1 == a.1)) || (a.1 == b.1 && (a.0 + 1 == b.0 || b.0 + 1
        == a.0))
}

/// The midpoint of the doubled images of `a` and `b`: `(2a + 2b) / 2`.
pub open spec fn mid_of(a: (u32, u32), b: (u32, u32)) -> (u32, u32) {
    ((a.0 + b.0) as u32, (a.1 + b.1) as u32)
}

/// The image of `a` at doubled resolution.
pub open spec fn doubled(a: (u32, u32)) -> (u32, u32) {
    ((2 * a.0) as u32, (2 * a.1) as u32)
}

impl Point {
    pub fn new(x: u32, y: u32) -> (r: Point)
        ensures
            r.x == x && r.y == y,
    {
        Point { x, y }
    }

    pub open spec fn key_spec(self) -> (u32, u32) {
        (self.x, self.y)
    }

    /// The coordinate pair that identifies this point in a particle map.
    pub fn key(&self) -> (r: (u32, u32))
        ensures
            r == self.key_spec(),
    {
        (self.x, self.y)
    }

    /// The midpoint between the doubled images of `self` and `other`, which is
    /// `self + other`.
    pub fn mid(&self, other: &Point) -> (r: Point)
        requires
            self.x + other.x <= u32::MAX,
            self.y + other.y <= u32::MAX,
        ensures
            r.key_spec() == mid_of(self.key_spec(), other.key_spec()),
    {
        Point::new(self.x + other.x, self.y + other.y)
    }

    /// The componentwise product of two points.
    pub fn times(&self, other: &Point) -> (r: Point)
        requires
            self.x * other.x <= u32::MAX,
            self.y * other.y <= u32::MAX,
        ensures
            r.x == self.x * other.x && r.y == self.y * other.y,
    {
        Point::new(self.x * other.x, self.y * other.y)
    }

    /// The componentwise difference of two points; `other` may not exceed
    /// `self` in either coordinate.
    pub fn minus(&self, other: &Point) -> (r: Point)
        requires
            other.x <= self.x,
            other.y <= self.y,
        ensures
            r.x == self.x - other.x && r.y == self.y - other.y,
    {
        Point::new(self.x - other.x, self.y - other.y)
    }

    /// This point with both coordinates multiplied by `factor`.
    pub fn scale(&self, factor: u32) -> (r: Point)
        requires
            self.x * factor <= u32::MAX,
            self.y * factor <= u32::MAX,
        ensures
            r.x == self.x * factor && r.y == self.y * factor,
    {
        Point::new(self.x * factor, self.y * factor)
    }
}

impl Particle {
    /// A particle at `point` with no links.
    pub fn new(point: Point) -> (r: Particle)
        ensures
            r.point == point,
            r.linked@ == Seq::<(u32, u32)>::empty(),
    {
        Particle { linked: Vec::new(), point }
    }

    /// This particle's height over the heights of `map` (see
    /// `ParticleMap::depths`): one more than the highest particle it links to,
    /// so 1 without links; a link to a coordinate where nothing has settled
    /// counts as 0.
    pub fn height(&self, map: &ParticleMap) -> (r: u64)
        requires
            map.wf(),
        ensures
            r == 1 + max_over(|c: (u32, u32)| depth_at(map@, map.cells_len() as nat, c), self.linked@),
            map@.contains_key(self.point.key_spec()) && map@[self.point.key_spec()] == self.linked@ ==> r
                == depth_at(map@, map.cells_len() as nat, self.point.key_spec()),
    {
        let d = map.depths();
        let ghost n = map.cells_len() as nat;
        proof {
            map.lemma_wf();
            lemma_links_max_bound(map@, n, self.linked@);
        }
        let mut mx: u64 = 0;
        let mut j: usize = 0;
        while j < self.linked.len()
            invariant
                map.wf(),
                n == map.cells_len(),
                d@.len() == n,
                forall|i: int| 0 <= i < d@.len() ==> #[trigger] d@[i] == depth_at(map@, n, map.coords_of(i)),
                0 <= j <= self.linked@.len(),
                mx == links_max(map@, n, self.linked@.take(j as int)),
            decreases self.linked@.len() - j,
        {
            let l = self.linked[j];
            let v = if map.contains(l.0, l.1) {
                proof {
                    map.lemma_wf();
                    map.lemma_depth_in_grid(n, l);
                }
                d[map.index(l.0, l.1)]
            } else {
                0
            };
            proof {
                map.lemma_depth_in_grid(n, l);
                assert(v == depth_at(map@, n, l));
                assert(self.linked@.take(j as int + 1).drop_last() =~= self.linked@.take(j as int));
            }
            if v > mx {
                mx = v;
            }
            j = j + 1;
        }
        proof {
            assert(self.linked@.take(j as int) =~= self.linked@);
            lemma_links_max_bound(map@, n, self.linked@);
            assert(depth_at(map@, n + 1, self.point.key_spec()) == depth_at(map@, n, self.point.key_spec()));
            lemma_links_max_is_max_over(map@, n, self.linked@);
        }
        mx + 1
    }

    /// Records a link to the particle at `key`.
    pub fn link(&mut self, key: (u32, u32))
        ensures
            final(self).linked@ == old(self).linked@.push(key),
            final(self).point == old(self).point,
    {
        self.linked.push(key);
    }
}

/// A settled aggregate as a map from coordinate to links: every link joins
/// 4-neighbours, points at a settled particle, and no two particles link to
/// each other.
pub open spec fn is_aggregate(m: Map<(u32, u32), Seq<(u32, u32)>>) -> bool {
    forall|p: (u32, u32), j: int|
        #![trigger m[p][j]]
        m.contains_key(p) && 0 <= j < m[p].len() ==> {
            &&& adjacent(p, m[p][j])
            &&& m.contains_key(m[p][j])
            &&& !m[m[p][j]].contains(p)
        }
}

/// Row-major index of `(x, y)` in a grid `w` wide.
pub open spec fn grid_index(x: int, y: int, w: int) -> int {
    y * w + x
}

proof fn lemma_grid_index(x: int, y: int, w: int, h: int)
    requires
        0 <= x < w,
        0 <= y < h,
    ensures
        0 <= grid_index(x, y, w) < w * h,
        grid_index(x, y, w) % w == x,
        grid_index(x, y, w) / w == y,
{
    assert(0 <= y * w + x < w * h) by (nonlinear_arith)
        requires
            0 <= x < w,
            0 <= y < h,
    ;
    assert((y * w + x) % w == x && (y * w + x) / w == y) by (nonlinear_arith)
        requires
            0 <= x < w,
            0 <= y,
    ;
}

proof fn lemma_grid_coords(i: int, w: int, h: int)
    requires
        0 <= i < w * h,
        w > 0,
    ensures
        0 <= i % w < w,
        0 <= i / w < h,
        grid_index(i % w, i / w, w) == i,
{
    assert(0 <= i / w < h && i == (i / w) * w + i % w) by (nonlinear_arith)
        requires
            0 <= i < w * h,
            w > 0,
    ;
}

/// The settled particles of one resolution layer: a `width` x `height` grid in
/// which each cell holds at most one particle. A well-formed map is an
/// aggregate (`is_aggregate`) with a height assignment, so its links form no
/// cycle.
pub struct ParticleMap {
    width: u32,
    height: u32,
    cells: Vec<Option<Particle>>,
}

impl View for ParticleMap {
    type V = Map<(u32, u32), Seq<(u32, u32)>>;

    /// Each settled coordinate with the links of its particle.
    closed spec fn view(&self) -> Map<(u32, u32), Seq<(u32, u32)>> {
        Map::new(
            |k: (u32, u32)|
                k.0 < self.width && k.1 < self.height && self.cells@[grid_index(
                    k.0 as int,
                    k.1 as int,
                    self.width as int,
                )] is Some,
            |k: (u32, u32)|
                (self.cells@[grid_index(k.0 as int, k.1 as int, self.width as int)]->Some_0).linked@,
        )
    }
}

impl ParticleMap {
    pub closed spec fn width_spec(&self) -> u32 {
        self.width
    }

    pub closed spec fn height_spec(&self) -> u32 {
        self.height
    }

    /// Whether `k` lies inside the grid.
    pub open spec fn in_bounds(&self, k: (u32, u32)) -> bool {
        k.0 < self.width_spec() && k.1 < self.height_spec()
    }

    pub closed spec fn wf(&self) -> bool {
        &&& self.shape_ok()
        &&& is_aggregate(self@)
        &&& exists|f: spec_fn((u32, u32)) -> int| is_height_assignment(self@, f)
    }

    closed spec fn shape_ok(&self) -> bool {
        &&& self.width > 0 && self.height > 0
        &&& self.cells@.len() == self.width * self.height
        &&& self.width * self.height < usize::MAX
        &&& self.layout_ok()
    }

    /// Each particle sits in the cell of its own coordinates.
    closed spec fn layout_ok(&self) -> bool {
        forall|i: int|
            0 <= i < self.cells@.len() && (#[trigger] self.cells@[i]) is Some ==> (self.cells@[i]->Some_0).point
                == (Point { x: (i % self.width as int) as u32, y: (i / self.width as int) as u32 })
    }

    /// Only finitely many particles fit in the grid.
    pub proof fn lemma_dom_finite(&self)
        requires
            self.wf(),
        ensures
            self@.dom().finite(),
    {
        let w = self.width as int;
        let h = self.height as int;
        let range = set_int_range(0, w * h);
        lemma_int_range(0, w * h);
        let cells = range.map(|i: int| ((i % w) as u32, (i / w) as u32));
        range.lemma_map_finite(|i: int| ((i % w) as u32, (i / w) as u32));
        assert forall|k: (u32, u32)| self@.dom().contains(k) implies cells.contains(k) by {
            lemma_grid_index(k.0 as int, k.1 as int, w, h);
            assert(range.contains(grid_index(k.0 as int, k.1 as int, w)));
        }
        lemma_len_subset(self@.dom(), cells);
    }

    /// Facts that every well-formed map offers its users.
    pub proof fn lemma_wf(&self)
        requires
            self.wf(),
        ensures
            is_aggregate(self@),
            exists|f: spec_fn((u32, u32)) -> int| is_height_assignment(self@, f),
            self.width_spec() > 0 && self.height_spec() > 0,
            self.width_spec() * self.height_spec() < usize::MAX,
            forall|k: (u32, u32)| #[trigger] self@.contains_key(k) ==> self.in_bounds(k),
    {
    }

    /// An empty `width` x `height` grid.
    pub fn new(width: u32, height: u32) -> (r: ParticleMap)
        requires
            width > 0 && height > 0,
            width * height < usize::MAX,
        ensures
            r.wf(),
            r.width_spec() == width && r.height_spec() == height,
            r@ == Map::<(u32, u32), Seq<(u32, u32)>>::empty(),
    {
        let n = width as usize * height as usize;
        let mut cells: Vec<Option<Particle>> = Vec::new();
        let mut i: usize = 0;
        while i < n
            invariant
                0 <= i <= n,
                cells@.len() == i,
                forall|j: int| 0 <= j < i ==> #[trigger] cells@[j] is None,
            decreases n - i,
        {
            cells.push(None);
            i = i + 1;
        }
        let r = ParticleMap { width, height, cells };
        assert(r@ =~= Map::<(u32, u32), Seq<(u32, u32)>>::empty()) by {
            assert forall|k: (u32, u32)| !r@.contains_key(k) by {
                if k.0 < width && k.1 < height {
                    lemma_grid_index(k.0 as int, k.1 as int, width as int, height as int);
                }
            }
        }
        proof {
            let f = |x: (u32, u32)| 0int;
            assert(is_height_assignment(r@, f));
        }
        r
    }

    pub fn width(&self) -> (r: u32)
        ensures
            r == self.width_spec(),
    {
        self.width
    }

    pub fn height(&self) -> (r: u32)
        ensures
            r == self.height_spec(),
    {
        self.height
    }

    fn index(&self, x: u32, y: u32) -> (r: usize)
        requires
            self.wf(),
            x < self.width_spec() && y < self.height_spec(),
        ensures
            r == grid_index(x as int, y as int, self.width_spec() as int),
            r < self.cells@.len(),
    {
        proof {
            lemma_grid_index(x as int, y as int, self.width as int, self.height as int);
        }
        y as usize * self.width as usize + x as usize
    }

    /// Whether a particle has settled at `(x, y)`; false outside the grid.
    pub fn contains(&self, x: u32, y: u32) -> (r: bool)
        requires
            self.wf(),
        ensures
            r == self@.contains_key((x, y)),
    {
        if x < self.width && y < self.height {
            let i = self.index(x, y);
            self.cells[i].is_some()
        } else {
            false
        }
    }

    /// The particle settled at `(x, y)`, if any.
    pub fn get(&self, x: u32, y: u32) -> (r: Option<&Particle>)
        requires
            self.wf(),
        ensures
            (r is Some) == self@.contains_key((x, y)),
            r matches Some(p) ==> p.linked@ == self@[(x, y)] && p.point == (Point { x, y }),
    {
        if x < self.width && y < self.height {
            let i = self.index(x, y);
            proof {
                lemma_grid_index(x as int, y as int, self.width as int, self.height as int);
            }
            match &self.cells[i] {
                Some(p) => Some(p),
                None => None,
            }
        } else {
            None
        }
    }

    /// Number of settled particles.
    pub fn count(&self) -> (r: usize)
        requires
            self.wf(),
        ensures
            r == self@.dom().len(),
    {
        let mut n: usize = 0;
        let mut i: usize = 0;
        let ghost mut seen: Set<(u32, u32)> = Set::empty();
        while i < self.cells.len()
            invariant
                self.wf(),
                0 <= i <= self.cells@.len(),
                n == seen.len(),
                seen.finite(),
                n <= i,
                seen == self@.dom().filter(|k: (u32, u32)| grid_index(k.0 as int, k.1 as int, self.width as int) < i),
            decreases self.cells@.len() - i,
        {
            proof {
                lemma_grid_coords(i as int, self.width as int, self.height as int);
            }
            let ghost k: (u32, u32) = ((i % self.width as usize) as u32, (i / self.width as usize) as u32);
            let ghost next = self@.dom().filter(|q: (u32, u32)| grid_index(q.0 as int, q.1 as int, self.width as int) < i + 1);
            if self.cells[i].is_some() {
                proof {
                    assert(next =~= seen.insert(k)) by {
                        assert forall|q: (u32, u32)| next.contains(q) implies seen.insert(k).contains(q) by {
                            if grid_index(q.0 as int, q.1 as int, self.width as int) == i {
                                lemma_grid_index(q.0 as int, q.1 as int, self.width as int, self.height as int);
                            }
                        }
                    }
                }
                n = n + 1;
            } else {
                proof {
                    assert(next =~= seen) by {
                        assert forall|q: (u32, u32)| next.contains(q) implies seen.contains(q) by {
                            if grid_index(q.0 as int, q.1 as int, self.width as int) == i {
                                lemma_grid_index(q.0 as int, q.1 as int, self.width as int, self.height as int);
                            }
                        }
                    }
                }
            }
            proof {
                seen = next;
            }
            i = i + 1;
        }
        proof {
            assert(seen =~= self@.dom()) by {
                assert forall|q: (u32, u32)| self@.dom().contains(q) implies seen.contains(q) by {
                    lemma_grid_index(q.0 as int, q.1 as int, self.width as int, self.height as int);
                }
            }
        }
        n
    }

    /// Stores `particle` in the cell of its own coordinates, replacing what was there.
    fn put(&mut self, particle: Particle)
        requires
            old(self).shape_ok(),
            old(self).in_bounds(particle.point.key_spec()),
        ensures
            final(self).shape_ok(),
            final(self).width_spec() == old(self).width_spec(),
            final(self).height_spec() == old(self).height_spec(),
            final(self)@ == old(self)@.insert(particle.point.key_spec(), particle.linked@),
    {
        let ghost links = particle.linked@;
        let ghost k = particle.point.key_spec();
        proof {
            lemma_grid_index(k.0 as int, k.1 as int, self.width as int, self.height as int);
        }
        let i = particle.point.y as usize * self.width as usize + particle.point.x as usize;
        self.cells.set(i, Some(particle));
        proof {
            self.lemma_set_cell(old(self), k, links);
        }
    }

    /// A `width` x `height` grid in which each spawn point inside the grid holds
    /// a particle with no links.
    pub fn from_spawns(width: u32, height: u32, spawns: &Vec<Point>) -> (r: ParticleMap)
        requires
            width > 0 && height > 0,
            width * height < usize::MAX,
        ensures
            r.wf(),
            r.width_spec() == width && r.height_spec() == height,
            forall|k: (u32, u32)| #[trigger] r@.contains_key(k) <==> (k.0 < width && k.1 < height
                && exists|i: int| 0 <= i < spawns@.len() && #[trigger] spawns@[i].key_spec() == k),
            forall|k: (u32, u32)| #[trigger] r@.contains_key(k) ==> r@[k] == Seq::<(u32, u32)>::empty(),
    {
        let mut map = ParticleMap::new(width, height);
        let mut i: usize = 0;
        while i < spawns.len()
            invariant
                map.wf(),
                map.width_spec() == width && map.height_spec() == height,
                0 <= i <= spawns@.len(),
                forall|k: (u32, u32)| #[trigger] map@.contains_key(k) <==> (k.0 < width && k.1 < height
                    && exists|t: int| 0 <= t < i && #[trigger] spawns@[t].key_spec() == k),
                forall|k: (u32, u32)| #[trigger] map@.contains_key(k) ==> map@[k] == Seq::<(u32, u32)>::empty(),
            decreases spawns@.len() - i,
        {
            map.add_spawn(spawns[i]);
            proof {
                assert forall|k: (u32, u32)| #[trigger] map@.contains_key(k) <==> (k.0 < width && k.1 < height
                    && exists|t: int| 0 <= t < i + 1 && #[trigger] spawns@[t].key_spec() == k) by {
                    if k == spawns@[i as int].key_spec() && k.0 < width && k.1 < height {
                        assert(spawns@[i as int].key_spec() == k);
                    }
                    if exists|t: int| 0 <= t < i + 1 && #[trigger] spawns@[t].key_spec() == k {
                        let t = choose|t: int| 0 <= t < i + 1 && #[trigger] spawns@[t].key_spec() == k;
                        if t < i {
                            assert(spawns@[t].key_spec() == k);
                        }
                    }
                }
            }
            i = i + 1;
        }
        map
    }

    /// Settles a particle with no links at `p` when `p` is inside the grid and
    /// free; returns whether it did.
    pub fn add_spawn(&mut self, p: Point) -> (r: bool)
        requires
            old(self).wf(),
        ensures
            final(self).wf(),
            final(self).width_spec() == old(self).width_spec(),
            final(self).height_spec() == old(self).height_spec(),
            r == (old(self).in_bounds(p.key_spec()) && !old(self)@.contains_key(p.key_spec())),
            r ==> final(self)@ == old(self)@.insert(p.key_spec(), Seq::empty()),
            !r ==> final(self)@ == old(self)@,
    {
        if p.x < self.width && p.y < self.height && !self.contains(p.x, p.y) {
            let i = self.index(p.x, p.y);
            let ghost m = self@;
            self.cells.set(i, Some(Particle::new(p)));
            proof {
                lemma_grid_index(p.x as int, p.y as int, self.width as int, self.height as int);
                self.lemma_set_cell(old(self), p.key_spec(), Seq::empty());
                let m2 = m.insert(p.key_spec(), Seq::empty());
                assert forall|q: (u32, u32), j: int|
                    #![trigger m2[q][j]]
                    m2.contains_key(q) && 0 <= j < m2[q].len() implies {
                        &&& adjacent(q, m2[q][j])
                        &&& m2.contains_key(m2[q][j])
                        &&& !m2[m2[q][j]].contains(q)
                    } by {
                    assert(m[q][j] == m2[q][j]);
                }
                let f = choose|f: spec_fn((u32, u32)) -> int| is_height_assignment(m, f);
                lemma_assignment_extend(m, f, p.key_spec(), Seq::empty());
            }
            true
        } else {
            false
        }
    }

    /// After cell `k` of `old` is set to a particle at `k` with `links`, and
    /// nothing else changed, the view gains exactly that entry.
    proof fn lemma_set_cell(&self, old: &ParticleMap, k: (u32, u32), links: Seq<(u32, u32)>)
        requires
            old.shape_ok(),
            old.in_bounds(k),
            self.width == old.width && self.height == old.height,
            self.cells@.len() == old.cells@.len(),
            forall|i: int|
                0 <= i < self.cells@.len() && i != grid_index(k.0 as int, k.1 as int, old.width as int)
                    ==> #[trigger] self.cells@[i] == old.cells@[i],
            self.cells@[grid_index(k.0 as int, k.1 as int, old.width as int)] is Some,
            (self.cells@[grid_index(k.0 as int, k.1 as int, old.width as int)]->Some_0.point == (Point { x: k.0, y: k.1 })),
            self.cells@[grid_index(k.0 as int, k.1 as int, old.width as int)]->Some_0.linked@ == links,
        ensures
            self@ == old@.insert(k, links),
            self.shape_ok(),
    {
        let ik = grid_index(k.0 as int, k.1 as int, old.width as int);
        lemma_grid_index(k.0 as int, k.1 as int, old.width as int, old.height as int);
        assert forall|q: (u32, u32)| #[trigger] self@.contains_key(q) == old@.insert(k, links).contains_key(q) && (self@.contains_key(q) ==> self@[q] == old@.insert(k, links)[q]) by {
            if q.0 < self.width && q.1 < self.height {
                lemma_grid_index(q.0 as int, q.1 as int, old.width as int, old.height as int);
                if grid_index(q.0 as int, q.1 as int, old.width as int) == ik {
                    assert(q == k);
                }
            }
        }
        assert(self@ =~= old@.insert(k, links));
    }

    /// The in-grid 4-neighbours of `c` that are settled, and those that are
    /// free, each in the order north, west, east, south.
    pub fn neighbourhood(&self, c: (u32, u32)) -> (r: (Vec<(u32, u32)>, Vec<(u32, u32)>))
        requires
            self.wf(),
        ensures
            r.0@ == settled_among(self@, self.width_spec(), self.height_spec(), c, 4),
            r.1@ == free_among(self@, self.width_spec(), self.height_spec(), c, 4),
    {
        let mut settled: Vec<(u32, u32)> = Vec::new();
        let mut free: Vec<(u32, u32)> = Vec::new();
        let mut d: usize = 0;
        while d < 4
            invariant
                self.wf(),
                0 <= d <= 4,
                settled@ == settled_among(self@, self.width_spec(), self.height_spec(), c, d as int),
                free@ == free_among(self@, self.width_spec(), self.height_spec(), c, d as int),
            decreases 4 - d,
        {
            let (x, y): (i64, i64) = if d == 0 {
                (c.0 as i64, c.1 as i64 - 1)
            } else if d == 1 {
                (c.0 as i64 - 1, c.1 as i64)
            } else if d == 2 {
                (c.0 as i64 + 1, c.1 as i64)
            } else {
                (c.0 as i64, c.1 as i64 + 1)
            };
            if 0 <= x && x < self.width as i64 && 0 <= y && y < self.height as i64 {
                let q = (x as u32, y as u32);
                if self.contains(q.0, q.1) {
                    settled.push(q);
                } else {
                    free.push(q);
                }
            }
            d = d + 1;
        }
        (settled, free)
    }

    /// Settles a particle at `c`, linked to its settled neighbour `l`.
    fn attach(&mut self, c: (u32, u32), l: (u32, u32))
        requires
            old(self).wf(),
            old(self).in_bounds(c),
            !old(self)@.contains_key(c),
            old(self)@.contains_key(l),
            adjacent(c, l),
        ensures
            final(self).wf(),
            final(self).width_spec() == old(self).width_spec(),
            final(self).height_spec() == old(self).height_spec(),
            final(self)@ == old(self)@.insert(c, seq![l]),
    {
        let ghost m = self@;
        let ic = self.index(c.0, c.1);
        proof {
            lemma_grid_index(c.0 as int, c.1 as int, self.width as int, self.height as int);
        }
        let mut p = Particle::new(Point::new(c.0, c.1));
        p.link(l);
        self.cells.set(ic, Some(p));
        proof {
            assert(p.linked@ == seq![l]);
            self.lemma_set_cell(old(self), c, seq![l]);
            let m2 = m.insert(c, seq![l]);
            assert forall|q: (u32, u32), j: int|
                #![trigger m2[q][j]]
                m2.contains_key(q) && 0 <= j < m2[q].len() implies {
                    &&& adjacent(q, m2[q][j])
                    &&& m2.contains_key(m2[q][j])
                    &&& !m2[m2[q][j]].contains(q)
                } by {
                if q == c {
                    assert(m2[q][j] == l);
                    assert(l != c);
                    if m[l].contains(c) {
                        let t = choose|t: int| 0 <= t < m[l].len() && m[l][t] == c;
                        assert(m.contains_key(m[l][t]));
                    }
                } else {
                    assert(m2[q][j] == m[q][j]);
                    assert(m.contains_key(m[q][j]));
                }
            }
            let f = choose|f: spec_fn((u32, u32)) -> int| is_height_assignment(m, f);
            lemma_assignment_extend(m, f, c, seq![l]);
        }
    }
}

/// Settling a new particle at `c` whose links all point at settled particles
/// keeps a height assignment: the new particle gets one more than the highest
/// of them, and no other height changes.
proof fn lemma_assignment_extend(
    m: Map<(u32, u32), Seq<(u32, u32)>>,
    f: spec_fn((u32, u32)) -> int,
    c: (u32, u32),
    links: Seq<(u32, u32)>,
)
    requires
        is_aggregate(m),
        is_height_assignment(m, f),
        !m.contains_key(c),
        forall|i: int| 0 <= i < links.len() ==> m.contains_key(#[trigger] links[i]),
    ensures
        is_height_assignment(
            m.insert(c, links),
            |x: (u32, u32)| if x == c { 1 + max_over(f, links) } else { f(x) },
        ),
{
    let m2 = m.insert(c, links);
    let g = |x: (u32, u32)| if x == c { 1 + max_over(f, links) } else { f(x) };
    assert forall|x: (u32, u32)| #[trigger] g(x) == if m2.contains_key(x) { 1 + max_over(g, m2[x]) } else { 0 } by {
        if m2.contains_key(x) {
            let ls = m2[x];
            assert forall|i: int| 0 <= i < ls.len() implies f(#[trigger] ls[i]) == g(ls[i]) by {
                if x == c {
                    assert(m.contains_key(ls[i]));
                } else {
                    assert(m.contains_key(m[x][i]));
                }
            }
            lemma_max_over_same(f, g, ls);
        }
    }
}

/// The `d`-th neighbour of `c`, in the order north, west, east, south.
pub open spec fn step_to(c: (u32, u32), d: int) -> (int, int) {
    if d == 0 {
        (c.0 as int, c.1 - 1)
    } else if d == 1 {
        (c.0 - 1, c.1 as int)
    } else if d == 2 {
        (c.0 + 1, c.1 as int)
    } else {
        (c.0 as int, c.1 + 1)
    }
}

pub open spec fn in_grid(q: (int, int), w: u32, h: u32) -> bool {
    0 <= q.0 < w && 0 <= q.1 < h
}

/// The settled ones among the first `n` neighbours of `c` inside a `w` x `h` grid.
pub open spec fn settled_among(m: Map<(u32, u32), Seq<(u32, u32)>>, w: u32, h: u32, c: (u32, u32), n: int) -> Seq<(u32, u32)>
    decreases n,
{
    if n <= 0 {
        Seq::empty()
    } else {
        let prev = settled_among(m, w, h, c, n - 1);
        let q = step_to(c, n - 1);
        if in_grid(q, w, h) && m.contains_key((q.0 as u32, q.1 as u32)) {
            prev.push((q.0 as u32, q.1 as u32))
        } else {
            prev
        }
    }
}

/// The free ones among the first `n` neighbours of `c` inside a `w` x `h` grid.
pub open spec fn free_among(m: Map<(u32, u32), Seq<(u32, u32)>>, w: u32, h: u32, c: (u32, u32), n: int) -> Seq<(u32, u32)>
    decreases n,
{
    if n <= 0 {
        Seq::empty()
    } else {
        let prev = free_among(m, w, h, c, n - 1);
        let q = step_to(c, n - 1);
        if in_grid(q, w, h) && !m.contains_key((q.0 as u32, q.1 as u32)) {
            prev.push((q.0 as u32, q.1 as u32))
        } else {
            prev
        }
    }
}

/// Fixed-point scale of the absorption coefficient: `t` stands for
/// `t / ABSORPTION_SCALE`.
pub const ABSORPTION_SCALE: u32 = 1000000;

pub open spec fn pow(b: int, e: nat) -> int
    decreases e,
{
    if e == 0 { 1 } else { b * pow(b, (e - 1) as nat) }
}

/// The settling probability `min(1, (t / ABSORPTION_SCALE)^(neighbours - settled))`
/// as a fraction `(numerator, denominator)`.
pub fn absorption(t: u32, neighbours: u32, settled: u32) -> (r: (u64, u64))
    requires
        t <= ABSORPTION_SCALE,
        settled <= neighbours <= settled + 3,
    ensures
        r.0 == pow(t as int, (neighbours - settled) as nat),
        r.1 == pow(ABSORPTION_SCALE as int, (neighbours - settled) as nat),
        r.0 <= r.1,
        r.1 > 0,
{
    let e = neighbours - settled;
    let mut num: u64 = 1;
    let mut den: u64 = 1;
    let mut i: u32 = 0;
    while i < e
        invariant
            0 <= i <= e <= 3,
            t <= ABSORPTION_SCALE,
            num == pow(t as int, i as nat),
            den == pow(ABSORPTION_SCALE as int, i as nat),
            num <= den,
            i == 0 ==> den == 1,
            i == 1 ==> den == 1000000,
            i == 2 ==> den == 1000000000000,
            i == 3 ==> den == 1000000000000000000,
        decreases e - i,
    {
        proof {
            assert(num * t <= den * 1000000) by (nonlinear_arith)
                requires
                    num <= den,
                    t <= 1000000,
            ;
            assert(pow(t as int, (i + 1) as nat) == t * pow(t as int, i as nat));
            assert(pow(1000000, (i + 1) as nat) == 1000000 * pow(1000000, i as nat));
        }
        num = num * t as u64;
        den = den * ABSORPTION_SCALE as u64;
        i = i + 1;
    }
    (num, den)
}

/// Relies on rand's `thread_rng` and `Rng::gen_range`: a value drawn from `0..n`.
#[verifier::external_body]
fn random_below(n: u64) -> (r: u64)
    requires
        n > 0,
    ensures
        r < n,
{
    rand::thread_rng().gen_range(0..n)
}

proof fn lemma_neighbourhood(m: Map<(u32, u32), Seq<(u32, u32)>>, w: u32, h: u32, c: (u32, u32), n: int)
    requires
        0 <= n <= 4,
    ensures
        settled_among(m, w, h, c, n).len() <= n,
        forall|i: int| 0 <= i < settled_among(m, w, h, c, n).len() ==> {
            &&& m.contains_key(#[trigger] settled_among(m, w, h, c, n)[i])
            &&& adjacent(settled_among(m, w, h, c, n)[i], c)
        },
        forall|i: int| 0 <= i < free_among(m, w, h, c, n).len() ==> {
            &&& !m.contains_key(#[trigger] free_among(m, w, h, c, n)[i])
            &&& free_among(m, w, h, c, n)[i].0 < w && free_among(m, w, h, c, n)[i].1 < h
        },
    decreases n,
{
    if n > 0 {
        lemma_neighbourhood(m, w, h, c, n - 1);
        let prev = free_among(m, w, h, c, n - 1);
        let q = step_to(c, n - 1);
        let cur = free_among(m, w, h, c, n);
        assert forall|i: int| 0 <= i < cur.len() implies {
            &&& !m.contains_key(#[trigger] cur[i])
            &&& cur[i].0 < w && cur[i].1 < h
        } by {
            if i < prev.len() {
                assert(cur[i] == prev[i]);
            }
        }
    }
}

/// What a walker does next.
#[derive(Clone, Copy, Debug, PartialEq, Eq, Structural)]
pub enum WalkDecision {
    /// Settle where it stands, linked from its first settled neighbour.
    Settle,
    /// Move to the free neighbour with this index.
    Move(usize),
    /// Stay put: no neighbour is free and it did not settle.
    Stay,
}

/// The decision for a walker with `settled` settled and `free` free neighbours,
/// given `accept_draw`, drawn from `0..ABSORPTION_SCALE^(4 - settled)`, and
/// `move_draw`, drawn from `0..free`.
pub open spec fn decision_of(settled: int, free: int, t: int, accept_draw: int, move_draw: int) -> WalkDecision {
    if settled >= 4 || (settled > 0 && accept_draw < pow(t, (4 - settled) as nat)) {
        WalkDecision::Settle
    } else if free > 0 {
        WalkDecision::Move(move_draw as usize)
    } else {
        WalkDecision::Stay
    }
}

/// Decides a walker's next step: it settles for sure with four settled
/// neighbours, and with one to three when `accept_draw` falls below
/// `t^(4 - settled)` (so with probability `(t / ABSORPTION_SCALE)^(4 - settled)`);
/// otherwise it moves to free neighbour `move_draw`, or stays when none is free.
pub fn walk_decision(settled: usize, free: usize, t: u32, accept_draw: u64, move_draw: usize) -> (r: WalkDecision)
    requires
        settled <= 4,
        t <= ABSORPTION_SCALE,
        free > 0 ==> move_draw < free,
    ensures
        r == decision_of(settled as int, free as int, t as int, accept_draw as int, move_draw as int),
        r matches WalkDecision::Move(i) ==> i < free,
{
    if settled >= 4 {
        return WalkDecision::Settle;
    }
    if settled > 0 {
        let (num, _den) = absorption(t, 4, settled as u32);
        if accept_draw < num {
            return WalkDecision::Settle;
        }
    }
    if free > 0 {
        WalkDecision::Move(move_draw)
    } else {
        WalkDecision::Stay
    }
}

/// The settled in-grid neighbours of `c` in `map`, north, west, east, south.
pub open spec fn settled_neighbours(map: ParticleMap, c: (u32, u32)) -> Seq<(u32, u32)> {
    settled_among(map@, map.width_spec(), map.height_spec(), c, 4)
}

/// How a walk ended.
#[derive(Clone, Copy, Debug, PartialEq, Eq)]
pub enum WalkOutcome {
    /// The walker settled at the first cell, linked to the second.
    Settled((u32, u32), (u32, u32)),
    /// The walker spent its moves and was dropped at this cell, which has no
    /// settled neighbour.
    Dropped((u32, u32)),
}

/// Lets a walker go from `pos` until it settles or `params.walk_limit` moves
/// are spent. A walker with `k` settled neighbours settles with probability
/// `min(1, t^(4 - k))`, `t` being `params.t / ABSORPTION_SCALE`, and for sure
/// when all four are settled; otherwise it moves to a free neighbour chosen
/// uniformly. A settling walker becomes a particle linked to its first settled
/// neighbour (north, west, east, south), toward the aggregate's root. When the
/// moves are spent it settles if it has a settled neighbour; otherwise it is
/// dropped where it stands.
///
/// A walker that starts next to the aggregate settles where it starts when all
/// four neighbours are settled, when `t` is 1, or when it may make no move; a
/// walker that may make no move and starts away from the aggregate is dropped.
pub fn walk(
    pos: &Point,
    params: &DiffusionLimitedAggregationParams,
    map: &mut ParticleMap,
) -> (r: WalkOutcome)
    requires
        old(map).wf(),
        old(map).in_bounds(pos.key_spec()),
        !old(map)@.contains_key(pos.key_spec()),
        0 < params.t <= ABSORPTION_SCALE,
    ensures
        final(map).wf(),
        final(map).width_spec() == old(map).width_spec(),
        final(map).height_spec() == old(map).height_spec(),
        r matches WalkOutcome::Settled(c, l) ==> {
            &&& old(map).in_bounds(c)
            &&& !old(map)@.contains_key(c)
            &&& settled_neighbours(*old(map), c).len() > 0
            &&& l == settled_neighbours(*old(map), c)[0]
            &&& final(map)@ == old(map)@.insert(c, seq![l])
        },
        r matches WalkOutcome::Dropped(q) ==> {
            &&& final(map)@ == old(map)@
            &&& old(map).in_bounds(q)
            &&& !old(map)@.contains_key(q)
            &&& settled_neighbours(*old(map), q).len() == 0
            &&& (params.walk_limit == 0 ==> q == pos.key_spec())
        },
        settled_neighbours(*old(map), pos.key_spec()).len() > 0 && (settled_neighbours(
            *old(map),
            pos.key_spec(),
        ).len() == 4 || params.t == ABSORPTION_SCALE || params.walk_limit == 0) ==> r
            == WalkOutcome::Settled(pos.key_spec(), settled_neighbours(*old(map), pos.key_spec())[0]),
{
    let mut current: (u32, u32) = pos.key();
    let mut steps: u64 = 0;
    let ghost start = settled_neighbours(*map, pos.key_spec());
    while steps < params.walk_limit
        invariant
            map.wf(),
            *map == *old(map),
            map.in_bounds(current),
            !map@.contains_key(current),
            0 < params.t <= ABSORPTION_SCALE,
            start == settled_neighbours(*old(map), pos.key_spec()),
            steps <= params.walk_limit,
            steps == 0 ==> current == pos.key_spec(),
            steps > 0 ==> !(start.len() > 0 && (start.len() == 4 || params.t == ABSORPTION_SCALE)),
        decreases params.walk_limit - steps,
    {
        let (settled, free) = map.neighbourhood(current);
        proof {
            lemma_neighbourhood(map@, map.width_spec(), map.height_spec(), current, 4);
        }
        let accept_draw = if settled.len() > 0 {
            let (_num, den) = absorption(params.t, 4, settled.len() as u32);
            proof {
                if params.t == ABSORPTION_SCALE {
                    assert(_num == den);
                }
            }
            random_below(den)
        } else {
            0
        };
        let move_draw = if free.len() > 0 {
            random_below(free.len() as u64) as usize
        } else {
            0
        };
        match walk_decision(settled.len(), free.len(), params.t, accept_draw, move_draw) {
            WalkDecision::Settle => {
                let l = settled[0];
                map.attach(current, l);
                return WalkOutcome::Settled(current, l);
            },
            WalkDecision::Move(i) => {
                current = free[i];
            },
            WalkDecision::Stay => {},
        }
        steps = steps + 1;
    }
    let (settled, _free) = map.neighbourhood(current);
    proof {
        lemma_neighbourhood(map@, map.width_spec(), map.height_spec(), current, 4);
    }
    if settled.len() > 0 {
        let l = settled[0];
        map.attach(current, l);
        WalkOutcome::Settled(current, l)
    } else {
        WalkOutcome::Dropped(current)
    }
}

/// Attempts at finding a free cell before a walker falls back to `(0, 0)`.
pub const SPAWN_ATTEMPTS: u32 = 10000;

/// The first of `draws` that is free in `m`, or `(0, 0)` when every one is
/// settled.
pub open spec fn first_free(m: Map<(u32, u32), Seq<(u32, u32)>>, draws: Seq<(u32, u32)>) -> (u32, u32)
    decreases draws.len(),
{
    if draws.len() == 0 {
        (0, 0)
    } else if !m.contains_key(draws[0]) {
        draws[0]
    } else {
        first_free(m, draws.drop_first())
    }
}

/// Picks the first drawn cell that is free in `map`, or `(0, 0)` when every
/// drawn cell is settled.
pub fn pick_free(draws: &Vec<(u32, u32)>, map: &ParticleMap) -> (r: Point)
    requires
        map.wf(),
    ensures
        r.key_spec() == first_free(map@, draws@),
{
    let mut i: usize = 0;
    assert(draws@.subrange(0, draws@.len() as int) =~= draws@);
    while i < draws.len()
        invariant
            map.wf(),
            0 <= i <= draws@.len(),
            first_free(map@, draws@) == first_free(map@, draws@.subrange(i as int, draws@.len() as int)),
        decreases draws@.len() - i,
    {
        let d = draws[i];
        proof {
            let rest = draws@.subrange(i as int, draws@.len() as int);
            assert(rest[0] == d);
            assert(rest.drop_first() =~= draws@.subrange(i as int + 1, draws@.len() as int));
        }
        if !map.contains(d.0, d.1) {
            return Point::new(d.0, d.1);
        }
        i = i + 1;
    }
    proof {
        assert(draws@.subrange(i as int, draws@.len() as int) =~= Seq::<(u32, u32)>::empty());
    }
    Point::new(0, 0)
}

/// Draws cells of a `width` x `height` grid uniformly until one is free, at
/// most `SPAWN_ATTEMPTS` times, and returns what `pick_free` picks from the
/// draws: the free cell, or `(0, 0)`, which may be settled, when every draw
/// hit a settled cell.
pub fn random_particle(height: u32, width: u32, map: &ParticleMap) -> (r: Point)
    requires
        map.wf(),
        width > 0 && height > 0,
    ensures
        r.x < width && r.y < height,
        !map@.contains_key(r.key_spec()) || (r.x == 0 && r.y == 0),
        exists|draws: Seq<(u32, u32)>|
            {
                &&& draws.len() <= SPAWN_ATTEMPTS
                &&& forall|i: int| 0 <= i < draws.len() ==> (#[trigger] draws[i]).0 < width && draws[i].1 < height
                &&& r.key_spec() == first_free(map@, draws)
            },
{
    let mut draws: Vec<(u32, u32)> = Vec::new();
    let mut i: u32 = 0;
    while i < SPAWN_ATTEMPTS
        invariant
            map.wf(),
            width > 0 && height > 0,
            0 <= i <= SPAWN_ATTEMPTS,
            draws@.len() <= i,
            forall|j: int| 0 <= j < draws@.len() ==> (#[trigger] draws@[j]).0 < width && draws@[j].1 < height,
        decreases SPAWN_ATTEMPTS - i,
    {
        let d = (random_below(width as u64) as u32, random_below(height as u64) as u32);
        draws.push(d);
        if !map.contains(d.0, d.1) {
            i = SPAWN_ATTEMPTS;
        } else {
            i = i + 1;
        }
    }
    let r = pick_free(&draws, map);
    proof {
        lemma_first_free_shape(map@, draws@, width, height);
    }
    r
}

proof fn lemma_first_free_shape(m: Map<(u32, u32), Seq<(u32, u32)>>, draws: Seq<(u32, u32)>, width: u32, height: u32)
    requires
        width > 0 && height > 0,
        forall|j: int| 0 <= j < draws.len() ==> (#[trigger] draws[j]).0 < width && draws[j].1 < height,
    ensures
        first_free(m, draws).0 < width && first_free(m, draws).1 < height,
        !m.contains_key(first_free(m, draws)) || first_free(m, draws) == (0u32, 0u32),
    decreases draws.len(),
{
    if draws.len() > 0 && m.contains_key(draws[0]) {
        let rest = draws.drop_first();
        assert forall|j: int| 0 <= j < rest.len() implies (#[trigger] rest[j]).0 < width && rest[j].1 < height by {
            assert(rest[j] == draws[j + 1]);
        }
        lemma_first_free_shape(m, rest, width, height);
    }
}

/// `new` keeps every particle of `old`, with its links.
pub open spec fn grows_from(old: Map<(u32, u32), Seq<(u32, u32)>>, new: Map<(u32, u32), Seq<(u32, u32)>>) -> bool {
    forall|k: (u32, u32)| #[trigger] old.contains_key(k) ==> new.contains_key(k) && new[k] == old[k]
}

/// Releases one walker from the drawn cell `start`: when `start` is free the
/// walker walks from there and its outcome comes back; when `start` is
/// settled no walker is released and `None` comes back.
pub fn release(start: Point, params: &DiffusionLimitedAggregationParams, map: &mut ParticleMap) -> (r: Option<WalkOutcome>)
    requires
        old(map).wf(),
        old(map).in_bounds(start.key_spec()),
        0 < params.t <= ABSORPTION_SCALE,
    ensures
        final(map).wf(),
        final(map).width_spec() == old(map).width_spec(),
        final(map).height_spec() == old(map).height_spec(),
        (r is None) == old(map)@.contains_key(start.key_spec()),
        r matches Some(WalkOutcome::Settled(c, l)) ==> {
            &&& old(map).in_bounds(c)
            &&& !old(map)@.contains_key(c)
            &&& old(map)@.contains_key(l)
            &&& adjacent(c, l)
            &&& final(map)@ == old(map)@.insert(c, seq![l])
        },
        !(r matches Some(WalkOutcome::Settled(_, _))) ==> final(map)@ == old(map)@,
{
    if map.contains(start.x, start.y) {
        None
    } else {
        let outcome = walk(&start, params, map);
        proof {
            if let WalkOutcome::Settled(c, l) = outcome {
                lemma_neighbourhood(old(map)@, old(map).width_spec(), old(map).height_spec(), c, 4);
            }
        }
        Some(outcome)
    }
}

/// Releases `params.particles` walkers, one after another, each from a cell
/// drawn by `random_particle`; a walker whose drawn cell is settled (the draw
/// fell back to `(0, 0)`) is not released. Returns how many walkers settled,
/// which is how many particles the map gained.
pub fn populate(params: &DiffusionLimitedAggregationParams, map: &mut ParticleMap) -> (r: u32)
    requires
        old(map).wf(),
        0 < params.t <= ABSORPTION_SCALE,
    ensures
        final(map).wf(),
        final(map).width_spec() == old(map).width_spec(),
        final(map).height_spec() == old(map).height_spec(),
        grows_from(old(map)@, final(map)@),
        r <= params.particles,
        final(map)@.dom().len() == old(map)@.dom().len() + r,
{
    let mut settled: u32 = 0;
    let mut n: u32 = 0;
    let ghost m0 = map@;
    while n < params.particles
        invariant
            map.wf(),
            map.width_spec() == old(map).width_spec(),
            map.height_spec() == old(map).height_spec(),
            grows_from(m0, map@),
            m0 == old(map)@,
            settled <= n <= params.particles,
            map@.dom().len() == m0.dom().len() + settled,
            0 < params.t <= ABSORPTION_SCALE,
        decreases params.particles - n,
    {
        proof {
            map.lemma_wf();
            map.lemma_dom_finite();
        }
        let ghost before = map@;
        let start = random_particle(map.height(), map.width(), map);
        let outcome = release(start, params, map);
        if let Some(WalkOutcome::Settled(c, _l)) = outcome {
            proof {
                assert(map@.dom() =~= before.dom().insert(c));
                assert forall|k: (u32, u32)| #[trigger] m0.contains_key(k) implies map@.contains_key(k) && map@[k] == m0[k] by {
                    assert(before.contains_key(k));
                }
            }
            settled = settled + 1;
        }
        n = n + 1;
    }
    settled
}

/// `new` is `old` at doubled resolution: each particle `p` moves to `2p` and
/// each of its links `p -> l` becomes `2p -> p + l -> 2l` through a bridge
/// particle at `p + l`; nothing else is settled.
pub open spec fn is_doubling(old: Map<(u32, u32), Seq<(u32, u32)>>, new: Map<(u32, u32), Seq<(u32, u32)>>) -> bool {
    &&& forall|p: (u32, u32)| #[trigger] old.contains_key(p) ==> {
        &&& new.contains_key(doubled(p))
        &&& new[doubled(p)] == old[p].map_values(|l: (u32, u32)| mid_of(p, l))
    }
    &&& forall|p: (u32, u32), j: int|
        #![trigger old[p][j]]
        old.contains_key(p) && 0 <= j < old[p].len() ==> {
            &&& new.contains_key(mid_of(p, old[p][j]))
            &&& new[mid_of(p, old[p][j])] == seq![doubled(old[p][j])]
        }
    &&& forall|c: (u32, u32)| #[trigger] new.contains_key(c) ==> {
        ||| exists|p: (u32, u32)| #[trigger] old.contains_key(p) && c == doubled(p)
        ||| exists|p: (u32, u32), j: int|
            #![trigger old[p][j]]
            old.contains_key(p) && 0 <= j < old[p].len() && c == mid_of(p, old[p][j])
    }
}

/// Coordinates small enough that doubling and midpoints cannot overflow.
pub open spec fn small(a: (u32, u32)) -> bool {
    a.0 < 0x7fffffff && a.1 < 0x7fffffff
}

proof fn lemma_mid_unique(p: (u32, u32), l: (u32, u32), q: (u32, u32), k: (u32, u32))
    requires
        small(p) && small(l) && small(q) && small(k),
        adjacent(p, l),
        adjacent(q, k),
        mid_of(p, l) == mid_of(q, k),
    ensures
        (p == q && l == k) || (p == k && l == q),
{
}

proof fn lemma_mid_not_doubled(p: (u32, u32), l: (u32, u32), q: (u32, u32))
    requires
        small(p) && small(l) && small(q),
        adjacent(p, l),
    ensures
        mid_of(p, l) != doubled(q),
{
}

/// The cells of `old` before grid index `i` are doubled into `out`, and `out`
/// holds nothing else.
pub open spec fn scaled_upto(old: Map<(u32, u32), Seq<(u32, u32)>>, out: Map<(u32, u32), Seq<(u32, u32)>>, w: int, i: int) -> bool {
    &&& forall|p: (u32, u32)|
        #[trigger] old.contains_key(p) && grid_index(p.0 as int, p.1 as int, w) < i ==> {
            &&& out.contains_key(doubled(p))
            &&& out[doubled(p)] == old[p].map_values(|l: (u32, u32)| mid_of(p, l))
        }
    &&& forall|p: (u32, u32), j: int|
        #![trigger old[p][j]]
        old.contains_key(p) && grid_index(p.0 as int, p.1 as int, w) < i && 0 <= j < old[p].len() ==> {
            &&& out.contains_key(mid_of(p, old[p][j]))
            &&& out[mid_of(p, old[p][j])] == seq![doubled(old[p][j])]
        }
    &&& forall|c: (u32, u32)| #[trigger] out.contains_key(c) ==> {
        ||| exists|p: (u32, u32)|
            #[trigger] old.contains_key(p) && grid_index(p.0 as int, p.1 as int, w) < i && c == doubled(p)
        ||| exists|p: (u32, u32), j: int|
            #![trigger old[p][j]]
            old.contains_key(p) && grid_index(p.0 as int, p.1 as int, w) < i && 0 <= j < old[p].len()
                && c == mid_of(p, old[p][j])
    }
}

/// Doubles the particle in grid cell `i` of `map` into `out`: its bridges, then
/// its own image.
fn double_cell(map: &ParticleMap, i: usize, out: &mut ParticleMap)
    requires
        map.wf(),
        i < map.cells@.len(),
        map.cells@[i as int] is Some,
        2 * map.width < 0x7fffffff && 2 * map.height < 0x7fffffff,
        old(out).shape_ok(),
        old(out).width == 2 * map.width && old(out).height == 2 * map.height,
        scaled_upto(map@, old(out)@, map.width as int, i as int),
    ensures
        final(out).shape_ok(),
        final(out).width == old(out).width && final(out).height == old(out).height,
        scaled_upto(map@, final(out)@, map.width as int, i + 1),
{
    let w = map.width;
    let h = map.height;
    let ghost old = map@;
    let factor: u32 = 2;
    let part = match &map.cells[i] {
        Some(part) => part,
        None => {
            return;
        },
    };
    let p = part.point;
    let ghost pk = p.key_spec();
    proof {
        lemma_grid_coords(i as int, w as int, h as int);
        assert(old.contains_key(pk));
        assert(part.linked@ == old[pk]);
        map.lemma_wf();
        assert(pk.0 < w && pk.1 < h);
        lemma_grid_index(pk.0 as int, pk.1 as int, w as int, h as int);
        assert forall|q: (u32, u32)| #[trigger] old.contains_key(q) && grid_index(q.0 as int, q.1 as int, w as int) == i implies q == pk by {
            lemma_grid_index(q.0 as int, q.1 as int, w as int, h as int);
        }
    }
    let mut scaled = Particle::new(p.scale(factor));
    let mut j: usize = 0;
    while j < part.linked.len()
        invariant
            map.wf(),
            old == map@,
            w == map.width && h == map.height,
            factor == 2,
            2 * w < 0x7fffffff && 2 * h < 0x7fffffff,
            old.contains_key(pk),
            pk == p.key_spec(),
            part.linked@ == old[pk],
            grid_index(pk.0 as int, pk.1 as int, w as int) == i,
            0 <= j <= old[pk].len(),
            out.shape_ok(),
            out.width == 2 * w && out.height == 2 * h,
            scaled.point.key_spec() == doubled(pk),
            scaled.linked@ == old[pk].take(j as int).map_values(|l: (u32, u32)| mid_of(pk, l)),
            forall|q: (u32, u32)| #[trigger] old.contains_key(q) && grid_index(q.0 as int, q.1 as int, w as int) == i ==> q == pk,
            forall|q: (u32, u32)|
                #[trigger] old.contains_key(q) && grid_index(q.0 as int, q.1 as int, w as int) < i ==> {
                    &&& out@.contains_key(doubled(q))
                    &&& out@[doubled(q)] == old[q].map_values(|l: (u32, u32)| mid_of(q, l))
                },
            forall|q: (u32, u32), t: int|
                #![trigger old[q][t]]
                old.contains_key(q) && (grid_index(q.0 as int, q.1 as int, w as int) < i || (q == pk && t < j)) && 0 <= t < old[q].len() ==> {
                    &&& out@.contains_key(mid_of(q, old[q][t]))
                    &&& out@[mid_of(q, old[q][t])] == seq![doubled(old[q][t])]
                },
            forall|c: (u32, u32)| #[trigger] out@.contains_key(c) ==> {
                ||| exists|q: (u32, u32)|
                    #[trigger] old.contains_key(q) && grid_index(q.0 as int, q.1 as int, w as int) < i && c == doubled(q)
                ||| exists|q: (u32, u32), t: int|
                    #![trigger old[q][t]]
                    old.contains_key(q) && (grid_index(q.0 as int, q.1 as int, w as int) < i || (q == pk && t < j)) && 0 <= t < old[q].len()
                        && c == mid_of(q, old[q][t])
            },
        decreases old[pk].len() - j,
    {
        let link = part.linked[j];
        let ghost lk = link;
        proof {
            assert(old[pk][j as int] == lk);
            assert(adjacent(pk, lk) && old.contains_key(lk) && !old[lk].contains(pk));
            map.lemma_wf();
            assert(lk.0 < w && lk.1 < h);
            lemma_grid_index(pk.0 as int, pk.1 as int, w as int, h as int);
        }
        let middle = p.mid(&Point::new(link.0, link.1));
        let mut bridge = Particle::new(middle);
        bridge.link((link.0 * factor, link.1 * factor));
        let ghost before = out@;
        out.put(bridge);
        scaled.link(middle.key());
        proof {
            let b = mid_of(pk, lk);
            assert(scaled.linked@ =~= old[pk].take(j as int + 1).map_values(|l: (u32, u32)| mid_of(pk, l)));
            assert forall|q: (u32, u32)|
                #[trigger] old.contains_key(q) && grid_index(q.0 as int, q.1 as int, w as int) < i implies {
                    &&& out@.contains_key(doubled(q))
                    &&& out@[doubled(q)] == old[q].map_values(|l: (u32, u32)| mid_of(q, l))
                } by {
                lemma_mid_not_doubled(pk, lk, q);
            }
            assert forall|q: (u32, u32), t: int|
                #![trigger old[q][t]]
                old.contains_key(q) && (grid_index(q.0 as int, q.1 as int, w as int) < i || (q == pk && t < j + 1)) && 0 <= t < old[q].len() implies {
                    &&& out@.contains_key(mid_of(q, old[q][t]))
                    &&& out@[mid_of(q, old[q][t])] == seq![doubled(old[q][t])]
                } by {
                if mid_of(q, old[q][t]) == b {
                    lemma_grid_index(q.0 as int, q.1 as int, w as int, h as int);
                    lemma_mid_unique(q, old[q][t], pk, lk);
                    if q == lk {
                        assert(old[lk].contains(pk));
                    }
                }
            }
            assert forall|c: (u32, u32)| #[trigger] out@.contains_key(c) implies {
                ||| exists|q: (u32, u32)|
                    #[trigger] old.contains_key(q) && grid_index(q.0 as int, q.1 as int, w as int) < i && c == doubled(q)
                ||| exists|q: (u32, u32), t: int|
                    #![trigger old[q][t]]
                    old.contains_key(q) && (grid_index(q.0 as int, q.1 as int, w as int) < i || (q == pk && t < j + 1)) && 0 <= t < old[q].len()
                        && c == mid_of(q, old[q][t])
            } by {
                if c == b {
                    assert(old[pk][j as int] == lk);
                } else {
                    assert(before.contains_key(c));
                }
            }
        }
        j = j + 1;
    }
    proof {
        assert(old[pk].take(j as int) =~= old[pk]);
    }
    let ghost before = out@;
    out.put(scaled);
    proof {
        assert forall|q: (u32, u32)|
            #[trigger] old.contains_key(q) && grid_index(q.0 as int, q.1 as int, w as int) < i + 1 implies {
                &&& out@.contains_key(doubled(q))
                &&& out@[doubled(q)] == old[q].map_values(|l: (u32, u32)| mid_of(q, l))
            } by {
            if doubled(q) == doubled(pk) {
                assert(q == pk);
            }
        }
        assert forall|q: (u32, u32), t: int|
            #![trigger old[q][t]]
            old.contains_key(q) && grid_index(q.0 as int, q.1 as int, w as int) < i + 1 && 0 <= t < old[q].len() implies {
                &&& out@.contains_key(mid_of(q, old[q][t]))
                &&& out@[mid_of(q, old[q][t])] == seq![doubled(old[q][t])]
            } by {
            assert(adjacent(q, old[q][t]) && old.contains_key(old[q][t]));
            lemma_grid_index(old[q][t].0 as int, old[q][t].1 as int, w as int, h as int);
            lemma_grid_index(q.0 as int, q.1 as int, w as int, h as int);
            lemma_mid_not_doubled(q, old[q][t], pk);
        }
        assert forall|c: (u32, u32)| #[trigger] out@.contains_key(c) implies {
            ||| exists|q: (u32, u32)|
                #[trigger] old.contains_key(q) && grid_index(q.0 as int, q.1 as int, w as int) < i + 1 && c == doubled(q)
            ||| exists|q: (u32, u32), t: int|
                #![trigger old[q][t]]
                old.contains_key(q) && grid_index(q.0 as int, q.1 as int, w as int) < i + 1 && 0 <= t < old[q].len()
                    && c == mid_of(q, old[q][t])
        } by {
            if c != doubled(pk) {
                assert(before.contains_key(c));
            }
        }
    }
}

/// Doubles the resolution of a settled aggregate (`factor` must be 2): every
/// particle `p` moves to `2p`, and every link `p -> l` is replaced by a bridge
/// particle at `p + l`, the midpoint of `2p` and `2l`, so that `2p -> p + l -> 2l`
/// stays a path of 4-neighbours.
pub fn scale_particle_map(factor: u32, map: &ParticleMap) -> (r: ParticleMap)
    requires
        factor == 2,
        map.wf(),
        2 * map.width_spec() < 0x7fffffff,
        2 * map.height_spec() < 0x7fffffff,
        (2 * map.width_spec()) * (2 * map.height_spec()) < usize::MAX,
    ensures
        r.wf(),
        r.width_spec() == 2 * map.width_spec(),
        r.height_spec() == 2 * map.height_spec(),
        is_doubling(map@, r@),
{
    let w = map.width;
    let h = map.height;
    let ghost old = map@;
    let mut out = ParticleMap::new(w * factor, h * factor);
    let mut i: usize = 0;
    while i < map.cells.len()
        invariant
            map.wf(),
            old == map@,
            w == map.width && h == map.height,
            factor == 2,
            2 * w < 0x7fffffff && 2 * h < 0x7fffffff,
            0 <= i <= map.cells@.len(),
            out.shape_ok(),
            out.width == 2 * w && out.height == 2 * h,
            scaled_upto(old, out@, w as int, i as int),
        decreases map.cells@.len() - i,
    {
        match &map.cells[i] {
            None => {
                proof {
                    lemma_grid_coords(i as int, w as int, h as int);
                    assert forall|p: (u32, u32)| #[trigger] old.contains_key(p) implies grid_index(p.0 as int, p.1 as int, w as int) != i by {
                        lemma_grid_index(p.0 as int, p.1 as int, w as int, h as int);
                    }
                }
            },
            Some(_) => {
                double_cell(map, i, &mut out);
            },
        }
        i = i + 1;
    }
    proof {
        lemma_doubling_result(map, &out);
    }
    out
}

proof fn lemma_doubling_result(map: &ParticleMap, out: &ParticleMap)
    requires
        map.wf(),
        out.shape_ok(),
        2 * map.width < 0x7fffffff && 2 * map.height < 0x7fffffff,
        out.width == 2 * map.width && out.height == 2 * map.height,
        forall|p: (u32, u32)|
            #[trigger] map@.contains_key(p) && grid_index(p.0 as int, p.1 as int, map.width as int) < map.cells@.len() ==> {
                &&& out@.contains_key(doubled(p))
                &&& out@[doubled(p)] == map@[p].map_values(|l: (u32, u32)| mid_of(p, l))
            },
        forall|p: (u32, u32), j: int|
            #![trigger map@[p][j]]
            map@.contains_key(p) && grid_index(p.0 as int, p.1 as int, map.width as int) < map.cells@.len() && 0 <= j < map@[p].len() ==> {
                &&& out@.contains_key(mid_of(p, map@[p][j]))
                &&& out@[mid_of(p, map@[p][j])] == seq![doubled(map@[p][j])]
            },
        forall|c: (u32, u32)| #[trigger] out@.contains_key(c) ==> {
            ||| exists|p: (u32, u32)|
                #[trigger] map@.contains_key(p) && grid_index(p.0 as int, p.1 as int, map.width as int) < map.cells@.len() && c == doubled(p)
            ||| exists|p: (u32, u32), j: int|
                #![trigger map@[p][j]]
                map@.contains_key(p) && grid_index(p.0 as int, p.1 as int, map.width as int) < map.cells@.len() && 0 <= j < map@[p].len()
                    && c == mid_of(p, map@[p][j])
        },
    ensures
        out.wf(),
        is_doubling(map@, out@),
{
    lemma_doubling_result_shape(map, out);
    map.lemma_wf();
    let f = choose|f: spec_fn((u32, u32)) -> int| is_height_assignment(map@, f);
    lemma_doubling_assignment(map@, out@, f);
}

proof fn lemma_doubling_result_shape(map: &ParticleMap, out: &ParticleMap)
    requires
        map.wf(),
        out.shape_ok(),
        2 * map.width < 0x7fffffff && 2 * map.height < 0x7fffffff,
        out.width == 2 * map.width && out.height == 2 * map.height,
        scaled_upto(map@, out@, map.width as int, map.cells@.len() as int),
    ensures
        out.shape_ok(),
        is_aggregate(out@),
        is_doubling(map@, out@),
{
    let old = map@;
    let new = out@;
    let w = map.width as int;
    let h = map.height as int;
    map.lemma_wf();
    assert forall|p: (u32, u32)| #[trigger] old.contains_key(p) implies grid_index(p.0 as int, p.1 as int, w) < map.cells@.len() by {
        lemma_grid_index(p.0 as int, p.1 as int, w, h);
    }
    assert forall|p: (u32, u32), j: int|
        #![trigger old[p][j]]
        old.contains_key(p) && 0 <= j < old[p].len() implies {
            &&& new.contains_key(mid_of(p, old[p][j]))
            &&& new[mid_of(p, old[p][j])] == seq![doubled(old[p][j])]
        } by {
        assert(grid_index(p.0 as int, p.1 as int, w) < map.cells@.len());
    }
    assert forall|c: (u32, u32)| #[trigger] new.contains_key(c) implies {
        ||| exists|p: (u32, u32)| #[trigger] old.contains_key(p) && c == doubled(p)
        ||| exists|p: (u32, u32), j: int|
            #![trigger old[p][j]]
            old.contains_key(p) && 0 <= j < old[p].len() && c == mid_of(p, old[p][j])
    } by {
    }
    lemma_doubling_aggregate(old, new, w, h);
}

proof fn lemma_doubling_aggregate(
    old: Map<(u32, u32), Seq<(u32, u32)>>,
    new: Map<(u32, u32), Seq<(u32, u32)>>,
    w: int,
    h: int,
)
    requires
        is_aggregate(old),
        is_doubling(old, new),
        2 * w < 0x7fffffff && 2 * h < 0x7fffffff,
        forall|k: (u32, u32)| #[trigger] old.contains_key(k) ==> k.0 < w && k.1 < h,
    ensures
        is_aggregate(new),
{
    assert forall|c: (u32, u32), j: int|
        #![trigger new[c][j]]
        new.contains_key(c) && 0 <= j < new[c].len() implies {
            &&& adjacent(c, new[c][j])
            &&& new.contains_key(new[c][j])
            &&& !new[new[c][j]].contains(c)
        } by {
        if exists|p: (u32, u32)| #[trigger] old.contains_key(p) && c == doubled(p) {
            let p = choose|p: (u32, u32)| #[trigger] old.contains_key(p) && c == doubled(p);
            let l = old[p][j];
            assert(new[c][j] == mid_of(p, l));
            assert(adjacent(p, l) && old.contains_key(l));
            assert(new[mid_of(p, l)] == seq![doubled(l)]);
            if new[mid_of(p, l)].contains(c) {
                assert(doubled(l) == doubled(p));
            }
        } else {
            let (p, t) = choose|p: (u32, u32), t: int|
                #![trigger old[p][t]]
                old.contains_key(p) && 0 <= t < old[p].len() && c == mid_of(p, old[p][t]);
            let l = old[p][t];
            assert(adjacent(p, l) && old.contains_key(l) && !old[l].contains(p));
            assert(new[c] == seq![doubled(l)]);
            assert(j == 0);
            assert(new[c][j] == doubled(l));
            assert(new.contains_key(doubled(l)));
            if new[doubled(l)].contains(c) {
                let u = choose|u: int| 0 <= u < new[doubled(l)].len() && new[doubled(l)][u] == c;
                let v = old[l][u];
                assert(new[doubled(l)][u] == mid_of(l, v));
                assert(adjacent(l, v) && old.contains_key(v));
                lemma_mid_unique(l, v, p, l);
                assert(old[l].contains(p));
            }
        }
    }
}

proof fn lemma_max_over_doubled(
    f: spec_fn((u32, u32)) -> int,
    g: spec_fn((u32, u32)) -> int,
    p: (u32, u32),
    links: Seq<(u32, u32)>,
)
    requires
        forall|i: int| 0 <= i < links.len() ==> g(mid_of(p, #[trigger] links[i])) == 2 * f(links[i]),
        forall|i: int| 0 <= i < links.len() ==> f(#[trigger] links[i]) >= 0,
    ensures
        max_over(g, links.map_values(|l: (u32, u32)| mid_of(p, l))) == 2 * max_over(f, links),
    decreases links.len(),
{
    if links.len() > 0 {
        let d = links.drop_last();
        assert forall|i: int| 0 <= i < d.len() implies g(mid_of(p, #[trigger] d[i])) == 2 * f(d[i]) && f(d[i]) >= 0 by {
            assert(d[i] == links[i]);
        }
        lemma_max_over_doubled(f, g, p, d);
        assert(links.map_values(|l: (u32, u32)| mid_of(p, l)).drop_last() =~= d.map_values(|l: (u32, u32)| mid_of(p, l)));
        assert(g(mid_of(p, links[links.len() - 1])) == 2 * f(links[links.len() - 1]));
    }
}

/// The heights that doubling gives: `2 f(p) - 1` at `2p`, and `2 f(l)` at a
/// bridge whose one link is `2l`.
pub open spec fn doubled_height(new: Map<(u32, u32), Seq<(u32, u32)>>, f: spec_fn((u32, u32)) -> int, x: (u32, u32)) -> int {
    if !new.contains_key(x) {
        0
    } else if x.0 % 2 == 0 && x.1 % 2 == 0 {
        2 * f(((x.0 / 2) as u32, (x.1 / 2) as u32)) - 1
    } else {
        2 * f(((new[x][0].0 / 2) as u32, (new[x][0].1 / 2) as u32))
    }
}

proof fn lemma_doubled_height_images(
    old: Map<(u32, u32), Seq<(u32, u32)>>,
    new: Map<(u32, u32), Seq<(u32, u32)>>,
    f: spec_fn((u32, u32)) -> int,
    l: (u32, u32),
)
    requires
        is_doubling(old, new),
        is_height_assignment(old, f),
        old.contains_key(l),
        small(l),
    ensures
        doubled_height(new, f, doubled(l)) == 2 * f(l) - 1,
        f(l) >= 1,
{
    lemma_assignment_nonneg(old, f, l);
    assert(new.contains_key(doubled(l)));
}

proof fn lemma_doubled_height_bridges(
    old: Map<(u32, u32), Seq<(u32, u32)>>,
    new: Map<(u32, u32), Seq<(u32, u32)>>,
    f: spec_fn((u32, u32)) -> int,
    p: (u32, u32),
    j: int,
)
    requires
        is_aggregate(old),
        is_doubling(old, new),
        old.contains_key(p),
        0 <= j < old[p].len(),
        small(p),
        small(old[p][j]),
    ensures
        doubled_height(new, f, mid_of(p, old[p][j])) == 2 * f(old[p][j]),
        !(mid_of(p, old[p][j]).0 % 2 == 0 && mid_of(p, old[p][j]).1 % 2 == 0),
{
    let l = old[p][j];
    assert(adjacent(p, l));
    let m = mid_of(p, l);
    assert(new.contains_key(m) && new[m] == seq![doubled(l)]);
    assert(!(m.0 % 2 == 0 && m.1 % 2 == 0));
}

/// Doubling keeps a height assignment: `2p` gets `2 f(p) - 1` and the bridge
/// toward `2l` gets `2 f(l)`.
proof fn lemma_doubling_assignment(
    old: Map<(u32, u32), Seq<(u32, u32)>>,
    new: Map<(u32, u32), Seq<(u32, u32)>>,
    f: spec_fn((u32, u32)) -> int,
)
    requires
        is_aggregate(old),
        is_doubling(old, new),
        is_height_assignment(old, f),
        forall|k: (u32, u32)| #[trigger] old.contains_key(k) ==> small(k),
    ensures
        exists|g: spec_fn((u32, u32)) -> int| is_height_assignment(new, g),
{
    let g = |x: (u32, u32)| doubled_height(new, f, x);
    assert forall|x: (u32, u32)| #[trigger] g(x) == if new.contains_key(x) { 1 + max_over(g, new[x]) } else { 0 } by {
        if new.contains_key(x) {
            lemma_doubled_height_at(old, new, f, x);
        }
    }
    assert(is_height_assignment(new, g));
}

proof fn lemma_doubled_height_at(
    old: Map<(u32, u32), Seq<(u32, u32)>>,
    new: Map<(u32, u32), Seq<(u32, u32)>>,
    f: spec_fn((u32, u32)) -> int,
    x: (u32, u32),
)
    requires
        is_aggregate(old),
        is_doubling(old, new),
        is_height_assignment(old, f),
        forall|k: (u32, u32)| #[trigger] old.contains_key(k) ==> small(k),
        new.contains_key(x),
    ensures
        doubled_height(new, f, x) == 1 + max_over(|y: (u32, u32)| doubled_height(new, f, y), new[x]),
{
    if exists|p: (u32, u32)| #[trigger] old.contains_key(p) && x == doubled(p) {
        let p = choose|p: (u32, u32)| #[trigger] old.contains_key(p) && x == doubled(p);
        lemma_doubled_height_image_eq(old, new, f, p);
    } else {
        let (p, j) = choose|p: (u32, u32), j: int|
            #![trigger old[p][j]]
            old.contains_key(p) && 0 <= j < old[p].len() && x == mid_of(p, old[p][j]);
        let l = old[p][j];
        assert(old.contains_key(l));
        lemma_doubled_height_bridges(old, new, f, p, j);
        lemma_doubled_height_images(old, new, f, l);
        assert(new[x] == seq![doubled(l)]);
        lemma_max_over_single(|y: (u32, u32)| doubled_height(new, f, y), doubled(l));
    }
}

#[verifier::rlimit(30)]
proof fn lemma_doubled_height_image_eq(
    old: Map<(u32, u32), Seq<(u32, u32)>>,
    new: Map<(u32, u32), Seq<(u32, u32)>>,
    f: spec_fn((u32, u32)) -> int,
    p: (u32, u32),
)
    requires
        is_aggregate(old),
        is_doubling(old, new),
        is_height_assignment(old, f),
        forall|k: (u32, u32)| #[trigger] old.contains_key(k) ==> small(k),
        old.contains_key(p),
    ensures
        doubled_height(new, f, doubled(p)) == 1 + max_over(|y: (u32, u32)| doubled_height(new, f, y), new[doubled(p)]),
{
    let g = |y: (u32, u32)| doubled_height(new, f, y);
    let links = old[p];
    assert forall|i: int| 0 <= i < links.len() implies g(mid_of(p, #[trigger] links[i])) == 2 * f(links[i]) by {
        assert(old.contains_key(links[i]));
        lemma_doubled_height_bridges(old, new, f, p, i);
    }
    assert forall|i: int| 0 <= i < links.len() implies f(#[trigger] links[i]) >= 0 by {
        lemma_assignment_nonneg(old, f, links[i]);
    }
    lemma_max_over_doubled(f, g, p, links);
    lemma_doubled_height_images(old, new, f, p);
    assert(new[doubled(p)] == links.map_values(|l: (u32, u32)| mid_of(p, l)));
    assert(f(p) == 1 + max_over(f, links));
}

proof fn lemma_max_over_single(g: spec_fn((u32, u32)) -> int, t: (u32, u32))
    requires
        g(t) >= 0,
    ensures
        max_over(g, seq![t]) == g(t),
{
    assert(seq![t].drop_last() =~= Seq::<(u32, u32)>::empty());
    assert(seq![t].last() == t);
    assert(max_over(g, Seq::<(u32, u32)>::empty()) == 0);
}

/// Doubling keeps every path: each link `p -> l` of an aggregate becomes the two
/// links `2p -> m -> 2l` through exactly one bridge particle `m` at the midpoint
/// of `2p` and `2l`, and the three particles are successive 4-neighbours.
pub proof fn lemma_doubling_keeps_paths(
    old: Map<(u32, u32), Seq<(u32, u32)>>,
    new: Map<(u32, u32), Seq<(u32, u32)>>,
    p: (u32, u32),
    j: int,
)
    requires
        is_aggregate(old),
        is_doubling(old, new),
        old.contains_key(p),
        small(p),
        0 <= j < old[p].len(),
        small(old[p][j]),
    ensures
        ({
            let l = old[p][j];
            let m = mid_of(p, l);
            &&& new.contains_key(doubled(p))
            &&& new[doubled(p)].len() == old[p].len()
            &&& new[doubled(p)][j] == m
            &&& 2 * m.0 == doubled(p).0 + doubled(l).0
            &&& 2 * m.1 == doubled(p).1 + doubled(l).1
            &&& new.contains_key(m)
            &&& new[m] == seq![doubled(l)]
            &&& new.contains_key(doubled(l))
            &&& adjacent(doubled(p), m)
            &&& adjacent(m, doubled(l))
        }),
{
    let l = old[p][j];
    assert(adjacent(p, l) && old.contains_key(l));
    assert(new.contains_key(doubled(l)));
}

/// The height of particle `c` after `k` rounds of relaxation: 0 off the
/// aggregate and in round 0, else one more than the highest linked particle in
/// the round before.
pub open spec fn depth_at(m: Map<(u32, u32), Seq<(u32, u32)>>, k: nat, c: (u32, u32)) -> int
    decreases k, 0nat,
{
    if k == 0 || !m.contains_key(c) {
        0
    } else {
        1 + links_max(m, (k - 1) as nat, m[c])
    }
}

/// The highest round-`k` height among `links`, 0 when there are none.
pub open spec fn links_max(m: Map<(u32, u32), Seq<(u32, u32)>>, k: nat, links: Seq<(u32, u32)>) -> int
    decreases k, links.len() + 1,
{
    if links.len() == 0 {
        0
    } else {
        let a = links_max(m, k, links.drop_last());
        let b = depth_at(m, k, links.last());
        if a >= b { a } else { b }
    }
}

/// Rounds `k` and `k + 1` agree everywhere: the heights have settled.
pub open spec fn settled_at(m: Map<(u32, u32), Seq<(u32, u32)>>, k: nat) -> bool {
    forall|c: (u32, u32)| #[trigger] depth_at(m, k + 1, c) == depth_at(m, k, c)
}

proof fn lemma_links_max_bound(m: Map<(u32, u32), Seq<(u32, u32)>>, k: nat, links: Seq<(u32, u32)>)
    ensures
        0 <= links_max(m, k, links) <= k,
        forall|i: int| 0 <= i < links.len() ==> depth_at(m, k, #[trigger] links[i]) <= links_max(m, k, links),
    decreases k, links.len() + 1,
{
    if links.len() > 0 {
        lemma_links_max_bound(m, k, links.drop_last());
        lemma_depth_bound(m, k, links.last());
        assert forall|i: int| 0 <= i < links.len() implies depth_at(m, k, #[trigger] links[i]) <= links_max(m, k, links) by {
            if i < links.len() - 1 {
                assert(links.drop_last()[i] == links[i]);
            }
        }
    }
}

proof fn lemma_depth_bound(m: Map<(u32, u32), Seq<(u32, u32)>>, k: nat, c: (u32, u32))
    ensures
        0 <= depth_at(m, k, c) <= k,
    decreases k, 0nat,
{
    if k > 0 && m.contains_key(c) {
        lemma_links_max_bound(m, (k - 1) as nat, m[c]);
    }
}

proof fn lemma_links_max_same(m: Map<(u32, u32), Seq<(u32, u32)>>, a: nat, b: nat, links: Seq<(u32, u32)>)
    requires
        forall|c: (u32, u32)| #[trigger] depth_at(m, a, c) == depth_at(m, b, c),
    ensures
        links_max(m, a, links) == links_max(m, b, links),
    decreases links.len(),
{
    if links.len() > 0 {
        lemma_links_max_same(m, a, b, links.drop_last());
        assert(depth_at(m, a, links.last()) == depth_at(m, b, links.last()));
    }
}

/// Once two successive rounds agree, every later round agrees with them.
proof fn lemma_settled_stays(m: Map<(u32, u32), Seq<(u32, u32)>>, k: nat, n: nat)
    requires
        settled_at(m, k),
        k <= n,
    ensures
        settled_at(m, n),
        forall|c: (u32, u32)| #[trigger] depth_at(m, n, c) == depth_at(m, k, c),
    decreases n - k,
{
    if k < n {
        assert forall|c: (u32, u32)| #[trigger] depth_at(m, k + 2, c) == depth_at(m, k + 1, c) by {
            if m.contains_key(c) {
                lemma_links_max_same(m, k + 1, k, m[c]);
            }
        }
        lemma_settled_stays(m, k + 1, n);
    }
}

/// The largest value of `f` over `links`, 0 when there are none.
pub open spec fn max_over(f: spec_fn((u32, u32)) -> int, links: Seq<(u32, u32)>) -> int
    decreases links.len(),
{
    if links.len() == 0 {
        0
    } else {
        let a = max_over(f, links.drop_last());
        let b = f(links.last());
        if a >= b { a } else { b }
    }
}

/// `f` gives every particle of `m` one more than the highest particle it links
/// to (1 without links), and 0 to every free coordinate.
pub open spec fn is_height_assignment(m: Map<(u32, u32), Seq<(u32, u32)>>, f: spec_fn((u32, u32)) -> int) -> bool {
    forall|c: (u32, u32)| #[trigger] f(c) == if m.contains_key(c) { 1 + max_over(f, m[c]) } else { 0 }
}

proof fn lemma_max_over_bounds(f: spec_fn((u32, u32)) -> int, links: Seq<(u32, u32)>)
    ensures
        max_over(f, links) >= 0,
        forall|i: int| 0 <= i < links.len() ==> f(#[trigger] links[i]) <= max_over(f, links),
    decreases links.len(),
{
    if links.len() > 0 {
        lemma_max_over_bounds(f, links.drop_last());
        assert forall|i: int| 0 <= i < links.len() implies f(#[trigger] links[i]) <= max_over(f, links) by {
            if i < links.len() - 1 {
                assert(links.drop_last()[i] == links[i]);
            }
        }
    }
}

proof fn lemma_max_over_same(f: spec_fn((u32, u32)) -> int, g: spec_fn((u32, u32)) -> int, links: Seq<(u32, u32)>)
    requires
        forall|i: int| 0 <= i < links.len() ==> f(#[trigger] links[i]) == g(links[i]),
    ensures
        max_over(f, links) == max_over(g, links),
    decreases links.len(),
{
    if links.len() > 0 {
        let d = links.drop_last();
        assert forall|i: int| 0 <= i < d.len() implies f(#[trigger] d[i]) == g(d[i]) by {
            assert(d[i] == links[i]);
        }
        lemma_max_over_same(f, g, d);
        assert(f(links[links.len() - 1]) == g(links[links.len() - 1]));
    }
}

proof fn lemma_links_max_is_max_over(m: Map<(u32, u32), Seq<(u32, u32)>>, k: nat, links: Seq<(u32, u32)>)
    ensures
        links_max(m, k, links) == max_over(|c: (u32, u32)| depth_at(m, k, c), links),
    decreases links.len(),
{
    if links.len() > 0 {
        lemma_links_max_is_max_over(m, k, links.drop_last());
    }
}

/// Settled relaxation rounds are a height assignment.
pub proof fn lemma_settled_rounds_assign_heights(m: Map<(u32, u32), Seq<(u32, u32)>>, k: nat)
    requires
        settled_at(m, k),
    ensures
        is_height_assignment(m, |c: (u32, u32)| depth_at(m, k, c)),
{
    let f = |c: (u32, u32)| depth_at(m, k, c);
    assert forall|c: (u32, u32)| #[trigger] f(c) == if m.contains_key(c) { 1 + max_over(f, m[c]) } else { 0 } by {
        assert(depth_at(m, k + 1, c) == depth_at(m, k, c));
        if m.contains_key(c) {
            lemma_links_max_is_max_over(m, k, m[c]);
        }
    }
}

/// A particle map has at most one height assignment.
pub proof fn lemma_height_assignment_unique(
    m: Map<(u32, u32), Seq<(u32, u32)>>,
    f: spec_fn((u32, u32)) -> int,
    g: spec_fn((u32, u32)) -> int,
)
    requires
        is_height_assignment(m, f),
        is_height_assignment(m, g),
    ensures
        forall|c: (u32, u32)| #[trigger] f(c) == g(c),
{
    assert forall|c: (u32, u32)| #[trigger] f(c) == g(c) by {
        if m.contains_key(c) {
            lemma_max_over_bounds(f, m[c]);
        }
        lemma_assignments_agree_below(m, f, g, f(c) as nat);
    }
}

proof fn lemma_assignments_agree_below(
    m: Map<(u32, u32), Seq<(u32, u32)>>,
    f: spec_fn((u32, u32)) -> int,
    g: spec_fn((u32, u32)) -> int,
    n: nat,
)
    requires
        is_height_assignment(m, f),
        is_height_assignment(m, g),
    ensures
        forall|c: (u32, u32)| #[trigger] f(c) <= n ==> f(c) == g(c),
    decreases n,
{
    if n > 0 {
        lemma_assignments_agree_below(m, f, g, (n - 1) as nat);
    }
    assert forall|c: (u32, u32)| #[trigger] f(c) <= n implies f(c) == g(c) by {
        if m.contains_key(c) {
            lemma_max_over_bounds(f, m[c]);
            let links = m[c];
            assert forall|i: int| 0 <= i < links.len() implies f(#[trigger] links[i]) == g(links[i]) by {
                assert(f(links[i]) <= f(c) - 1);
                if m.contains_key(links[i]) {
                    lemma_max_over_bounds(f, m[links[i]]);
                }
                assert(f(links[i]) >= 0);
                assert(n > 0);
                assert(f(links[i]) <= (n - 1) as nat);
            }
            lemma_max_over_same(f, g, links);
        }
    }
}

proof fn lemma_assignment_nonneg(m: Map<(u32, u32), Seq<(u32, u32)>>, f: spec_fn((u32, u32)) -> int, c: (u32, u32))
    requires
        is_height_assignment(m, f),
    ensures
        f(c) >= 0,
        m.contains_key(c) ==> f(c) >= 1,
{
    if m.contains_key(c) {
        lemma_max_over_bounds(f, m[c]);
    }
}

proof fn lemma_max_over_clamped(f: spec_fn((u32, u32)) -> int, k: int, links: Seq<(u32, u32)>)
    requires
        k >= 0,
    ensures
        max_over(|x: (u32, u32)| if f(x) <= k { f(x) } else { k }, links) == if max_over(f, links) <= k {
            max_over(f, links)
        } else {
            k
        },
    decreases links.len(),
{
    if links.len() > 0 {
        lemma_max_over_clamped(f, k, links.drop_last());
        lemma_max_over_bounds(f, links.drop_last());
    }
}

/// Under a height assignment `f`, round `k` gives every coordinate `min(f, k)`.
proof fn lemma_rounds_follow_assignment(m: Map<(u32, u32), Seq<(u32, u32)>>, f: spec_fn((u32, u32)) -> int, k: nat)
    requires
        is_height_assignment(m, f),
    ensures
        forall|c: (u32, u32)| #[trigger] depth_at(m, k, c) == if f(c) <= k { f(c) } else { k as int },
    decreases k,
{
    assert forall|c: (u32, u32)| #[trigger] depth_at(m, k, c) == if f(c) <= k { f(c) } else { k as int } by {
        lemma_assignment_nonneg(m, f, c);
        if k > 0 && m.contains_key(c) {
            let j = (k - 1) as nat;
            lemma_rounds_follow_assignment(m, f, j);
            let links = m[c];
            lemma_links_max_is_max_over(m, j, links);
            let g = |x: (u32, u32)| if f(x) <= j { f(x) } else { j as int };
            assert forall|i: int| 0 <= i < links.len() implies (|x: (u32, u32)| depth_at(m, j, x))(
                #[trigger] links[i]) == g(links[i]) by {
                assert(depth_at(m, j, links[i]) == if f(links[i]) <= j { f(links[i]) } else { j as int });
            }
            lemma_max_over_same(|x: (u32, u32)| depth_at(m, j, x), g, links);
            lemma_max_over_clamped(f, j as int, links);
        }
    }
}

proof fn lemma_max_attained(f: spec_fn((u32, u32)) -> int, links: Seq<(u32, u32)>) -> (i: int)
    requires
        max_over(f, links) > 0,
    ensures
        0 <= i < links.len(),
        f(links[i]) == max_over(f, links),
    decreases links.len(),
{
    let d = links.drop_last();
    if max_over(f, d) >= f(links.last()) {
        let j = lemma_max_attained(f, d);
        assert(d[j] == links[j]);
        j
    } else {
        links.len() - 1
    }
}

/// A chain of `f(c)` settled particles from `c` down, heights falling by one.
proof fn lemma_descent(m: Map<(u32, u32), Seq<(u32, u32)>>, f: spec_fn((u32, u32)) -> int, c: (u32, u32)) -> (s: Seq<(u32, u32)>)
    requires
        is_aggregate(m),
        is_height_assignment(m, f),
        m.contains_key(c),
    ensures
        s.len() == f(c),
        forall|i: int| 0 <= i < s.len() ==> m.contains_key(#[trigger] s[i]) && f(s[i]) == f(c) - i,
    decreases f(c),
{
    let links = m[c];
    lemma_max_over_bounds(f, links);
    if max_over(f, links) == 0 {
        seq![c]
    } else {
        let i = lemma_max_attained(f, links);
        let l = links[i];
        assert(m.contains_key(l));
        lemma_assignment_nonneg(m, f, l);
        let rest = lemma_descent(m, f, l);
        let s = seq![c] + rest;
        assert forall|t: int| 0 <= t < s.len() implies m.contains_key(#[trigger] s[t]) && f(s[t]) == f(c) - t by {
            if t > 0 {
                assert(s[t] == rest[t - 1]);
            }
        }
        s
    }
}

impl ParticleMap {
    /// No height of an assignment exceeds the number of grid cells.
    proof fn lemma_assignment_bounded(&self, f: spec_fn((u32, u32)) -> int, c: (u32, u32))
        requires
            self.wf(),
            is_height_assignment(self@, f),
        ensures
            f(c) <= self.cells@.len(),
    {
        let m = self@;
        let w = self.width as int;
        let h = self.height as int;
        if m.contains_key(c) {
            let s = lemma_descent(m, f, c);
            let idx = s.map_values(|d: (u32, u32)| grid_index(d.0 as int, d.1 as int, w));
            assert forall|i: int, j: int| 0 <= i < idx.len() && 0 <= j < idx.len() && i != j implies idx[i] != idx[j] by {
                lemma_grid_index(s[i].0 as int, s[i].1 as int, w, h);
                lemma_grid_index(s[j].0 as int, s[j].1 as int, w, h);
            }
            assert(idx.no_duplicates());
            idx.unique_seq_to_set();
            assert forall|v: int| idx.to_set().contains(v) implies set_int_range(0, w * h).contains(v) by {
                let i = choose|i: int| 0 <= i < idx.len() && idx[i] == v;
                lemma_grid_index(s[i].0 as int, s[i].1 as int, w, h);
            }
            lemma_int_range(0, w * h);
            lemma_len_subset(idx.to_set(), set_int_range(0, w * h));
        } else {
            lemma_assignment_nonneg(m, f, c);
        }
    }

    /// When the map has a height assignment, relaxation has settled by round
    /// `cells_len()`.
    pub proof fn lemma_assignment_settles(&self, f: spec_fn((u32, u32)) -> int)
        requires
            self.wf(),
            is_height_assignment(self@, f),
        ensures
            settled_at(self@, self.cells_len() as nat),
    {
        let n = self.cells@.len() as nat;
        lemma_rounds_follow_assignment(self@, f, n);
        lemma_rounds_follow_assignment(self@, f, n + 1);
        assert forall|c: (u32, u32)| #[trigger] depth_at(self@, n + 1, c) == depth_at(self@, n, c) by {
            self.lemma_assignment_bounded(f, c);
        }
    }
}

impl ParticleMap {
    /// The coordinates of grid cell `i`.
    pub open spec fn coords_of(&self, i: int) -> (u32, u32) {
        ((i % self.width_spec() as int) as u32, (i / self.width_spec() as int) as u32)
    }

    /// One relaxation round: from the heights of round `k`, by grid index, those
    /// of round `k + 1`.
    fn relax(&self, cur: &Vec<u64>, Ghost(k): Ghost<nat>) -> (r: Vec<u64>)
        requires
            self.wf(),
            cur@.len() == self.cells@.len(),
            k <= self.cells@.len(),
            forall|i: int| 0 <= i < cur@.len() ==> #[trigger] cur@[i] == depth_at(self@, k, self.coords_of(i)),
        ensures
            r@.len() == self.cells@.len(),
            forall|i: int| 0 <= i < r@.len() ==> #[trigger] r@[i] == depth_at(self@, k + 1, self.coords_of(i)),
    {
        let n = self.cells.len();
        let mut next: Vec<u64> = Vec::new();
        let mut i: usize = 0;
        proof {
            self.lemma_wf();
        }
        while i < n
            invariant
                self.wf(),
                n == self.cells@.len(),
                cur@.len() == n,
                k <= n,
                n < usize::MAX,
                0 <= i <= n,
                next@.len() == i,
                forall|t: int| 0 <= t < cur@.len() ==> #[trigger] cur@[t] == depth_at(self@, k, self.coords_of(t)),
                forall|t: int| 0 <= t < i ==> #[trigger] next@[t] == depth_at(self@, k + 1, self.coords_of(t)),
            decreases n - i,
        {
            proof {
                lemma_grid_coords(i as int, self.width as int, self.height as int);
            }
            let ghost c = self.coords_of(i as int);
            match &self.cells[i] {
                None => {
                    proof {
                        assert(!self@.contains_key(c));
                    }
                    next.push(0);
                },
                Some(part) => {
                    proof {
                        assert(part.point == (Point { x: c.0, y: c.1 }));
                        assert(self@.contains_key(c));
                        assert(part.linked@ == self@[c]);
                    }
                    let mut mx: u64 = 0;
                    let mut j: usize = 0;
                    while j < part.linked.len()
                        invariant
                            self.wf(),
                            n == self.cells@.len(),
                            cur@.len() == n,
                            k <= n,
                            self@.contains_key(c),
                            part.linked@ == self@[c],
                            0 <= j <= part.linked@.len(),
                            mx == links_max(self@, k, part.linked@.take(j as int)),
                            forall|t: int| 0 <= t < cur@.len() ==> #[trigger] cur@[t] == depth_at(self@, k, self.coords_of(t)),
                        decreases part.linked@.len() - j,
                    {
                        let l = part.linked[j];
                        proof {
                            assert(self@[c][j as int] == l);
                            assert(self@.contains_key(l));
                            self.lemma_wf();
                            lemma_grid_index(l.0 as int, l.1 as int, self.width as int, self.height as int);
                        }
                        let v = cur[self.index(l.0, l.1)];
                        proof {
                            assert(self.coords_of(grid_index(l.0 as int, l.1 as int, self.width as int)) == l);
                            assert(part.linked@.take(j as int + 1).drop_last() =~= part.linked@.take(j as int));
                        }
                        if v > mx {
                            mx = v;
                        }
                        j = j + 1;
                    }
                    proof {
                        assert(part.linked@.take(j as int) =~= part.linked@);
                        lemma_links_max_bound(self@, k, part.linked@);
                    }
                    next.push(mx + 1);
                },
            }
            i = i + 1;
        }
        next
    }

    /// The height of every particle, by grid index (0 for free cells): a
    /// particle without links has height 1, any other one more than its highest
    /// linked particle. Heights are found by relaxation rounds until two rounds
    /// agree, which gives the one height assignment the map has. A
    /// well-formed map has one (its links form no cycle), so the rounds agree
    /// within as many rounds as the grid has cells.
    pub fn depths(&self) -> (r: Vec<u64>)
        requires
            self.wf(),
        ensures
            settled_at(self@, self.cells_len() as nat),
            is_height_assignment(self@, |c: (u32, u32)| depth_at(self@, self.cells_len() as nat, c)),
            r@.len() == self.cells_len(),
            forall|i: int| 0 <= i < r@.len() ==> #[trigger] r@[i] == depth_at(self@, self.cells_len() as nat, self.coords_of(i)),
    {
        let n = self.cells.len();
        let mut cur: Vec<u64> = Vec::new();
        let mut i: usize = 0;
        while i < n
            invariant
                0 <= i <= n,
                cur@.len() == i,
                forall|t: int| 0 <= t < i ==> #[trigger] cur@[t] == depth_at(self@, 0, self.coords_of(t)),
            decreases n - i,
        {
            cur.push(0);
            i = i + 1;
        }
        let mut k: usize = 0;
        proof {
            self.lemma_wf();
        }
        while k <= n
            invariant
                self.wf(),
                n == self.cells@.len(),
                n < usize::MAX,
                0 <= k <= n + 1,
                cur@.len() == n,
                forall|t: int| 0 <= t < n ==> #[trigger] cur@[t] == depth_at(self@, k as nat, self.coords_of(t)),
                forall|j: nat| j < k ==> !settled_at(self@, j),
            decreases n + 1 - k,
        {
            let next = self.relax(&cur, Ghost(k as nat));
            let mut same = true;
            let mut t: usize = 0;
            while t < n
                invariant
                    0 <= t <= n,
                    cur@.len() == n,
                    next@.len() == n,
                    same == (forall|u: int| 0 <= u < t ==> cur@[u] == next@[u]),
                decreases n - t,
            {
                if cur[t] != next[t] {
                    same = false;
                }
                t = t + 1;
            }
            if same {
                proof {
                    assert forall|c: (u32, u32)| #[trigger] depth_at(self@, (k + 1) as nat, c) == depth_at(self@, k as nat, c) by {
                        self.lemma_depth_in_grid(k as nat, c);
                        self.lemma_depth_in_grid((k + 1) as nat, c);
                        if self@.contains_key(c) {
                            let u = grid_index(c.0 as int, c.1 as int, self.width as int);
                            assert(cur@[u] == next@[u]);
                        }
                    }
                    if k <= n {
                        lemma_settled_stays(self@, k as nat, n as nat);
                    }
                    lemma_settled_rounds_assign_heights(self@, n as nat);
                }
                return cur;
            }
            proof {
                assert(!settled_at(self@, k as nat)) by {
                    let u = choose|u: int| 0 <= u < n && cur@[u] != next@[u];
                    assert(depth_at(self@, (k + 1) as nat, self.coords_of(u)) != depth_at(self@, k as nat, self.coords_of(u)));
                }
            }
            cur = next;
            k = k + 1;
        }
        proof {
            let f = choose|f: spec_fn((u32, u32)) -> int| is_height_assignment(self@, f);
            self.lemma_assignment_settles(f);
            assert(!settled_at(self@, n as nat));
        }
        cur
    }

    pub closed spec fn cells_len(&self) -> int {
        self.cells@.len() as int
    }

    /// The coordinates of grid cell `grid_index(c)` are `c`, and a free or
    /// outside cell has height 0.
    proof fn lemma_depth_in_grid(&self, k: nat, c: (u32, u32))
        requires
            self.wf(),
        ensures
            self@.contains_key(c) ==> ({
                let u = grid_index(c.0 as int, c.1 as int, self.width as int);
                0 <= u < self.cells@.len() && self.coords_of(u) == c
            }),
            !self@.contains_key(c) ==> depth_at(self@, k, c) == 0,
    {
        if self@.contains_key(c) {
            lemma_grid_index(c.0 as int, c.1 as int, self.width as int, self.height as int);
        }
    }
}

/// Doubles a grid in both directions: each cell becomes a 2 x 2 block of
/// copies of itself.
pub fn scale_heightmap<T: Copy>(input: &Vec<Vec<T>>) -> (r: Vec<Vec<T>>)
    requires
        input@.len() > 0,
        forall|y: int| 0 <= y < input@.len() ==> #[trigger] input@[y]@.len() == input@[0]@.len(),
        2 * input@.len() <= usize::MAX,
        2 * input@[0]@.len() <= usize::MAX,
    ensures
        r@.len() == 2 * input@.len(),
        forall|y: int| 0 <= y < r@.len() ==> #[trigger] r@[y]@.len() == 2 * input@[0]@.len(),
        forall|y: int, x: int|
            0 <= y < r@.len() && 0 <= x < 2 * input@[0]@.len() ==> #[trigger] r@[y]@[x] == input@[y / 2]@[x / 2],
{
    let height = input.len();
    let width = input[0].len();
    let mut output: Vec<Vec<T>> = Vec::new();
    let mut y: usize = 0;
    while y < 2 * height
        invariant
            height == input@.len(),
            width == input@[0]@.len(),
            forall|t: int| 0 <= t < input@.len() ==> #[trigger] input@[t]@.len() == width,
            2 * height <= usize::MAX,
            2 * width <= usize::MAX,
            0 <= y <= 2 * height,
            output@.len() == y,
            forall|t: int| 0 <= t < y ==> #[trigger] output@[t]@.len() == 2 * width,
            forall|t: int, x: int|
                0 <= t < y && 0 <= x < 2 * width ==> #[trigger] output@[t]@[x] == input@[t / 2]@[x / 2],
        decreases 2 * height - y,
    {
        let src = &input[y / 2];
        let mut row: Vec<T> = Vec::new();
        let mut x: usize = 0;
        while x < 2 * width
            invariant
                src@ == input@[y as int / 2]@,
                src@.len() == width,
                2 * width <= usize::MAX,
                0 <= x <= 2 * width,
                row@.len() == x,
                forall|u: int| 0 <= u < x ==> #[trigger] row@[u] == src@[u / 2],
            decreases 2 * width - x,
        {
            row.push(src[x / 2]);
            x = x + 1;
        }
        output.push(row);
        y = y + 1;
    }
    output
}

fn power_of_two(e: u32) -> (r: u64)
    requires
        e < 64,
    ensures
        r == pow2(e as nat),
{
    proof {
        lemma2_to64();
        lemma2_to64_rest();
    }
    let mut r: u64 = 1;
    let mut i: u32 = 0;
    while i < e
        invariant
            0 <= i <= e < 64,
            r == pow2(i as nat),
            pow2(63) == 0x8000000000000000,
        decreases e - i,
    {
        proof {
            lemma_pow2_unfold((i + 1) as nat);
            if i + 1 < 63 {
                lemma_pow2_strictly_increases((i + 1) as nat, 63);
            }
        }
        r = r * 2;
        i = i + 1;
    }
    r
}

/// A kernel size for `layer`: `size * 2^layer / divisor`, raised by one when
/// even so that the kernel has a centre cell.
pub fn layer_kernel_size(size: usize, layer: u32, divisor: usize) -> (r: usize)
    requires
        divisor > 0,
        layer < 64,
        size * pow2(layer as nat) < usize::MAX,
    ensures
        r == if (size * pow2(layer as nat) / divisor as int) % 2 == 0 {
            size * pow2(layer as nat) / divisor as int + 1
        } else {
            size * pow2(layer as nat) / divisor as int
        },
        r % 2 == 1,
{
    let p = power_of_two(layer);
    let scaled = size as u64 * p;
    let s = (scaled / divisor as u64) as usize;
    assert(s <= scaled) by (nonlinear_arith)
        requires
            s == scaled as int / (divisor as int),
            divisor > 0,
            scaled >= 0,
    ;
    if s % 2 == 0 {
        s + 1
    } else {
        s
    }
}

/// Walkers for a `width` x `height` layer `layer` doublings up:
/// `density / 1000` of the layer's cells, rounded down.
pub fn layer_particle_budget(width: usize, height: usize, layer: u32, density: u32) -> (r: u64)
    requires
        width > 0 && height > 0,
        layer < 32,
        density <= 1000,
        width * pow2(layer as nat) * height * pow2(layer as nat) * 1000 <= u64::MAX,
    ensures
        r == width * pow2(layer as nat) * height * pow2(layer as nat) * density / 1000,
{
    let p = power_of_two(layer);
    let ghost q = pow2(layer as nat) as int;
    proof {
        lemma_pow2_pos(layer as nat);
        let wi = width as int;
        let hi = height as int;
        assert(wi * q <= wi * q * hi * q * 1000 && wi * q * hi * q <= wi * q * hi * q * 1000
            && hi * q <= wi * q * hi * q * 1000) by (nonlinear_arith)
            requires
                wi >= 1,
                hi >= 1,
                q >= 1,
        ;
        assert((wi * q) * (hi * q) == wi * q * hi * q) by (nonlinear_arith);
        assert(wi * q * hi * q * density <= wi * q * hi * q * 1000) by (nonlinear_arith)
            requires
                wi >= 1,
                hi >= 1,
                q >= 1,
                density <= 1000,
        ;
    }
    let w = width as u64 * p;
    let h = height as u64 * p;
    let cells = w * h;
    assert(cells * density == width * q * height * q * density) by (nonlinear_arith)
        requires
            cells == (width * q) * (height * q),
    ;
    cells * density as u64 / 1000
}

/// Why a kernel is refused.
#[derive(Clone, Copy, Debug, PartialEq, Eq, Structural)]
pub enum KernelError {
    /// The size is even, so the kernel has no centre cell.
    EvenSize,
}

impl Kernel {
    /// Accepts a kernel only when its size is odd.
    pub fn validate(&self) -> (r: Result<(), KernelError>)
        ensures
            r is Ok <==> self.size % 2 == 1,
            r is Err ==> r == Err::<(), KernelError>(KernelError::EvenSize),
    {
        if self.size % 2 == 1 {
            Ok(())
        } else {
            Err(KernelError::EvenSize)
        }
    }
}

} // verus!

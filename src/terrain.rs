//! Layered terrain store: a sparse map of fixed-size chunks, each a dense grid
//! of cells, each cell a bottom-to-top stack of material layers.
//!
//! Thicknesses and heights are whole numbers of a fixed quantum
//! (`THICKNESS_UNIT` quanta make one unit of height).
use std::collections::HashMap;
use vstd::prelude::*;

verus! {

/// Side length of a chunk, in cells.
pub const CHUNK_SIZE: usize = 64;

/// Thickness quanta per unit of height.
pub const THICKNESS_UNIT: u64 = 1000;

/// Vertical component of an unnormalised surface normal: two units of height.
pub const NORMAL_UP: i128 = 2000;

/// Handle of a material in a `MaterialRegistry`.
#[derive(Copy, Clone, Debug, PartialEq, Eq, Hash, Structural)]
pub struct MaterialID(pub u16);

/// Physical properties of a material, each in thousandths.
#[derive(Copy, Clone, Debug, PartialEq, Eq, Structural)]
pub struct Material {
    pub erosion: u32,
    pub cohesion: u32,
    pub saturation: u32,
    pub permeability: u32,
    pub mass: u32,
}

/// A flat table of materials, addressed by `MaterialID`.
pub struct MaterialRegistry {
    materials: Vec<Material>,
}

/// A slab of one material; its thickness is positive while it lies in a cell.
#[derive(Copy, Clone, Debug, PartialEq, Eq, Structural)]
pub struct Layer {
    pub thickness: u64,
    pub material_id: MaterialID,
}

/// A stack of layers, oldest first.
#[derive(Clone, Debug)]
pub struct Cell {
    layers: Vec<Layer>,
}

/// What a renderer needs of one cell: its height and its surface material
/// (material 0 for an empty cell).
#[derive(Copy, Clone, Debug, PartialEq, Eq, Structural)]
pub struct SurfaceCell {
    pub height: u64,
    pub material_id: MaterialID,
}

impl Material {
    pub open spec fn is_zero(self) -> bool {
        self.erosion == 0 && self.cohesion == 0 && self.saturation == 0 && self.permeability == 0
            && self.mass == 0
    }
}

impl Default for Material {
    fn default() -> (r: Material)
        ensures
            r.is_zero(),
    {
        Material { erosion: 0, cohesion: 0, saturation: 0, permeability: 0, mass: 0 }
    }
}

impl View for MaterialRegistry {
    type V = Seq<Material>;

    closed spec fn view(&self) -> Seq<Material> {
        self.materials@
    }
}

impl MaterialRegistry {
    /// An empty registry.
    pub fn new() -> (r: MaterialRegistry)
        ensures
            r@ == Seq::<Material>::empty(),
    {
        MaterialRegistry { materials: Vec::new() }
    }

    /// Whether `id` names a registered material.
    pub open spec fn contains_spec(&self, id: MaterialID) -> bool {
        (id.0 as int) < self@.len()
    }

    pub fn contains(&self, id: MaterialID) -> (r: bool)
        ensures
            r == self.contains_spec(id),
    {
        (id.0 as usize) < self.materials.len()
    }

    /// Registers `material` and returns its handle, the next free one.
    pub fn register(&mut self, material: Material) -> (r: MaterialID)
        requires
            old(self)@.len() <= u16::MAX,
        ensures
            r.0 == old(self)@.len(),
            final(self)@ == old(self)@.push(material),
    {
        let id = MaterialID(self.materials.len() as u16);
        self.materials.push(material);
        id
    }

    /// The material registered under `id`; `id` must have been handed out by
    /// this registry.
    pub fn get(&self, id: MaterialID) -> (r: &Material)
        requires
            self.contains_spec(id),
        ensures
            *r == self@[id.0 as int],
    {
        &self.materials[id.0 as usize]
    }
}

impl Layer {
    /// An empty layer of material 0.
    pub fn new() -> (r: Layer)
        ensures
            r.thickness == 0 && r.material_id == MaterialID(0),
    {
        Layer { thickness: 0, material_id: MaterialID(0) }
    }

    pub fn thickness(&self) -> (r: u64)
        ensures
            r == self.thickness,
    {
        self.thickness
    }

    pub fn material_id(&self) -> (r: MaterialID)
        ensures
            r == self.material_id,
    {
        self.material_id
    }
}

impl Default for Layer {
    fn default() -> (r: Layer)
        ensures
            r.thickness == 0 && r.material_id == MaterialID(0),
    {
        Layer::new()
    }
}

/// Sum of the thicknesses of `s`.
pub open spec fn total(s: Seq<Layer>) -> nat
    decreases s.len(),
{
    if s.len() == 0 {
        0
    } else {
        total(s.drop_last()) + s.last().thickness as nat
    }
}

/// A well-formed stack: positive thicknesses, no two adjacent layers of one
/// material, and a total that fits in a `u64`.
pub open spec fn is_stack(s: Seq<Layer>) -> bool {
    &&& forall|i: int| 0 <= i < s.len() ==> #[trigger] s[i].thickness > 0
    &&& forall|i: int| 0 < i < s.len() ==> #[trigger] s[i].material_id != s[i - 1].material_id
    &&& total(s) <= u64::MAX
}

/// The stack after depositing `thickness` of `material` on `s`: merged into the
/// top layer when it is of the same material, else a new top layer.
pub open spec fn deposited(s: Seq<Layer>, thickness: u64, material: MaterialID) -> Seq<Layer> {
    if s.len() > 0 && s.last().material_id == material {
        s.update(s.len() - 1, Layer { thickness: (s.last().thickness + thickness) as u64, material_id: material })
    } else {
        s.push(Layer { thickness, material_id: material })
    }
}

/// Erosion of `amount` from the top of `s`: the stack that remains, and the
/// removed fragments from the top down.
pub open spec fn eroded(s: Seq<Layer>, amount: nat) -> (Seq<Layer>, Seq<Layer>)
    decreases s.len(),
{
    if amount == 0 || s.len() == 0 {
        (s, Seq::empty())
    } else if s.last().thickness > amount {
        (
            s.update(s.len() - 1, Layer { thickness: (s.last().thickness - amount) as u64, material_id: s.last().material_id }),
            seq![Layer { thickness: amount as u64, material_id: s.last().material_id }],
        )
    } else {
        let (rest, removed) = eroded(s.drop_last(), (amount - s.last().thickness) as nat);
        (rest, seq![s.last()] + removed)
    }
}

proof fn lemma_total_push(s: Seq<Layer>, l: Layer)
    ensures
        total(s.push(l)) == total(s) + l.thickness,
{
    assert(s.push(l).drop_last() =~= s);
}

proof fn lemma_total_update_last(s: Seq<Layer>, l: Layer)
    requires
        s.len() > 0,
    ensures
        total(s.update(s.len() - 1, l)) == total(s) - s.last().thickness + l.thickness,
{
    assert(s.update(s.len() - 1, l).drop_last() =~= s.drop_last());
}

proof fn lemma_total_prepend(l: Layer, s: Seq<Layer>)
    ensures
        total(seq![l] + s) == l.thickness + total(s),
    decreases s.len(),
{
    if s.len() == 0 {
        assert(seq![l] + s =~= seq![l]);
        assert(seq![l].drop_last() =~= Seq::<Layer>::empty());
        assert(total(Seq::<Layer>::empty()) == 0);
        assert(seq![l].last() == l);
    } else {
        lemma_total_prepend(l, s.drop_last());
        assert((seq![l] + s).drop_last() =~= seq![l] + s.drop_last());
        assert((seq![l] + s).last() == s.last());
    }
}

/// Depositing keeps a stack well formed, and its total grows by exactly the
/// deposited thickness.
pub proof fn lemma_deposit_total(s: Seq<Layer>, thickness: u64, material: MaterialID)
    requires
        is_stack(s),
        thickness > 0,
        total(s) + thickness <= u64::MAX,
    ensures
        is_stack(deposited(s, thickness, material)),
        total(deposited(s, thickness, material)) == total(s) + thickness,
{
    let l = Layer { thickness, material_id: material };
    if s.len() > 0 && s.last().material_id == material {
        lemma_total_drop_last_le(s);
        let m = Layer { thickness: (s.last().thickness + thickness) as u64, material_id: material };
        lemma_total_update_last(s, m);
    } else {
        lemma_total_push(s, l);
    }
}

/// Two deposits of one material leave the stack that one deposit of their sum
/// would; deposits of two different materials leave the second as a new top
/// layer over the first. Either way the total grows by both thicknesses.
pub proof fn lemma_deposit_twice(s: Seq<Layer>, a: u64, b: u64, first: MaterialID, second: MaterialID)
    requires
        is_stack(s),
        a > 0 && b > 0,
        total(s) + a + b <= u64::MAX,
    ensures
        first == second ==> deposited(deposited(s, a, first), b, second) == deposited(s, (a + b) as u64, first),
        first != second ==> deposited(deposited(s, a, first), b, second) == deposited(s, a, first).push(
            Layer { thickness: b, material_id: second },
        ),
        deposited(deposited(s, a, first), b, second).len() == if first == second {
            deposited(s, a, first).len()
        } else {
            deposited(s, a, first).len() + 1
        },
        total(deposited(deposited(s, a, first), b, second)) == total(s) + a + b,
{
    lemma_deposit_total(s, a, first);
    lemma_deposit_total(deposited(s, a, first), b, second);
    if first == second {
        assert(deposited(deposited(s, a, first), b, second) =~= deposited(s, (a + b) as u64, first));
    }
}

proof fn lemma_total_drop_last_le(s: Seq<Layer>)
    requires
        s.len() > 0,
    ensures
        s.last().thickness <= total(s),
        total(s.drop_last()) <= total(s),
{
}

/// Erosion never removes more than it is asked for nor more than the stack
/// holds: the fragments total `min(amount, total(s))`, the rest stays, and the
/// remaining stack is well formed.
pub proof fn lemma_erode_budget(s: Seq<Layer>, amount: nat)
    requires
        is_stack(s),
    ensures
        total(eroded(s, amount).1) == if amount <= total(s) { amount } else { total(s) },
        total(eroded(s, amount).0) + total(eroded(s, amount).1) == total(s),
        is_stack(eroded(s, amount).0),
        forall|i: int| 0 <= i < eroded(s, amount).1.len() ==> #[trigger] eroded(s, amount).1[i].thickness > 0,
    decreases s.len(),
{
    if amount == 0 || s.len() == 0 {
    } else if s.last().thickness > amount {
        let m = Layer { thickness: (s.last().thickness - amount) as u64, material_id: s.last().material_id };
        lemma_total_update_last(s, m);
        let f = Layer { thickness: amount as u64, material_id: s.last().material_id };
        lemma_total_push(Seq::empty(), f);
        assert(Seq::<Layer>::empty().push(f) =~= seq![f]);
        let r = s.update(s.len() - 1, m);
        assert forall|i: int| 0 < i < r.len() implies #[trigger] r[i].material_id != r[i - 1].material_id by {
            assert(s[i].material_id != s[i - 1].material_id);
        }
    } else {
        let rest = s.drop_last();
        assert forall|i: int| 0 < i < rest.len() implies #[trigger] rest[i].material_id != rest[i - 1].material_id by {
            assert(s[i].material_id != s[i - 1].material_id);
        }
        assert forall|i: int| 0 <= i < rest.len() implies #[trigger] rest[i].thickness > 0 by {
            assert(s[i].thickness > 0);
        }
        lemma_erode_budget(rest, (amount - s.last().thickness) as nat);
        let (r, removed) = eroded(rest, (amount - s.last().thickness) as nat);
        lemma_total_prepend(s.last(), removed);
        assert forall|i: int| 0 <= i < (seq![s.last()] + removed).len() implies #[trigger] (seq![s.last()] + removed)[i].thickness > 0 by {
            if i > 0 {
                assert((seq![s.last()] + removed)[i] == removed[i - 1]);
            }
        }
    }
}

impl View for Cell {
    type V = Seq<Layer>;

    closed spec fn view(&self) -> Seq<Layer> {
        self.layers@
    }
}

impl Cell {
    pub open spec fn wf(&self) -> bool {
        is_stack(self@)
    }

    /// Bare ground: no layers.
    pub fn new() -> (r: Cell)
        ensures
            r@ == Seq::<Layer>::empty(),
            r.wf(),
    {
        Cell { layers: Vec::new() }
    }

    /// The sum of the layers' thicknesses.
    pub fn total_height(&self) -> (r: u64)
        requires
            self.wf(),
        ensures
            r == total(self@),
    {
        let mut sum: u64 = 0;
        let mut i: usize = 0;
        while i < self.layers.len()
            invariant
                0 <= i <= self.layers.len(),
                self.wf(),
                sum == total(self@.take(i as int)),
            decreases self.layers.len() - i,
        {
            proof {
                lemma_total_prefix_le(self@, i as int + 1);
                assert(self@.take(i as int + 1).drop_last() =~= self@.take(i as int));
            }
            sum = sum + self.layers[i].thickness;
            i = i + 1;
        }
        assert(self@.take(i as int) =~= self@);
        sum
    }

    /// The top layer, if any.
    pub fn surface_layer(&self) -> (r: Option<&Layer>)
        ensures
            r == (if self@.len() == 0 { None } else { Some(&self@.last()) }),
    {
        let n = self.layers.len();
        if n == 0 {
            None
        } else {
            Some(&self.layers[n - 1])
        }
    }

    /// The material of the top layer, if any.
    pub fn surface_material(&self) -> (r: Option<MaterialID>)
        ensures
            r == (if self@.len() == 0 { None } else { Some(self@.last().material_id) }),
    {
        match self.surface_layer() {
            Some(l) => Some(l.material_id),
            None => None,
        }
    }

    /// The layers, oldest first.
    pub fn layers(&self) -> (r: &Vec<Layer>)
        ensures
            r@ == self@,
    {
        &self.layers
    }

    pub fn is_empty(&self) -> (r: bool)
        ensures
            r == (self@.len() == 0),
    {
        self.layers.len() == 0
    }

    /// Deposits `thickness` of `material_id` on top: merged into the top layer
    /// when it is of the same material, else pushed as a new layer.
    pub fn deposit(&mut self, thickness: u64, material_id: MaterialID)
        requires
            old(self).wf(),
            thickness > 0,
            total(old(self)@) + thickness <= u64::MAX,
        ensures
            final(self)@ == deposited(old(self)@, thickness, material_id),
            final(self).wf(),
            total(final(self)@) == total(old(self)@) + thickness,
    {
        proof {
            lemma_deposit_total(self@, thickness, material_id);
        }
        let n = self.layers.len();
        if n > 0 && self.layers[n - 1].material_id == material_id {
            proof {
                lemma_total_drop_last_le(self@);
            }
            let merged = Layer { thickness: self.layers[n - 1].thickness + thickness, material_id };
            self.layers.set(n - 1, merged);
        } else {
            self.layers.push(Layer { thickness, material_id });
        }
    }

    /// Removes `amount` of thickness from the top down, splitting the last layer
    /// it reaches, and returns the removed fragments from the top down. A stack
    /// thinner than `amount` is emptied.
    pub fn erode(&mut self, amount: u64) -> (r: Vec<Layer>)
        requires
            old(self).wf(),
            amount > 0,
        ensures
            (final(self)@, r@) == eroded(old(self)@, amount as nat),
            final(self).wf(),
            total(r@) == if amount <= total(old(self)@) { amount as nat } else { total(old(self)@) },
            total(final(self)@) + total(r@) == total(old(self)@),
    {
        proof {
            lemma_erode_budget(self@, amount as nat);
        }
        let ghost s0 = self@;
        let mut removed: Vec<Layer> = Vec::new();
        let mut left: u64 = amount;
        while left > 0 && self.layers.len() > 0
            invariant
                self.wf(),
                eroded(s0, amount as nat) == (eroded(self@, left as nat).0, removed@ + eroded(self@, left as nat).1),
            decreases self.layers.len() + if left > 0 { 1int } else { 0int },
        {
            let n = self.layers.len();
            let top = self.layers[n - 1];
            if top.thickness > left {
                let ghost before = self@;
                self.layers.set(n - 1, Layer { thickness: top.thickness - left, material_id: top.material_id });
                let ghost rem = removed@;
                removed.push(Layer { thickness: left, material_id: top.material_id });
                proof {
                    assert(removed@ =~= rem + seq![Layer { thickness: left, material_id: top.material_id }]);
                    assert(eroded(self@, 0).1 =~= Seq::<Layer>::empty());
                    assert(removed@ + Seq::<Layer>::empty() =~= removed@);
                    lemma_erode_budget(before, left as nat);
                    assert forall|i: int| 0 < i < self@.len() implies #[trigger] self@[i].material_id != self@[i - 1].material_id by {
                        assert(before[i].material_id != before[i - 1].material_id);
                    }
                    assert(total(self@) <= total(before)) by {
                        lemma_total_update_last(before, self@.last());
                    }
                }
                left = 0;
            } else {
                let ghost before = self@;
                let layer = self.layers.pop().unwrap();
                let ghost rem = removed@;
                removed.push(layer);
                proof {
                    assert(before.drop_last() =~= self@);
                    assert(removed@ + eroded(self@, (left - layer.thickness) as nat).1 =~= rem + (seq![layer] + eroded(self@, (left - layer.thickness) as nat).1));
                    assert forall|i: int| 0 < i < self@.len() implies #[trigger] self@[i].material_id != self@[i - 1].material_id by {
                        assert(before[i].material_id != before[i - 1].material_id);
                    }
                    assert forall|i: int| 0 <= i < self@.len() implies #[trigger] self@[i].thickness > 0 by {
                        assert(before[i].thickness > 0);
                    }
                    lemma_total_drop_last_le(before);
                }
                left = left - layer.thickness;
            }
        }
        proof {
            assert(eroded(self@, left as nat).1 =~= Seq::<Layer>::empty());
            assert(removed@ + Seq::<Layer>::empty() =~= removed@);
        }
        removed
    }
}

proof fn lemma_total_prefix_le(s: Seq<Layer>, k: int)
    requires
        0 < k <= s.len(),
    ensures
        total(s.take(k)) == total(s.take(k - 1)) + s[k - 1].thickness,
        total(s.take(k)) <= total(s),
    decreases s.len() - k,
{
    assert(s.take(k).drop_last() =~= s.take(k - 1));
    if k < s.len() {
        lemma_total_prefix_le(s, k + 1);
    } else {
        assert(s.take(k) =~= s);
    }
}

/// A dense `CHUNK_SIZE` x `CHUNK_SIZE` grid of cells, row-major.
#[derive(Debug)]
pub struct Chunk {
    pub position: (i32, i32),
    cells: Vec<Cell>,
}

/// Number of cells in a chunk.
pub const CHUNK_CELLS: usize = 4096;

/// Index of local cell `(x, y)` in a chunk's row-major storage.
pub open spec fn local_index(x: int, y: int) -> int {
    y * CHUNK_SIZE + x
}

impl View for Chunk {
    type V = Seq<Seq<Layer>>;

    closed spec fn view(&self) -> Seq<Seq<Layer>> {
        Seq::new(self.cells@.len(), |i: int| self.cells@[i]@)
    }
}

impl Chunk {
    /// The chunk coordinate that this chunk covers.
    pub closed spec fn position_spec(&self) -> (i32, i32) {
        self.position
    }

    pub closed spec fn wf(&self) -> bool {
        &&& self.cells@.len() == CHUNK_CELLS
        &&& forall|i: int| 0 <= i < CHUNK_CELLS ==> (#[trigger] self.cells@[i]).wf()
    }

    /// Every cell of a well-formed chunk is a well-formed stack.
    pub proof fn lemma_wf(&self)
        requires
            self.wf(),
        ensures
            self@.len() == CHUNK_CELLS,
            forall|i: int| 0 <= i < CHUNK_CELLS ==> is_stack(#[trigger] self@[i]),
    {
        assert forall|i: int| 0 <= i < CHUNK_CELLS implies is_stack(#[trigger] self@[i]) by {
            assert(self.cells@[i].wf());
        }
    }

    /// A chunk of bare cells at `position`.
    pub fn new(position: (i32, i32)) -> (r: Chunk)
        ensures
            r.wf(),
            r.position_spec() == position,
            forall|i: int| 0 <= i < CHUNK_CELLS ==> #[trigger] r@[i] == Seq::<Layer>::empty(),
    {
        let mut cells: Vec<Cell> = Vec::new();
        let mut i: usize = 0;
        while i < CHUNK_CELLS
            invariant
                0 <= i <= CHUNK_CELLS,
                cells@.len() == i,
                forall|j: int| 0 <= j < i ==> (#[trigger] cells@[j]).wf() && cells@[j]@ == Seq::<Layer>::empty(),
            decreases CHUNK_CELLS - i,
        {
            cells.push(Cell::new());
            i = i + 1;
        }
        Chunk { position, cells }
    }

    fn index(x: usize, y: usize) -> (r: usize)
        requires
            x < CHUNK_SIZE && y < CHUNK_SIZE,
        ensures
            r == local_index(x as int, y as int),
            r < CHUNK_CELLS,
    {
        y * CHUNK_SIZE + x
    }

    /// The cell at local coordinates `(x, y)`.
    pub fn cell(&self, x: usize, y: usize) -> (r: &Cell)
        requires
            self.wf(),
            x < CHUNK_SIZE && y < CHUNK_SIZE,
        ensures
            r@ == self@[local_index(x as int, y as int)],
            r.wf(),
    {
        &self.cells[Self::index(x, y)]
    }

    /// The cell at local coordinates `(x, y)`, for update in place.
    pub fn cell_mut(&mut self, x: usize, y: usize) -> (r: &mut Cell)
        requires
            old(self).wf(),
            x < CHUNK_SIZE && y < CHUNK_SIZE,
        ensures
            r@ == old(self)@[local_index(x as int, y as int)],
            r.wf(),
            final(self)@ == old(self)@.update(local_index(x as int, y as int), final(r)@),
            final(self).position_spec() == old(self).position_spec(),
            final(r).wf() ==> final(self).wf(),
    {
        let i = Self::index(x, y);
        proof {
            assert(self.cells@[i as int].wf());
        }
        &mut self.cells[i]
    }

    /// The height and surface material of every cell, in storage order; an
    /// empty cell reports material 0.
    pub fn extract_surface(&self) -> (r: Vec<SurfaceCell>)
        requires
            self.wf(),
        ensures
            r@.len() == CHUNK_CELLS,
            forall|i: int| 0 <= i < CHUNK_CELLS ==> #[trigger] r@[i] == surface_of(self@[i]),
    {
        let mut out: Vec<SurfaceCell> = Vec::new();
        let mut i: usize = 0;
        while i < self.cells.len()
            invariant
                self.wf(),
                0 <= i <= CHUNK_CELLS,
                out@.len() == i,
                forall|j: int| 0 <= j < i ==> #[trigger] out@[j] == surface_of(self@[j]),
            decreases CHUNK_CELLS - i,
        {
            let cell = &self.cells[i];
            proof {
                assert(self.cells@[i as int].wf());
                assert(cell@ == self@[i as int]);
            }
            let height = cell.total_height();
            let material_id = match cell.surface_material() {
                Some(id) => id,
                None => MaterialID(0),
            };
            out.push(SurfaceCell { height, material_id });
            i = i + 1;
        }
        out
    }
}

/// What `extract_surface` reports for a stack.
pub open spec fn surface_of(s: Seq<Layer>) -> SurfaceCell {
    SurfaceCell {
        height: total(s) as u64,
        material_id: if s.len() == 0 { MaterialID(0) } else { s.last().material_id },
    }
}

/// Chunk coordinates stay within this bound in magnitude (`2^31 / CHUNK_SIZE`).
pub const CHUNK_COORD_BOUND: i64 = 33554432;

/// The chunk coordinate of world coordinate `w` (floor division).
pub open spec fn chunk_coord(w: int) -> int {
    w / (CHUNK_SIZE as int)
}

/// The coordinate of world coordinate `w` inside its chunk.
pub open spec fn local_coord(w: int) -> int {
    w % (CHUNK_SIZE as int)
}

/// The map key of chunk `(cx, cy)`.
pub open spec fn chunk_key(cx: int, cy: int) -> int {
    (cx + CHUNK_COORD_BOUND) * (2 * CHUNK_COORD_BOUND) + (cy + CHUNK_COORD_BOUND)
}

pub open spec fn is_world(x: int, y: int) -> bool {
    i32::MIN <= x <= i32::MAX && i32::MIN <= y <= i32::MAX
}

/// The stack at world `(x, y)` in a chunk map: bare ground where no chunk exists.
pub open spec fn stack_at(chunks: Map<u64, Chunk>, x: int, y: int) -> Seq<Layer> {
    let k = chunk_key(chunk_coord(x), chunk_coord(y)) as u64;
    if chunks.contains_key(k) {
        chunks[k]@[local_index(local_coord(x), local_coord(y))]
    } else {
        Seq::empty()
    }
}

/// Splits a world coordinate into its chunk coordinate and the coordinate inside
/// the chunk (Euclidean division by `CHUNK_SIZE`).
fn split_coord(w: i32) -> (r: (i32, usize))
    ensures
        r.0 == chunk_coord(w as int),
        r.1 == local_coord(w as int),
        r.1 < CHUNK_SIZE,
        -CHUNK_COORD_BOUND <= r.0 < CHUNK_COORD_BOUND,
{
    let s = (w as i64 + 2147483648i64) as u64;
    let c = (s / 64) as i64 - CHUNK_COORD_BOUND;
    let l = (s % 64) as usize;
    assert(c == (w as int) / 64 && l == (w as int) % 64) by (nonlinear_arith)
        requires
            s == w as int + 2147483648,
            c == s / 64 - 33554432,
            l == s % 64,
    ;
    (c as i32, l)
}

fn key_of(cx: i32, cy: i32) -> (r: u64)
    requires
        -CHUNK_COORD_BOUND <= cx < CHUNK_COORD_BOUND,
        -CHUNK_COORD_BOUND <= cy < CHUNK_COORD_BOUND,
    ensures
        r == chunk_key(cx as int, cy as int),
{
    assert(0 <= (cx + 33554432) * 67108864 + (cy + 33554432) < 0x10000000000000000) by (nonlinear_arith)
        requires
            -33554432 <= cx < 33554432,
            -33554432 <= cy < 33554432,
    ;
    ((cx as i64 + CHUNK_COORD_BOUND) as u64) * (2 * CHUNK_COORD_BOUND as u64) + (cy as i64 + CHUNK_COORD_BOUND) as u64
}

proof fn lemma_world_split(x: int, y: int)
    requires
        is_world(x, y),
    ensures
        -CHUNK_COORD_BOUND <= chunk_coord(x) < CHUNK_COORD_BOUND,
        -CHUNK_COORD_BOUND <= chunk_coord(y) < CHUNK_COORD_BOUND,
        0 <= local_coord(x) < CHUNK_SIZE,
        0 <= local_coord(y) < CHUNK_SIZE,
        0 <= local_index(local_coord(x), local_coord(y)) < CHUNK_CELLS,
        0 <= chunk_key(chunk_coord(x), chunk_coord(y)) <= u64::MAX,
{
    assert(-33554432 <= x / 64 < 33554432) by (nonlinear_arith)
        requires
            -2147483648 <= x <= 2147483647,
    ;
    assert(-33554432 <= y / 64 < 33554432) by (nonlinear_arith)
        requires
            -2147483648 <= y <= 2147483647,
    ;
    let lx = local_coord(x);
    let ly = local_coord(y);
    assert(0 <= ly * 64 + lx < 4096) by (nonlinear_arith)
        requires
            0 <= lx < 64,
            0 <= ly < 64,
    ;
    let cx = chunk_coord(x);
    let cy = chunk_coord(y);
    assert(0 <= (cx + 33554432) * 67108864 + (cy + 33554432) < 0x10000000000000000) by (nonlinear_arith)
        requires
            -33554432 <= cx < 33554432,
            -33554432 <= cy < 33554432,
    ;
}

proof fn lemma_compose(c: int, l: int)
    requires
        -CHUNK_COORD_BOUND <= c < CHUNK_COORD_BOUND,
        0 <= l < CHUNK_SIZE,
    ensures
        chunk_coord(c * 64 + l) == c,
        local_coord(c * 64 + l) == l,
        i32::MIN <= c * 64 + l <= i32::MAX,
{
    assert((c * 64 + l) / 64 == c && (c * 64 + l) % 64 == l) by (nonlinear_arith)
        requires
            0 <= l < 64,
    ;
    assert(-2147483648 <= c * 64 + l <= 2147483647) by (nonlinear_arith)
        requires
            -33554432 <= c < 33554432,
            0 <= l < 64,
    ;
}

/// Two world cells that share a chunk key and a local index are the same cell.
proof fn lemma_same_slot(x: int, y: int, u: int, v: int)
    requires
        is_world(x, y),
        is_world(u, v),
        chunk_key(chunk_coord(x), chunk_coord(y)) == chunk_key(chunk_coord(u), chunk_coord(v)),
    ensures
        chunk_coord(x) == chunk_coord(u),
        chunk_coord(y) == chunk_coord(v),
        local_index(local_coord(x), local_coord(y)) == local_index(local_coord(u), local_coord(v))
            ==> x == u && y == v,
{
    lemma_world_split(x, y);
    lemma_world_split(u, v);
    let a = chunk_coord(x) + 33554432;
    let b = chunk_coord(y) + 33554432;
    let c = chunk_coord(u) + 33554432;
    let d = chunk_coord(v) + 33554432;
    assert(a == c && b == d) by (nonlinear_arith)
        requires
            0 <= b < 67108864,
            0 <= d < 67108864,
            0 <= a,
            0 <= c,
            a * 67108864 + b == c * 67108864 + d,
    ;
    let lx = local_coord(x);
    let ly = local_coord(y);
    let lu = local_coord(u);
    let lv = local_coord(v);
    if local_index(lx, ly) == local_index(lu, lv) {
        assert(lx == lu && ly == lv) by (nonlinear_arith)
            requires
                0 <= lx < 64,
                0 <= lu < 64,
                ly * 64 + lx == lv * 64 + lu,
        ;
        assert(x == 64 * chunk_coord(x) + lx);
        assert(u == 64 * chunk_coord(u) + lu);
        assert(y == 64 * chunk_coord(y) + ly);
        assert(v == 64 * chunk_coord(v) + lv);
    }
}

/// Whether `p` is a chunk coordinate that a world coordinate can have.
pub open spec fn in_chunk_range(p: (int, int)) -> bool {
    -CHUNK_COORD_BOUND <= p.0 < CHUNK_COORD_BOUND && -CHUNK_COORD_BOUND <= p.1 < CHUNK_COORD_BOUND
}

/// The chunk that holds world cell `(wx, wy)`.
pub open spec fn chunk_of(wx: int, wy: int) -> (int, int) {
    (chunk_coord(wx), chunk_coord(wy))
}

/// The chunk coordinates whose keys a chunk map holds.
pub open spec fn coords_of_keys(m: Map<u64, Chunk>) -> Set<(int, int)> {
    Set::new(|p: (int, int)| in_chunk_range(p) && m.contains_key(chunk_key(p.0, p.1) as u64))
}

proof fn lemma_key_injective(a: int, b: int, c: int, d: int)
    requires
        in_chunk_range((a, b)),
        in_chunk_range((c, d)),
    ensures
        0 <= chunk_key(a, b) <= u64::MAX,
        (chunk_key(a, b) as u64 == chunk_key(c, d) as u64) ==> a == c && b == d,
{
    let x = a + 33554432;
    let y = b + 33554432;
    let u = c + 33554432;
    let v = d + 33554432;
    assert(0 <= x * 67108864 + y < 0x10000000000000000) by (nonlinear_arith)
        requires
            0 <= x < 67108864,
            0 <= y < 67108864,
    ;
    assert(0 <= u * 67108864 + v < 0x10000000000000000) by (nonlinear_arith)
        requires
            0 <= u < 67108864,
            0 <= v < 67108864,
    ;
    if chunk_key(a, b) == chunk_key(c, d) {
        assert(x == u && y == v) by (nonlinear_arith)
            requires
                0 <= y < 67108864,
                0 <= v < 67108864,
                0 <= x,
                0 <= u,
                x * 67108864 + y == u * 67108864 + v,
        ;
    }
}

/// Adding the key of chunk `p` to a chunk map adds `p` to its coordinates.
proof fn lemma_coords_insert(old_map: Map<u64, Chunk>, new_map: Map<u64, Chunk>, p: (int, int))
    requires
        in_chunk_range(p),
        new_map.dom() == old_map.dom().insert(chunk_key(p.0, p.1) as u64),
    ensures
        coords_of_keys(new_map) == coords_of_keys(old_map).insert(p),
{
    assert forall|q: (int, int)| coords_of_keys(new_map).contains(q) <==> coords_of_keys(old_map).insert(p).contains(q) by {
        if in_chunk_range(q) {
            lemma_key_injective(q.0, q.1, p.0, p.1);
        }
    }
    assert(coords_of_keys(new_map) =~= coords_of_keys(old_map).insert(p));
}

/// A sparse, unbounded terrain: chunks created on first write and never removed.
pub struct Terrain {
    chunks: HashMap<u64, Chunk>,
}

impl View for Terrain {
    type V = Map<(int, int), Seq<Layer>>;

    /// The stack at every world cell.
    closed spec fn view(&self) -> Map<(int, int), Seq<Layer>> {
        Map::new(|p: (int, int)| is_world(p.0, p.1), |p: (int, int)| stack_at(self.chunks@, p.0, p.1))
    }
}

impl Terrain {
    pub closed spec fn wf(&self) -> bool {
        forall|k: u64| #[trigger] self.chunks@.contains_key(k) ==> {
            &&& self.chunks@[k].wf()
            &&& in_chunk_range((self.chunks@[k].position_spec().0 as int, self.chunks@[k].position_spec().1 as int))
            &&& k == chunk_key(self.chunks@[k].position_spec().0 as int, self.chunks@[k].position_spec().1 as int)
        }
    }

    /// The chunk coordinates of the chunks created so far.
    pub closed spec fn chunk_coords(&self) -> Set<(int, int)> {
        coords_of_keys(self.chunks@)
    }

    /// Every world cell of a well-formed terrain holds a well-formed stack.
    pub proof fn lemma_wf(&self, x: int, y: int)
        requires
            self.wf(),
            is_world(x, y),
        ensures
            self@.contains_key((x, y)),
            is_stack(self@[(x, y)]),
    {
        lemma_world_split(x, y);
        let k = chunk_key(chunk_coord(x), chunk_coord(y)) as u64;
        if self.chunks@.contains_key(k) {
            self.chunks@[k].lemma_wf();
        }
    }

    /// An empty terrain: bare ground everywhere.
    pub fn new() -> (r: Terrain)
        ensures
            r.wf(),
            forall|x: int, y: int| is_world(x, y) ==> #[trigger] r@[(x, y)] == Seq::<Layer>::empty(),
            r.chunk_coords() == Set::<(int, int)>::empty(),
    {
        let r = Terrain { chunks: HashMap::new() };
        assert(r.chunk_coords() =~= Set::<(int, int)>::empty());
        r
    }

    /// Number of chunks created so far.
    pub fn chunk_count(&self) -> (r: usize)
        requires
            self.wf(),
        ensures
            r == self.chunk_coords().len(),
    {
        broadcast use vstd::std_specs::hash::group_hash_axioms;

        proof {
            let m = self.chunks@;
            let f = |k: u64| (m[k].position_spec().0 as int, m[k].position_spec().1 as int);
            assert forall|q: (int, int)| m.dom().map(f).contains(q) <==> self.chunk_coords().contains(q) by {
                if self.chunk_coords().contains(q) {
                    let k = chunk_key(q.0, q.1) as u64;
                    let pos = (m[k].position_spec().0 as int, m[k].position_spec().1 as int);
                    lemma_key_injective(q.0, q.1, pos.0, pos.1);
                    assert(f(k) == q);
                }
                if m.dom().map(f).contains(q) {
                    let k = choose|k: u64| m.dom().contains(k) && f(k) == q;
                    lemma_key_injective(q.0, q.1, q.0, q.1);
                }
            }
            assert(m.dom().map(f) =~= self.chunk_coords());
            assert forall|k1: u64, k2: u64| m.dom().contains(k1) && m.dom().contains(k2) && f(k1) == f(k2) implies k1 == k2 by {}
            vstd::set_lib::lemma_map_size(m.dom(), self.chunk_coords(), f);
        }
        self.chunks.len()
    }

    /// Takes the chunk that holds world cell `(wx, wy)` out of the map, or makes a
    /// fresh one.
    fn take_chunk(&mut self, wx: i32, wy: i32) -> (r: (u64, usize, usize, Chunk))
        requires
            old(self).wf(),
        ensures
            r.0 == chunk_key(chunk_coord(wx as int), chunk_coord(wy as int)),
            r.1 == local_coord(wx as int),
            r.2 == local_coord(wy as int),
            r.1 < CHUNK_SIZE && r.2 < CHUNK_SIZE,
            r.3.wf(),
            r.3.position_spec() == (chunk_coord(wx as int) as i32, chunk_coord(wy as int) as i32),
            in_chunk_range(chunk_of(wx as int, wy as int)),
            final(self).wf(),
            final(self).chunks@ == old(self).chunks@.remove(r.0),
            old(self).chunks@.contains_key(r.0) ==> r.3@ == old(self).chunks@[r.0]@,
            !old(self).chunks@.contains_key(r.0) ==> forall|i: int|
                0 <= i < CHUNK_CELLS ==> #[trigger] r.3@[i] == Seq::<Layer>::empty(),
    {
        broadcast use vstd::std_specs::hash::group_hash_axioms;

        let (cx, lx) = split_coord(wx);
        let (cy, ly) = split_coord(wy);
        let key = key_of(cx, cy);
        let ghost m = self.chunks@;
        let chunk = match self.chunks.remove(&key) {
            Some(c) => c,
            None => Chunk::new((cx, cy)),
        };
        proof {
            if m.contains_key(key) {
                let pos = m[key].position_spec();
                lemma_key_injective(cx as int, cy as int, pos.0 as int, pos.1 as int);
            }
        }
        (key, lx, ly, chunk)
    }

    proof fn lemma_put_back(
        &self,
        old_map: Map<u64, Chunk>,
        key: u64,
        chunk: Chunk,
        wx: int,
        wy: int,
        s: Seq<Layer>,
    )
        requires
            is_world(wx, wy),
            key == chunk_key(chunk_coord(wx), chunk_coord(wy)),
            self.chunks@ == old_map.insert(key, chunk),
            old_map.contains_key(key) ==> old_map[key].wf(),
            chunk@ == (if old_map.contains_key(key) { old_map[key]@ } else {
                Seq::new(CHUNK_CELLS as nat, |i: int| Seq::<Layer>::empty())
            }).update(local_index(local_coord(wx), local_coord(wy)), s),
        ensures
            forall|x: int, y: int| is_world(x, y) ==> #[trigger] stack_at(self.chunks@, x, y)
                == if x == wx && y == wy { s } else { stack_at(old_map, x, y) },
    {
        lemma_world_split(wx, wy);
        if old_map.contains_key(key) {
            old_map[key].lemma_wf();
        }
        assert forall|x: int, y: int| is_world(x, y) implies #[trigger] stack_at(self.chunks@, x, y)
            == if x == wx && y == wy { s } else { stack_at(old_map, x, y) } by {
            lemma_world_split(x, y);
            let k = chunk_key(chunk_coord(x), chunk_coord(y));
            let li = local_index(local_coord(x), local_coord(y));
            let lw = local_index(local_coord(wx), local_coord(wy));
            if k == key {
                lemma_same_slot(x, y, wx, wy);
                assert(self.chunks@.contains_key(k as u64));
                assert(self.chunks@[k as u64] == chunk);
                if li == lw {
                    assert(x == wx && y == wy);
                } else {
                    assert(!(x == wx && y == wy));
                    assert(chunk@[li] == stack_at(old_map, x, y));
                }
            } else {
                assert(k as u64 != key);
                assert(self.chunks@.contains_key(k as u64) == old_map.contains_key(k as u64));
                assert(!(x == wx && y == wy));
            }
        }
    }

    /// Deposits `thickness` of `material_id` on world cell `(wx, wy)`, creating its
    /// chunk if needed.
    pub fn deposit(&mut self, wx: i32, wy: i32, thickness: u64, material_id: MaterialID)
        requires
            old(self).wf(),
            thickness > 0,
            total(old(self)@[(wx as int, wy as int)]) + thickness <= u64::MAX,
        ensures
            final(self).wf(),
            final(self)@ == old(self)@.insert(
                (wx as int, wy as int),
                deposited(old(self)@[(wx as int, wy as int)], thickness, material_id),
            ),
            final(self).chunk_coords() == old(self).chunk_coords().insert(chunk_of(wx as int, wy as int)),
    {
        broadcast use vstd::std_specs::hash::group_hash_axioms;

        let ghost old_map = self.chunks@;
        proof {
            lemma_world_split(wx as int, wy as int);
        }
        let (key, lx, ly, mut chunk) = self.take_chunk(wx, wy);
        proof {
            chunk.lemma_wf();
        }
        let cell = chunk.cell_mut(lx, ly);
        cell.deposit(thickness, material_id);
        self.chunks.insert(key, chunk);
        proof {
            assert(self.chunks@ =~= old_map.insert(key, chunk));
            assert(self.chunks@.dom() =~= old_map.dom().insert(key));
            lemma_coords_insert(old_map, self.chunks@, chunk_of(wx as int, wy as int));
            let s = deposited(old(self)@[(wx as int, wy as int)], thickness, material_id);
            if !old_map.contains_key(key) {
                assert(chunk@ =~= Seq::new(CHUNK_CELLS as nat, |i: int| Seq::<Layer>::empty()).update(
                    local_index(lx as int, ly as int), s));
            } else {
                assert(chunk@ =~= old_map[key]@.update(local_index(lx as int, ly as int), s));
            }
            self.lemma_put_back(old_map, key, chunk, wx as int, wy as int, s);
            assert(self@ =~= old(self)@.insert((wx as int, wy as int), s));
        }
    }

    /// Erodes `amount` from world cell `(wx, wy)` and returns the removed
    /// fragments from the top down.
    pub fn erode(&mut self, wx: i32, wy: i32, amount: u64) -> (r: Vec<Layer>)
        requires
            old(self).wf(),
            amount > 0,
        ensures
            final(self).wf(),
            final(self)@ == old(self)@.insert(
                (wx as int, wy as int),
                eroded(old(self)@[(wx as int, wy as int)], amount as nat).0,
            ),
            r@ == eroded(old(self)@[(wx as int, wy as int)], amount as nat).1,
            final(self).chunk_coords() == old(self).chunk_coords().insert(chunk_of(wx as int, wy as int)),
    {
        broadcast use vstd::std_specs::hash::group_hash_axioms;

        let ghost old_map = self.chunks@;
        proof {
            lemma_world_split(wx as int, wy as int);
        }
        let (key, lx, ly, mut chunk) = self.take_chunk(wx, wy);
        proof {
            chunk.lemma_wf();
        }
        let cell = chunk.cell_mut(lx, ly);
        let removed = cell.erode(amount);
        self.chunks.insert(key, chunk);
        proof {
            assert(self.chunks@ =~= old_map.insert(key, chunk));
            assert(self.chunks@.dom() =~= old_map.dom().insert(key));
            lemma_coords_insert(old_map, self.chunks@, chunk_of(wx as int, wy as int));
            let s = eroded(old(self)@[(wx as int, wy as int)], amount as nat).0;
            if !old_map.contains_key(key) {
                assert(chunk@ =~= Seq::new(CHUNK_CELLS as nat, |i: int| Seq::<Layer>::empty()).update(
                    local_index(lx as int, ly as int), s));
            } else {
                assert(chunk@ =~= old_map[key]@.update(local_index(lx as int, ly as int), s));
            }
            self.lemma_put_back(old_map, key, chunk, wx as int, wy as int, s);
            assert(self@ =~= old(self)@.insert((wx as int, wy as int), s));
        }
        removed
    }

    /// The cell at world `(wx, wy)`, if its chunk exists.
    pub fn cell(&self, wx: i32, wy: i32) -> (r: Option<&Cell>)
        requires
            self.wf(),
        ensures
            r matches Some(c) ==> c.wf() && c@ == self@[(wx as int, wy as int)],
            r is None ==> self@[(wx as int, wy as int)] == Seq::<Layer>::empty(),
    {
        broadcast use vstd::std_specs::hash::group_hash_axioms;

        proof {
            lemma_world_split(wx as int, wy as int);
        }
        let (cx, lx) = split_coord(wx);
        let (cy, ly) = split_coord(wy);
        let key = key_of(cx, cy);
        match self.chunks.get(&key) {
            Some(chunk) => {
                proof {
                    chunk.lemma_wf();
                }
                Some(chunk.cell(lx, ly))
            },
            None => None,
        }
    }

    /// Height of world cell `(wx, wy)`: the sum of its layers' thicknesses.
    pub fn height(&self, wx: i32, wy: i32) -> (r: u64)
        requires
            self.wf(),
        ensures
            r == total(self@[(wx as int, wy as int)]),
    {
        match self.cell(wx, wy) {
            Some(c) => c.total_height(),
            None => 0,
        }
    }

    /// Material of the top layer of world cell `(wx, wy)`; `None` for bare ground.
    pub fn surface_material(&self, wx: i32, wy: i32) -> (r: Option<MaterialID>)
        requires
            self.wf(),
        ensures
            r == (if self@[(wx as int, wy as int)].len() == 0 { None } else {
                Some(self@[(wx as int, wy as int)].last().material_id)
            }),
    {
        match self.cell(wx, wy) {
            Some(c) => c.surface_material(),
            None => None,
        }
    }

    /// The chunk at chunk coordinates `(cx, cy)`, if it was created.
    pub fn chunk(&self, cx: i32, cy: i32) -> (r: Option<&Chunk>)
        requires
            self.wf(),
            -CHUNK_COORD_BOUND <= cx < CHUNK_COORD_BOUND,
            -CHUNK_COORD_BOUND <= cy < CHUNK_COORD_BOUND,
        ensures
            r matches Some(c) ==> c.wf() && c.position_spec() == (cx, cy),
            (r is Some) == self.chunk_coords().contains((cx as int, cy as int)),
            forall|lx: int, ly: int|
                0 <= lx < CHUNK_SIZE && 0 <= ly < CHUNK_SIZE ==> #[trigger] self@[(cx * 64 + lx, cy * 64 + ly)]
                    == match r {
                    Some(c) => c@[local_index(lx, ly)],
                    None => Seq::<Layer>::empty(),
                },
    {
        broadcast use vstd::std_specs::hash::group_hash_axioms;

        let key = key_of(cx, cy);
        let r = self.chunks.get(&key);
        proof {
            if self.chunks@.contains_key(key) {
                let pos = self.chunks@[key].position_spec();
                lemma_key_injective(cx as int, cy as int, pos.0 as int, pos.1 as int);
            }
        }
        assert forall|lx: int, ly: int|
            0 <= lx < CHUNK_SIZE && 0 <= ly < CHUNK_SIZE implies #[trigger] self@[(cx * 64 + lx, cy * 64 + ly)]
                == match r {
                Some(c) => c@[local_index(lx, ly)],
                None => Seq::<Layer>::empty(),
            } by {
            lemma_compose(cx as int, lx);
            lemma_compose(cy as int, ly);
        }
        r
    }

    /// The cell at world `(wx, wy)` for update in place, creating its chunk if
    /// needed.
    pub fn cell_mut(&mut self, wx: i32, wy: i32) -> (r: &mut Cell)
        requires
            old(self).wf(),
        ensures
            r@ == old(self)@[(wx as int, wy as int)],
            r.wf(),
            final(r).wf() ==> final(self).wf(),
            final(self)@ == old(self)@.insert((wx as int, wy as int), final(r)@),
            final(self).chunk_coords() == old(self).chunk_coords().insert(chunk_of(wx as int, wy as int)),
    {
        broadcast use vstd::std_specs::hash::group_hash_axioms;

        proof {
            lemma_world_split(wx as int, wy as int);
        }
        let (cx, lx) = split_coord(wx);
        let (cy, ly) = split_coord(wy);
        let key = key_of(cx, cy);
        let ghost old_map = self.chunks@;
        if !self.chunks.contains_key(&key) {
            self.chunks.insert(key, Chunk::new((cx, cy)));
        }
        let ghost mid_map = self.chunks@;
        proof {
            assert(mid_map.dom() =~= old_map.dom().insert(key));
            lemma_coords_insert(old_map, mid_map, chunk_of(wx as int, wy as int));
            if old_map.contains_key(key) {
                let pos = old_map[key].position_spec();
                lemma_key_injective(cx as int, cy as int, pos.0 as int, pos.1 as int);
            }
        }
        proof {
            assert(self.chunks@.contains_key(key));
            self.chunks@[key].lemma_wf();
        }
        let chunk = match self.chunks.entry(key) {
            std::collections::hash_map::Entry::Occupied(o) => o.into_mut(),
            std::collections::hash_map::Entry::Vacant(v) => v.insert(Chunk::new((cx, cy))),
        };
        chunk.cell_mut(lx, ly)
    }

    /// An unnormalised surface normal at world `(wx, wy)` by central differences:
    /// `(h(x-1) - h(x+1), NORMAL_UP, h(y-1) - h(y+1))`, where a neighbour beyond
    /// the coordinate range stands in with the cell's own height.
    pub fn normal(&self, wx: i32, wy: i32) -> (r: (i128, i128, i128))
        requires
            self.wf(),
        ensures
            r.0 == total(self@[(if wx > i32::MIN { wx - 1 } else { wx as int }, wy as int)])
                - total(self@[(if wx < i32::MAX { wx + 1 } else { wx as int }, wy as int)]),
            r.1 == NORMAL_UP,
            r.2 == total(self@[(wx as int, if wy > i32::MIN { wy - 1 } else { wy as int })])
                - total(self@[(wx as int, if wy < i32::MAX { wy + 1 } else { wy as int })]),
    {
        let here = self.height(wx, wy);
        let left = if wx > i32::MIN { self.height(wx - 1, wy) } else { here };
        let right = if wx < i32::MAX { self.height(wx + 1, wy) } else { here };
        let down = if wy > i32::MIN { self.height(wx, wy - 1) } else { here };
        let up = if wy < i32::MAX { self.height(wx, wy + 1) } else { here };
        (left as i128 - right as i128, NORMAL_UP, down as i128 - up as i128)
    }
}

} // verus!

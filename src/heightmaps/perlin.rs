//! Seeded permutation table and the integer half of gradient noise: lattice
//! hashing and gradient selection. The floating-point interpolation that
//! combines them lives with the caller.
use rand::rngs::StdRng;
use rand::seq::SliceRandom;
use rand::SeedableRng;
use vstd::prelude::*;

verus! {

/// Number of distinct lattice hashes; also the length of the shuffled half of a table.
pub const PERMUTATION_SIZE: usize = 256;

/// Length of a full table: the shuffled half followed by a copy of itself.
pub const TABLE_SIZE: usize = 512;

/// Parameters of the gradient-fractal generator, which has none yet.
#[derive(Clone, Copy)]
pub struct GradientFractalPerlinParams {}

/// What a seeded Fisher-Yates shuffle of `items` yields for `seed`.
pub uninterp spec fn seeded_shuffle(items: Seq<i32>, seed: u64) -> Seq<i32>;

/// Relies on rand's `StdRng::seed_from_u64` and `SliceRandom::shuffle`: the generator
/// state is a function of the seed, and the shuffle only swaps elements.
#[verifier::external_body]
fn shuffle_seeded(items: &mut Vec<i32>, seed: u64)
    ensures
        final(items)@ == seeded_shuffle(old(items)@, seed),
        final(items)@.to_multiset() == old(items)@.to_multiset(),
{
    let mut rng: StdRng = SeedableRng::seed_from_u64(seed);
    items.shuffle(&mut rng);
}

/// The values 0, 1, ..., 255 in order.
pub open spec fn identity_order() -> Seq<i32> {
    Seq::new(PERMUTATION_SIZE as nat, |i: int| i as i32)
}

/// The table that `generate_permutation` builds for `seed`.
pub open spec fn table_of(seed: u32) -> Seq<i32> {
    doubled(seeded_shuffle(identity_order(), seed as u64))
}

/// A table of 512 entries whose first half is a permutation of 0..256 and whose
/// second half repeats the first.
pub open spec fn is_permutation_table(t: Seq<i32>) -> bool {
    &&& t.len() == TABLE_SIZE
    &&& t.subrange(0, PERMUTATION_SIZE as int).to_multiset() == identity_order().to_multiset()
    &&& forall|i: int| 0 <= i < TABLE_SIZE ==> #[trigger] t[i] == t[i % (PERMUTATION_SIZE as int)]
    &&& is_hash_table(t)
}

proof fn lemma_shuffled_values_in_range(s: Seq<i32>)
    requires
        s.to_multiset() == identity_order().to_multiset(),
    ensures
        s.len() == PERMUTATION_SIZE,
        forall|i: int| 0 <= i < s.len() ==> 0 <= #[trigger] s[i] < PERMUTATION_SIZE,
{
    s.to_multiset_ensures();
    identity_order().to_multiset_ensures();
    assert(s.len() == identity_order().len());
    assert forall|i: int| 0 <= i < s.len() implies 0 <= #[trigger] s[i] < PERMUTATION_SIZE by {
        assert(s.contains(s[i]));
        assert(s.to_multiset().count(s[i]) > 0);
        assert(identity_order().contains(s[i]));
        let j = choose|j: int| 0 <= j < identity_order().len() && identity_order()[j] == s[i];
        assert(identity_order()[j] == j as i32);
    }
}

/// The 512-entry table that repeats a 256-entry sequence twice.
pub open spec fn doubled(s: Seq<i32>) -> Seq<i32> {
    Seq::new(TABLE_SIZE as nat, |i: int| s[i % (PERMUTATION_SIZE as int)])
}

fn identity_vec() -> (r: Vec<i32>)
    ensures
        r@ == identity_order(),
{
    let mut r: Vec<i32> = Vec::new();
    let mut v: i32 = 0;
    while v < 256
        invariant
            0 <= v <= 256,
            r@ == identity_order().take(v as int),
        decreases 256 - v,
    {
        r.push(v);
        v = v + 1;
        assert(r@ =~= identity_order().take(v as int));
    }
    assert(r@ =~= identity_order());
    r
}

fn doubled_vec(half: &Vec<i32>) -> (r: Vec<i32>)
    requires
        half@.len() == PERMUTATION_SIZE,
    ensures
        r@ == doubled(half@),
{
    let mut p: Vec<i32> = Vec::new();
    let mut i: usize = 0;
    while i < TABLE_SIZE
        invariant
            0 <= i <= TABLE_SIZE,
            half@.len() == PERMUTATION_SIZE,
            p@ == doubled(half@).take(i as int),
        decreases TABLE_SIZE - i,
    {
        p.push(half[i % PERMUTATION_SIZE]);
        i = i + 1;
        assert(p@ =~= doubled(half@).take(i as int));
    }
    assert(p@ =~= doubled(half@));
    p
}

proof fn lemma_doubled_is_table(s: Seq<i32>)
    requires
        s.to_multiset() == identity_order().to_multiset(),
    ensures
        is_permutation_table(doubled(s)),
{
    lemma_shuffled_values_in_range(s);
    let t = doubled(s);
    assert(t.subrange(0, PERMUTATION_SIZE as int) =~= s);
    assert forall|i: int| 0 <= i < TABLE_SIZE implies #[trigger] t[i] == t[i % (PERMUTATION_SIZE as int)] by {
        assert(i % 256 % 256 == i % 256);
    }
    assert forall|i: int| 0 <= i < TABLE_SIZE implies 0 <= #[trigger] t[i] < PERMUTATION_SIZE by {
        assert(0 <= i % 256 < 256);
    }
}

/// Builds the noise permutation table for `seed`: the values 0..256 shuffled by a
/// generator seeded with `seed`, then repeated once so that a lookup at an index
/// one past a hashed value needs no wrap-around.
pub fn generate_permutation(seed: u32) -> (r: Vec<i32>)
    ensures
        r@ == table_of(seed),
        is_permutation_table(r@),
        forall|i: int|
            PERMUTATION_SIZE <= i < TABLE_SIZE ==> r@[i] == #[trigger] r@[i - PERMUTATION_SIZE as int],
{
    let mut permutation = identity_vec();
    shuffle_seeded(&mut permutation, seed as u64);
    proof {
        lemma_shuffled_values_in_range(permutation@);
        lemma_doubled_is_table(permutation@);
    }
    let p = doubled_vec(&permutation);
    assert(p@ =~= table_of(seed));
    assert forall|i: int|
        PERMUTATION_SIZE <= i < TABLE_SIZE implies p@[i] == #[trigger] p@[i - PERMUTATION_SIZE as int] by {
        assert(i % 256 == (i - 256) % 256);
    }
    p
}

/// The hash of the lattice corner `(x + dx, y + dy, z + dz)` of the cell whose
/// low corner is `(x, y, z)`, all taken modulo 256.
pub open spec fn corner_hash3d(t: Seq<i32>, x: int, y: int, z: int, dx: int, dy: int, dz: int) -> i32 {
    t[t[t[x % 256 + dx] + y % 256 + dy] + z % 256 + dz]
}

/// The hash of the lattice corner `(x + dx, y + dy)` of a 2D cell.
pub open spec fn corner_hash2d(t: Seq<i32>, x: int, y: int, dx: int, dy: int) -> i32 {
    t[t[x % 256 + dx] + y % 256 + dy]
}

/// A table that lattice hashing can index without bounds failures: 512 entries,
/// each in 0..256.
pub open spec fn is_hash_table(t: Seq<i32>) -> bool {
    &&& t.len() == TABLE_SIZE
    &&& forall|i: int| 0 <= i < TABLE_SIZE ==> 0 <= #[trigger] t[i] < PERMUTATION_SIZE
}

fn corner3d(p: &Vec<i32>, x: usize, y: usize, z: usize, dx: usize, dy: usize, dz: usize) -> (r: i32)
    requires
        is_hash_table(p@),
        dx < 2 && dy < 2 && dz < 2,
    ensures
        r == corner_hash3d(p@, x as int, y as int, z as int, dx as int, dy as int, dz as int),
        0 <= r < PERMUTATION_SIZE,
{
    let a = p[x % PERMUTATION_SIZE + dx] as usize + y % PERMUTATION_SIZE + dy;
    let b = p[a] as usize + z % PERMUTATION_SIZE + dz;
    p[b]
}

/// Hashes the eight corners of the lattice cell whose low corner is
/// `(x, y, z)` (each coordinate taken modulo 256). Entry `4 * dx + 2 * dy + dz`
/// belongs to the corner offset by `(dx, dy, dz)`.
pub fn lattice_hashes3d(x: usize, y: usize, z: usize, p: &Vec<i32>) -> (r: [i32; 8])
    requires
        is_hash_table(p@),
    ensures
        forall|dx: int, dy: int, dz: int|
            0 <= dx < 2 && 0 <= dy < 2 && 0 <= dz < 2 ==> #[trigger] r@[4 * dx + 2 * dy + dz]
                == corner_hash3d(p@, x as int, y as int, z as int, dx, dy, dz),
        forall|i: int| 0 <= i < 8 ==> 0 <= #[trigger] r@[i] < PERMUTATION_SIZE,
{
    let r = [
        corner3d(p, x, y, z, 0, 0, 0),
        corner3d(p, x, y, z, 0, 0, 1),
        corner3d(p, x, y, z, 0, 1, 0),
        corner3d(p, x, y, z, 0, 1, 1),
        corner3d(p, x, y, z, 1, 0, 0),
        corner3d(p, x, y, z, 1, 0, 1),
        corner3d(p, x, y, z, 1, 1, 0),
        corner3d(p, x, y, z, 1, 1, 1),
    ];
    assert forall|dx: int, dy: int, dz: int|
        0 <= dx < 2 && 0 <= dy < 2 && 0 <= dz < 2 implies #[trigger] r@[4 * dx + 2 * dy + dz]
            == corner_hash3d(p@, x as int, y as int, z as int, dx, dy, dz) by {
        assert(0 <= 4 * dx + 2 * dy + dz < 8);
    }
    assert forall|i: int| 0 <= i < 8 implies 0 <= #[trigger] r@[i] < PERMUTATION_SIZE by {
        assert(r@[i] == r[i]);
    }
    r
}

/// Hashes the four corners of the 2D lattice cell whose low corner is `(x, y)`
/// (each coordinate taken modulo 256). Entry `2 * dx + dy` belongs to the corner
/// offset by `(dx, dy)`.
pub fn lattice_hashes2d(x: usize, y: usize, p: &Vec<i32>) -> (r: [i32; 4])
    requires
        is_hash_table(p@),
    ensures
        forall|dx: int, dy: int|
            0 <= dx < 2 && 0 <= dy < 2 ==> #[trigger] r@[2 * dx + dy]
                == corner_hash2d(p@, x as int, y as int, dx, dy),
        forall|i: int| 0 <= i < 4 ==> 0 <= #[trigger] r@[i] < PERMUTATION_SIZE,
{
    let xi = x % PERMUTATION_SIZE;
    let yi = y % PERMUTATION_SIZE;
    let a0 = p[xi] as usize + yi;
    let a1 = p[xi + 1] as usize + yi;
    let r = [p[a0], p[a0 + 1], p[a1], p[a1 + 1]];
    assert forall|dx: int, dy: int|
        0 <= dx < 2 && 0 <= dy < 2 implies #[trigger] r@[2 * dx + dy]
            == corner_hash2d(p@, x as int, y as int, dx, dy) by {
        if dx == 0 {
            if dy == 0 {
                assert(r@[0] == p@[a0 as int]);
            } else {
                assert(r@[1] == p@[a0 + 1]);
            }
        } else {
            if dy == 0 {
                assert(r@[2] == p@[a1 as int]);
            } else {
                assert(r@[3] == p@[a1 + 1]);
            }
        }
    }
    r
}

/// The gradient direction that a 3D corner hash selects: the coefficients of
/// `x`, `y` and `z` in the dot product, chosen by the hash's low four bits.
pub open spec fn gradient3d_of(h: int) -> (int, int, int) {
    if h == 0 { (1, 1, 0) }
    else if h == 1 { (-1, 1, 0) }
    else if h == 2 { (1, -1, 0) }
    else if h == 3 { (-1, -1, 0) }
    else if h == 4 { (1, 0, 1) }
    else if h == 5 { (-1, 0, 1) }
    else if h == 6 { (1, 0, -1) }
    else if h == 7 { (-1, 0, -1) }
    else if h == 8 { (0, 1, 1) }
    else if h == 9 { (0, -1, 1) }
    else if h == 10 { (0, 1, -1) }
    else if h == 11 { (0, -1, -1) }
    else if h == 12 { (1, 1, 0) }
    else if h == 13 { (0, -1, 1) }
    else if h == 14 { (-1, 1, 0) }
    else { (0, -1, -1) }
}

/// Selects one of sixteen fixed gradient directions by the low four bits of
/// `hash`, as coefficients of the offsets `(x, y, z)` in the dot product.
pub fn gradient3d(hash: i32) -> (r: (i8, i8, i8))
    ensures
        (r.0 as int, r.1 as int, r.2 as int) == gradient3d_of((hash & 15) as int),
{
    let h = hash & 15;
    assert(0 <= h < 16) by (bit_vector)
        requires
            h == hash & 15,
    ;
    match h {
        0 => (1, 1, 0),
        1 => (-1, 1, 0),
        2 => (1, -1, 0),
        3 => (-1, -1, 0),
        4 => (1, 0, 1),
        5 => (-1, 0, 1),
        6 => (1, 0, -1),
        7 => (-1, 0, -1),
        8 => (0, 1, 1),
        9 => (0, -1, 1),
        10 => (0, 1, -1),
        11 => (0, -1, -1),
        12 => (1, 1, 0),
        13 => (0, -1, 1),
        14 => (-1, 1, 0),
        _ => (0, -1, -1),
    }
}

/// The 2D gradient that a corner hash selects: one of the four axis directions.
pub open spec fn gradient2d_of(h: int) -> (int, int) {
    if h % 4 == 0 { (0, 1) }
    else if h % 4 == 1 { (0, -1) }
    else if h % 4 == 2 { (1, 0) }
    else { (-1, 0) }
}

/// Selects the 2D gradient for a non-negative corner hash by its remainder modulo 4.
pub fn gradient2d(hash: i32) -> (r: (i8, i8))
    requires
        hash >= 0,
    ensures
        (r.0 as int, r.1 as int) == gradient2d_of(hash as int),
{
    let index = hash % 4;
    if index == 0 {
        (0, 1)
    } else if index == 1 {
        (0, -1)
    } else if index == 2 {
        (1, 0)
    } else {
        (-1, 0)
    }
}

} // verus!

use procedural_terrain::heightmaps::perlin::{
    generate_permutation, gradient2d, gradient3d, lattice_hashes2d, lattice_hashes3d,
};
use procedural_terrain::noise;

#[test]
fn permutation_table_shape() {
    for seed in [0u32, 1, 7, 42, 12345, u32::MAX] {
        let p = generate_permutation(seed);
        assert_eq!(p.len(), 512);
        let mut seen = vec![false; 256];
        for v in &p[..256] {
            assert!(*v >= 0 && *v < 256);
            assert!(!seen[*v as usize]);
            seen[*v as usize] = true;
        }
        for i in 256..512 {
            assert_eq!(p[i], p[i - 256]);
        }
    }
}

#[test]
fn permutation_is_shuffled() {
    let p = generate_permutation(42);
    let identity: Vec<i32> = (0..256).collect();
    assert_ne!(&p[..256], &identity[..]);
}

#[test]
fn permutation_reproducible() {
    assert_eq!(generate_permutation(99), generate_permutation(99));
    assert_eq!(noise::generate_permutation(5), generate_permutation(5));
    assert_ne!(generate_permutation(1), generate_permutation(2));
}

#[test]
fn lattice_hashes_follow_table() {
    let p = generate_permutation(3);
    let (x, y, z) = (300usize, 17usize, 255usize);
    let r = lattice_hashes3d(x, y, z, &p);
    let (xi, yi, zi) = (x % 256, y % 256, z % 256);
    for dx in 0..2 {
        for dy in 0..2 {
            for dz in 0..2 {
                let expected =
                    p[(p[(p[xi + dx] as usize) + yi + dy] as usize) + zi + dz];
                assert_eq!(r[4 * dx + 2 * dy + dz], expected);
            }
        }
    }
    let r2 = lattice_hashes2d(x, y, &p);
    for dx in 0..2 {
        for dy in 0..2 {
            assert_eq!(r2[2 * dx + dy], p[(p[xi + dx] as usize) + yi + dy]);
        }
    }
}

#[test]
fn gradients_by_hash() {
    assert_eq!(gradient3d(0), (1, 1, 0));
    assert_eq!(gradient3d(3), (-1, -1, 0));
    assert_eq!(gradient3d(7), (-1, 0, -1));
    assert_eq!(gradient3d(13), (0, -1, 1));
    assert_eq!(gradient3d(14), (-1, 1, 0));
    assert_eq!(gradient3d(15), (0, -1, -1));
    assert_eq!(gradient3d(16 + 4), (1, 0, 1));
    assert_eq!(gradient2d(0), (0, 1));
    assert_eq!(gradient2d(5), (0, -1));
    assert_eq!(gradient2d(6), (1, 0));
    assert_eq!(gradient2d(255), (-1, 0));
}

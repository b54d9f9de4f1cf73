use procedural_terrain::heightmaps::dla::{
    absorption, layer_kernel_size, layer_particle_budget, populate, random_particle,
    scale_heightmap, scale_particle_map, walk, walk_decision, DiffusionLimitedAggregationParams, Kernel,
    KernelError, KernelType, Particle, ParticleMap, Point, WalkDecision, WalkOutcome, ABSORPTION_SCALE,
    pick_free, release,
};

fn params(width: usize, height: usize, t: u32, particles: u32) -> DiffusionLimitedAggregationParams {
    DiffusionLimitedAggregationParams {
        height,
        width,
        spawns: vec![Point::new(1, 1)],
        t,
        particles,
        layers: 1,
        density: 80,
        walk_limit: 1_000_000,
        kernel: Kernel { size: 5, value: 2000, k_type: KernelType::Gaussian },
    }
}

#[test]
fn point_basics() {
    let p = Point::new(3, 4);
    assert_eq!(p.key(), (3, 4));
    assert_eq!(p.mid(&Point::new(4, 4)).key(), (7, 8));
    assert_eq!(p.scale(2).key(), (6, 8));
    let mut q = Particle::new(p);
    q.link((3, 5));
    assert_eq!(q.linked, vec![(3, 5)]);
    assert_eq!(q.point, p);
}

#[test]
fn full_absorption_saturates_small_grid() {
    let prm = params(3, 3, ABSORPTION_SCALE, 8);
    let mut map = ParticleMap::from_spawns(3, 3, &prm.spawns);
    assert_eq!(map.count(), 1);
    let settled = populate(&prm, &mut map);
    assert_eq!(settled, 8);
    assert_eq!(map.count(), 9);
    for x in 0..3 {
        for y in 0..3 {
            assert!(map.contains(x, y));
        }
    }
    let depths = map.depths();
    assert_eq!(depths[4], 1);
    assert!(depths.iter().all(|d| *d >= 1));
    assert!(depths.iter().any(|d| *d >= 2));
}

#[test]
fn single_free_cell_attaches_to_spawn() {
    let prm = params(2, 1, ABSORPTION_SCALE, 1);
    let mut map = ParticleMap::from_spawns(2, 1, &vec![Point::new(0, 0)]);
    let outcome = walk(&Point::new(1, 0), &prm, &mut map);
    assert_eq!(outcome, WalkOutcome::Settled((1, 0), (0, 0)));
    assert_eq!(map.get(1, 0).unwrap().linked, vec![(0, 0)]);
    assert!(map.get(0, 0).unwrap().linked.is_empty());
    let d = map.depths();
    assert_eq!(d, vec![1, 2]);
    assert_eq!(map.get(1, 0).unwrap().height(&map), 2);
    assert_eq!(map.get(0, 0).unwrap().height(&map), 1);
}

#[test]
fn doubling_inserts_bridges() {
    let prm = params(2, 1, ABSORPTION_SCALE, 1);
    let mut map = ParticleMap::from_spawns(2, 1, &vec![Point::new(0, 0)]);
    walk(&Point::new(1, 0), &prm, &mut map);
    let big = scale_particle_map(2, &map);
    assert_eq!(big.width(), 4);
    assert_eq!(big.height(), 2);
    assert_eq!(big.count(), 3);
    assert_eq!(big.get(2, 0).unwrap().linked, vec![(1, 0)]);
    assert_eq!(big.get(1, 0).unwrap().linked, vec![(0, 0)]);
    assert!(big.get(0, 0).unwrap().linked.is_empty());
    assert!(!big.contains(3, 0));
    let d = big.depths();
    assert_eq!(&d[0..4], &[1, 2, 3, 0]);
}

#[test]
fn doubling_keeps_every_edge() {
    let prm = params(5, 5, ABSORPTION_SCALE / 2, 12);
    let mut map = ParticleMap::from_spawns(5, 5, &vec![Point::new(2, 2)]);
    populate(&prm, &mut map);
    let big = scale_particle_map(2, &map);
    let mut edges = 0;
    for x in 0..5u32 {
        for y in 0..5u32 {
            if let Some(p) = map.get(x, y) {
                let scaled = big.get(2 * x, 2 * y).unwrap();
                assert_eq!(scaled.linked.len(), p.linked.len());
                for (j, l) in p.linked.iter().enumerate() {
                    let m = (x + l.0, y + l.1);
                    assert_eq!(scaled.linked[j], m);
                    assert_eq!(big.get(m.0, m.1).unwrap().linked, vec![(2 * l.0, 2 * l.1)]);
                    assert!(big.contains(2 * l.0, 2 * l.1));
                    edges += 1;
                }
            }
        }
    }
    assert_eq!(big.count(), map.count() + edges);
}

#[test]
fn spawn_draws_free_cells() {
    let map = ParticleMap::from_spawns(4, 3, &vec![Point::new(0, 0), Point::new(3, 2), Point::new(9, 9)]);
    assert_eq!(map.count(), 2);
    for _ in 0..200 {
        let p = random_particle(3, 4, &map);
        assert!(p.x < 4 && p.y < 3);
        assert!(!map.contains(p.x, p.y));
    }
}

#[test]
fn full_grid_spawn_falls_back_to_origin() {
    let prm = params(1, 2, ABSORPTION_SCALE, 1);
    let mut map = ParticleMap::from_spawns(1, 2, &vec![Point::new(0, 0)]);
    populate(&prm, &mut map);
    assert_eq!(map.count(), 2);
    let p = random_particle(2, 1, &map);
    assert_eq!(p.key(), (0, 0));
    assert_eq!(populate(&prm, &mut map), 0);
}

#[test]
fn absorption_fraction() {
    assert_eq!(absorption(500_000, 4, 2), (250_000_000_000, 1_000_000_000_000));
    assert_eq!(absorption(ABSORPTION_SCALE, 4, 1), (1_000_000_000_000_000_000, 1_000_000_000_000_000_000));
    assert_eq!(absorption(700_000, 4, 3), (700_000, 1_000_000));
    assert_eq!(absorption(700_000, 4, 4), (1, 1));
}

#[test]
fn kernel_sizes() {
    assert_eq!(layer_kernel_size(13, 1, 12), 3);
    assert_eq!(layer_kernel_size(13, 3, 12), 9);
    assert_eq!(layer_kernel_size(3, 8, 20), 39);
    assert_eq!(layer_kernel_size(1, 0, 1), 1);
    let even = Kernel { size: 4, value: 1000, k_type: KernelType::Gaussian };
    assert_eq!(even.validate(), Err(KernelError::EvenSize));
    let one = Kernel { size: 1, value: 1000, k_type: KernelType::Gaussian };
    assert_eq!(one.validate(), Ok(()));
}

#[test]
fn particle_budgets() {
    assert_eq!(layer_particle_budget(3, 3, 0, 80), 0);
    assert_eq!(layer_particle_budget(100, 100, 1, 80), 3200);
    assert_eq!(layer_particle_budget(3, 3, 4, 80), 184);
}

#[test]
fn grid_doubling() {
    let g = vec![vec![1, 2], vec![3, 4]];
    let d = scale_heightmap(&g);
    assert_eq!(
        d,
        vec![vec![1, 1, 2, 2], vec![1, 1, 2, 2], vec![3, 3, 4, 4], vec![3, 3, 4, 4]]
    );
}

#[test]
fn full_absorption_settles_at_start() {
    let prm = params(3, 3, ABSORPTION_SCALE, 1);
    let mut map = ParticleMap::from_spawns(3, 3, &prm.spawns);
    let outcome = walk(&Point::new(1, 2), &prm, &mut map);
    assert_eq!(outcome, WalkOutcome::Settled((1, 2), (1, 1)));
    assert_eq!(map.get(1, 2).unwrap().linked, vec![(1, 1)]);
    assert!(map.get(1, 1).unwrap().linked.is_empty());
    let (settled, free) = map.neighbourhood((1, 0));
    assert_eq!(settled, vec![(1, 1)]);
    assert_eq!(free, vec![(0, 0), (2, 0)]);
}

#[test]
fn walk_decisions() {
    assert_eq!(walk_decision(4, 0, 1, u64::MAX, 0), WalkDecision::Settle);
    assert_eq!(walk_decision(2, 2, 500_000, 249_999_999_999, 1), WalkDecision::Settle);
    assert_eq!(walk_decision(2, 2, 500_000, 250_000_000_000, 1), WalkDecision::Move(1));
    assert_eq!(walk_decision(3, 1, 700_000, 699_999, 0), WalkDecision::Settle);
    assert_eq!(walk_decision(3, 0, 700_000, 700_000, 0), WalkDecision::Stay);
    assert_eq!(walk_decision(0, 3, ABSORPTION_SCALE, 0, 2), WalkDecision::Move(2));
    assert_eq!(walk_decision(0, 0, ABSORPTION_SCALE, 0, 0), WalkDecision::Stay);
}

#[test]
fn particle_height_over_own_links() {
    let prm = params(2, 1, ABSORPTION_SCALE, 1);
    let mut map = ParticleMap::from_spawns(2, 1, &vec![Point::new(0, 0)]);
    walk(&Point::new(1, 0), &prm, &mut map);
    let loose = Particle::new(Point::new(5, 5));
    assert_eq!(loose.height(&map), 1);
    let mut linked = Particle::new(Point::new(7, 7));
    linked.link((0, 0));
    linked.link((9, 9));
    assert_eq!(linked.height(&map), 2);
    linked.link((1, 0));
    assert_eq!(linked.height(&map), 3);
}

#[test]
fn walk_without_moves() {
    let mut prm = params(3, 3, 1, 1);
    prm.walk_limit = 0;
    let mut map = ParticleMap::from_spawns(3, 3, &vec![Point::new(1, 1)]);
    assert_eq!(walk(&Point::new(0, 0), &prm, &mut map), WalkOutcome::Dropped((0, 0)));
    assert_eq!(map.count(), 1);
    assert_eq!(walk(&Point::new(2, 1), &prm, &mut map), WalkOutcome::Settled((2, 1), (1, 1)));
    assert_eq!(map.count(), 2);
}

#[test]
fn walk_surrounded_settles_in_place() {
    let prm = params(3, 3, 1, 1);
    let spawns = vec![Point::new(1, 0), Point::new(0, 1), Point::new(2, 1), Point::new(1, 2)];
    let mut map = ParticleMap::from_spawns(3, 3, &spawns);
    assert_eq!(walk(&Point::new(1, 1), &prm, &mut map), WalkOutcome::Settled((1, 1), (1, 0)));
    assert_eq!(map.get(1, 1).unwrap().linked, vec![(1, 0)]);
    assert!(map.get(1, 0).unwrap().linked.is_empty());
}

#[test]
fn spawn_picks_first_free_draw() {
    let map = ParticleMap::from_spawns(4, 3, &vec![Point::new(0, 0), Point::new(3, 2)]);
    assert_eq!(pick_free(&vec![(3, 2), (0, 0), (1, 1), (2, 2)], &map).key(), (1, 1));
    assert_eq!(pick_free(&vec![(3, 2), (3, 2)], &map).key(), (0, 0));
    assert_eq!(pick_free(&vec![], &map).key(), (0, 0));
}

#[test]
fn release_only_from_free_cells() {
    let prm = params(3, 3, ABSORPTION_SCALE, 1);
    let mut map = ParticleMap::from_spawns(3, 3, &prm.spawns);
    assert_eq!(release(Point::new(1, 1), &prm, &mut map), None);
    assert_eq!(map.count(), 1);
    assert_eq!(
        release(Point::new(1, 0), &prm, &mut map),
        Some(WalkOutcome::Settled((1, 0), (1, 1)))
    );
    assert_eq!(map.count(), 2);
}

#[test]
fn point_arithmetic() {
    let a = Point::new(6, 9);
    let b = Point::new(2, 3);
    assert_eq!(a.times(&b).key(), (12, 27));
    assert_eq!(a.minus(&b).key(), (4, 6));
}

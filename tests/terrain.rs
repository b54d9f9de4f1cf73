use procedural_terrain::terrain::{
    Cell, Chunk, Layer, Material, MaterialID, MaterialRegistry, Terrain, CHUNK_SIZE,
};

#[test]
fn deposit_same_material_merges() {
    let mut c = Cell::new();
    c.deposit(300, MaterialID(1));
    c.deposit(200, MaterialID(1));
    assert_eq!(c.layers().len(), 1);
    assert_eq!(c.layers()[0].thickness, 500);
    assert_eq!(c.total_height(), 500);
}

#[test]
fn deposit_other_material_appends() {
    let mut c = Cell::new();
    c.deposit(300, MaterialID(1));
    c.deposit(200, MaterialID(2));
    assert_eq!(c.layers().len(), 2);
    assert_eq!(c.layers()[1].material_id, MaterialID(2));
    assert_eq!(c.total_height(), 500);
    assert_eq!(c.surface_material(), Some(MaterialID(2)));
}

#[test]
fn erode_half() {
    let mut c = Cell::new();
    c.deposit(1000, MaterialID(3));
    let removed = c.erode(500);
    assert_eq!(removed, vec![Layer { thickness: 500, material_id: MaterialID(3) }]);
    assert_eq!(c.layers().len(), 1);
    assert_eq!(c.total_height(), 500);
}

#[test]
fn erode_all() {
    let mut c = Cell::new();
    c.deposit(1000, MaterialID(3));
    let removed = c.erode(1000);
    assert_eq!(removed, vec![Layer { thickness: 1000, material_id: MaterialID(3) }]);
    assert!(c.is_empty());
    assert_eq!(c.surface_material(), None);
}

#[test]
fn erode_more_than_present() {
    let mut c = Cell::new();
    c.deposit(1000, MaterialID(3));
    let removed = c.erode(2000);
    let sum: u64 = removed.iter().map(|l| l.thickness).sum();
    assert_eq!(sum, 1000);
    assert!(c.is_empty());
    assert_eq!(c.total_height(), 0);
}

#[test]
fn erode_across_layers() {
    let mut c = Cell::new();
    c.deposit(100, MaterialID(1));
    c.deposit(200, MaterialID(2));
    c.deposit(300, MaterialID(3));
    let removed = c.erode(450);
    assert_eq!(
        removed,
        vec![
            Layer { thickness: 300, material_id: MaterialID(3) },
            Layer { thickness: 150, material_id: MaterialID(2) },
        ]
    );
    assert_eq!(c.total_height(), 150);
    assert_eq!(c.surface_layer(), Some(&Layer { thickness: 50, material_id: MaterialID(2) }));
}

#[test]
fn registry_lookup() {
    let mut reg = MaterialRegistry::new();
    let sand = Material { erosion: 800, cohesion: 100, saturation: 200, permeability: 900, mass: 1500 };
    let rock = Material { erosion: 50, ..Material::default() };
    let a = reg.register(sand);
    let b = reg.register(rock);
    assert_eq!(a, MaterialID(0));
    assert_eq!(b, MaterialID(1));
    assert_eq!(*reg.get(a), sand);
    assert_eq!(reg.get(b).erosion, 50);
    assert!(reg.contains(b));
    assert!(!reg.contains(MaterialID(2)));
}

#[test]
fn layer_defaults() {
    let l = Layer::new();
    assert_eq!(l.thickness(), 0);
    assert_eq!(l.material_id(), MaterialID(0));
    assert_eq!(Layer::default(), l);
}

#[test]
fn terrain_chunks_by_floor_division() {
    let mut t = Terrain::new();
    t.deposit(-1, -1, 100, MaterialID(1));
    t.deposit(0, 0, 250, MaterialID(2));
    t.deposit(63, 63, 7, MaterialID(2));
    assert_eq!(t.chunk_count(), 2);
    assert_eq!(t.height(-1, -1), 100);
    assert_eq!(t.height(0, 0), 250);
    assert_eq!(t.height(1, 0), 0);
    assert_eq!(t.height(-64, -64), 0);
    assert_eq!(t.surface_material(-1, -1), Some(MaterialID(1)));
    assert_eq!(t.surface_material(5, 5), None);
    t.deposit(-64, 5, 9, MaterialID(4));
    assert_eq!(t.chunk_count(), 3);
    let chunk = t.chunk(-1, -1).unwrap();
    assert_eq!(chunk.position, (-1, -1));
    let surface = chunk.extract_surface();
    assert_eq!(surface.len(), CHUNK_SIZE * CHUNK_SIZE);
    assert_eq!(surface[63 * CHUNK_SIZE + 63].height, 100);
    assert_eq!(surface[63 * CHUNK_SIZE + 63].material_id, MaterialID(1));
    assert_eq!(surface[0].height, 0);
    assert_eq!(surface[0].material_id, MaterialID(0));
}

#[test]
fn terrain_erode_returns_fragments() {
    let mut t = Terrain::new();
    t.deposit(10, -20, 400, MaterialID(1));
    t.deposit(10, -20, 100, MaterialID(1));
    let removed = t.erode(10, -20, 600);
    assert_eq!(removed, vec![Layer { thickness: 500, material_id: MaterialID(1) }]);
    assert_eq!(t.height(10, -20), 0);
    assert!(t.cell(10, -20).unwrap().is_empty());
    assert!(t.cell(1000, 1000).is_none());
}

#[test]
fn chunk_cells() {
    let mut ch = Chunk::new((2, 3));
    ch.cell_mut(4, 5).deposit(12, MaterialID(7));
    assert_eq!(ch.cell(4, 5).total_height(), 12);
    assert!(ch.cell(5, 4).is_empty());
    assert_eq!(ch.extract_surface()[5 * CHUNK_SIZE + 4].material_id, MaterialID(7));
}

#[test]
fn terrain_cell_in_place() {
    let mut t = Terrain::new();
    t.cell_mut(-5, 70).deposit(30, MaterialID(2));
    t.cell_mut(-5, 70).deposit(20, MaterialID(2));
    assert_eq!(t.height(-5, 70), 50);
    assert_eq!(t.cell(-5, 70).unwrap().layers().len(), 1);
    assert_eq!(t.chunk_count(), 1);
    let removed = t.cell_mut(-5, 70).erode(10);
    assert_eq!(removed, vec![Layer { thickness: 10, material_id: MaterialID(2) }]);
    assert_eq!(t.height(-5, 70), 40);
}

#[test]
fn terrain_normal_central_difference() {
    let mut t = Terrain::new();
    t.deposit(0, 0, 1000, MaterialID(1));
    t.deposit(1, 1, 400, MaterialID(1));
    t.deposit(1, -1, 100, MaterialID(1));
    assert_eq!(t.normal(1, 0), (1000, procedural_terrain::terrain::NORMAL_UP, 100 - 400));
    assert_eq!(t.normal(0, 0), (0, 2000, 0));
    let mut edge = Terrain::new();
    edge.deposit(i32::MAX, 0, 5, MaterialID(1));
    edge.deposit(i32::MAX - 1, 0, 7, MaterialID(1));
    assert_eq!(edge.normal(i32::MAX, 0), (2, 2000, 0));
}

#[test]
fn terrain_chunks_are_kept() {
    let mut t = Terrain::new();
    assert_eq!(t.chunk_count(), 0);
    assert!(t.chunk(0, 0).is_none());
    t.erode(3, 3, 10);
    assert_eq!(t.chunk_count(), 1);
    assert_eq!(t.chunk(0, 0).unwrap().position, (0, 0));
    t.cell_mut(-65, 0).deposit(5, MaterialID(1));
    assert_eq!(t.chunk_count(), 2);
    assert_eq!(t.chunk(-2, 0).unwrap().position, (-2, 0));
    t.erode(-65, 0, 5);
    assert_eq!(t.chunk_count(), 2);
    assert!(t.chunk(-2, 0).is_some());
}

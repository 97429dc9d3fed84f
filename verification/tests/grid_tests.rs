use hexwalk::geometry::Point;
use hexwalk::grid::Grid;
use hexwalk::grid::TileInfo;

fn pt(x: i64, y: i64) -> Point {
    Point::new(x, y)
}

#[test]
fn tile_info_new_starts_empty() {
    let t = TileInfo::new(7, pt(1, 2));
    assert_eq!(t.index, 7);
    assert_eq!(t.position, pt(1, 2));
    assert!(t.neighbors.is_empty());
    assert!(t.vertices.is_empty());
}

#[test]
fn hex_grid_size_formula() {
    // One cell of scale 10 units (10_000 thousandths):
    // width = 2 * floor(10_000 * 866025 / 1000000) = 17_320,
    // height = 3 * floor(10_000 / 2) = 15_000.
    let size = Grid::hex_grid_size(1, 1, 10_000);
    assert_eq!(size, pt(17_320, 15_000));
    let size2 = Grid::hex_grid_size(10, 10, 12_000);
    assert_eq!(size2.x, 10 * 2 * 10_392);
    assert_eq!(size2.y, 10 * 3 * 6_000);
}

#[test]
fn two_cell_column_is_mutually_adjacent() {
    // A 1-column, 2-row grid: two vertically adjacent cells that only
    // know each other.
    let g = Grid::hex_grid(1, 2, 10_000, pt(0, 0));
    assert_eq!(g.tiles.len(), 2);
    assert_eq!(g.tiles[0].neighbors, vec![1]);
    assert_eq!(g.tiles[1].neighbors, vec![0]);
}

#[test]
fn grid_positions_follow_offset_layout() {
    let g = Grid::hex_grid(3, 3, 10_000, pt(100, 200));
    let co = 8_660; // floor(10_000 * 866025 / 1000000)
    let tw = 2 * co;
    let th = 3 * 5_000;
    assert_eq!(g.tiles[0].position, pt(100, 200));
    assert_eq!(g.tiles[1].position, pt(100 + tw, 200));
    // row 1 is odd: shifted right by half a cell
    assert_eq!(g.tiles[3].position, pt(100 + co, 200 + th));
    assert_eq!(g.tiles[4].position, pt(100 + tw + co, 200 + th));
    // row 2 is even again
    assert_eq!(g.tiles[6].position, pt(100, 200 + 2 * th));
}

#[test]
fn grid_vertices_ring_the_center() {
    let g = Grid::hex_grid(1, 1, 10_000, pt(0, 0));
    let t = &g.tiles[0];
    let co = 8_660;
    let si = 5_000;
    assert_eq!(t.vertices, vec![
        pt(0, 10_000),
        pt(-co, si),
        pt(-co, -si),
        pt(0, -10_000),
        pt(co, -si),
        pt(co, si),
    ]);
}

#[test]
fn adjacency_is_symmetric_and_irreflexive() {
    let g = Grid::hex_grid(5, 4, 10_000, pt(0, 0));
    let n = g.tiles.len();
    for a in 0..n {
        assert!(!g.tiles[a].neighbors.contains(&a));
        for b in 0..n {
            let ab = g.tiles[a].neighbors.contains(&b);
            let ba = g.tiles[b].neighbors.contains(&a);
            assert_eq!(ab, ba);
        }
    }
}

#[test]
fn interior_cells_have_six_neighbors() {
    let g = Grid::hex_grid(5, 5, 10_000, pt(0, 0));
    // cell (2, 2) is interior
    let idx = 2 * 5 + 2;
    assert_eq!(g.tiles[idx].neighbors.len(), 6);
    // corner (0, 0) has fewer
    assert!(g.tiles[0].neighbors.len() < 6);
    assert_eq!(g.tiles[0].neighbors.len(), 2);
}

//! Building grids from cell listings.

use voronoi_swim::cell::CellId;
use voronoi_swim::grid::Grid;
use voronoi_swim::records::CellRecord;
use voronoi_swim::records::GridError;
use voronoi_swim::vector_3d::Vector3D;

fn record(
    processor_num: usize,
    local_index: usize,
    x: i64,
    neighbours: Vec<CellId>,
) -> CellRecord {
    CellRecord { local_index, processor_num, center: Vector3D::new(x, 0, 0), neighbours }
}

#[test]
fn listing_is_sorted_and_resolved() {
    // Listed out of order: the builder sorts by (processor, local index).
    let records = vec![
        record(1, 0, 2, vec![CellId::new(0, 0)]),
        record(0, 1, 1, vec![CellId::new(0, 0), CellId::new(1, 0)]),
        record(0, 0, 0, vec![CellId::new(0, 1)]),
    ];
    let grid = Grid::from_cell_records(&records).unwrap();
    assert_eq!(grid.len(), 3);
    let cell = |i: usize| grid.data.nodes[i].data;
    assert_eq!((cell(0).processor_num, cell(0).local_index), (0, 0));
    assert_eq!((cell(1).processor_num, cell(1).local_index), (0, 1));
    assert_eq!((cell(2).processor_num, cell(2).local_index), (1, 0));
    for i in 0..3 {
        assert_eq!(cell(i).global_index, i);
    }
    assert_eq!(cell(0).center.x, 0);
    assert_eq!(cell(1).center.x, 1);
    assert_eq!(cell(2).center.x, 2);
    // (0,0) names (0,1): one edge from cell 0 to cell 1.
    assert_eq!(grid.data.nodes[0].edges.len(), 1);
    assert_eq!(grid.data.nodes[0].edges[0].index, 1);
    // (0,1) names both others.
    assert_eq!(grid.data.nodes[1].edges.len(), 2);
    assert_eq!(grid.data.nodes[1].edges[0].index, 0);
    assert_eq!(grid.data.nodes[1].edges[1].index, 2);
    // The face normal points from the naming cell toward itself:
    // center(from) - center(to).
    assert_eq!(grid.data.nodes[0].edges[0].label.normal.x, -1);
}

#[test]
fn duplicate_identities_are_rejected() {
    let records = vec![record(0, 3, 0, vec![]), record(0, 3, 5, vec![])];
    assert!(matches!(Grid::from_cell_records(&records), Err(GridError::DuplicateCellId)));
}

#[test]
fn unresolved_neighbours_are_rejected() {
    let records = vec![
        record(0, 0, 0, vec![CellId::new(7, 7)]),
        record(0, 1, 1, vec![CellId::new(0, 0)]),
    ];
    assert!(matches!(Grid::from_cell_records(&records), Err(GridError::UnresolvedNeighbour)));
}

#[test]
fn far_away_centers_are_rejected() {
    let records = vec![record(0, 0, i64::MAX, vec![])];
    assert!(matches!(Grid::from_cell_records(&records), Err(GridError::CoordinateOutOfRange)));
}

#[test]
fn empty_listing_builds_an_empty_grid() {
    let records: Vec<CellRecord> = vec![];
    let grid = Grid::from_cell_records(&records).unwrap();
    assert_eq!(grid.len(), 0);
}

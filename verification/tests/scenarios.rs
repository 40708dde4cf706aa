//! End-to-end sweep scenarios on small grids.

use voronoi_swim::cell::Cell;
use voronoi_swim::direction::Direction;
use voronoi_swim::grid::Grid;
use voronoi_swim::param_file::ParamFile;
use voronoi_swim::run::run_sweep_on_processors;
use voronoi_swim::vector_3d::Vector3D;

fn params(solve: u64) -> ParamFile {
    ParamFile {
        num_directions: 1,
        batch_size: usize::MAX,
        send_time_offset: 7,
        send_time_per_byte: 3,
        recv_time_offset: 7,
        recv_time_per_byte: 3,
        solve_time_offset: solve,
        solve_time_per_task: 0,
        size_per_message: 2,
    }
}

fn cell(local_index: usize, processor_num: usize, global_index: usize, x: i64, y: i64, z: i64) -> Cell {
    Cell { center: Vector3D { x, y, z }, global_index, local_index, processor_num }
}

fn direction(index: usize, x: i64, y: i64, z: i64) -> Direction {
    Direction { vector: Vector3D { x, y, z }, index }
}

fn total_solved(procs: &[voronoi_swim::processor::Processor]) -> usize {
    procs.iter().map(|p| p.num_solved).sum()
}

#[test]
fn single_cell_single_direction() {
    let cells = vec![cell(0, 0, 0, 0, 0, 0)];
    let grid = Grid::from_cell_pairs(&cells, &vec![]);
    let dirs = vec![direction(0, 1, 0, 0)];
    let p = params(10);
    let (sweep, result) = run_sweep_on_processors(&p, &grid, &dirs);
    let rd = result.unwrap();
    assert_eq!(rd.num_processors, 1);
    assert_eq!(rd.time, 10);
    assert_eq!(rd.time_spent_communicating, 0);
    assert_eq!(rd.time_spent_waiting, 0);
    assert_eq!(total_solved(&sweep.processors.processors), 1);
}

#[test]
fn two_cell_chain_one_processor() {
    let cells = vec![cell(0, 0, 0, 0, 0, 0), cell(1, 0, 1, 1, 0, 0)];
    let grid = Grid::from_cell_pairs(&cells, &vec![(0, 1), (1, 0)]);
    let dirs = vec![direction(0, 1, 0, 0)];
    let p = params(10);
    let (sweep, result) = run_sweep_on_processors(&p, &grid, &dirs);
    let rd = result.unwrap();
    assert_eq!(rd.num_processors, 1);
    assert_eq!(rd.time, 20);
    assert_eq!(rd.time_spent_communicating, 0);
    assert_eq!(rd.time_spent_waiting, 0);
    assert_eq!(total_solved(&sweep.processors.processors), 2);
}

#[test]
fn two_cell_chain_two_processors() {
    let cells = vec![cell(0, 0, 0, 0, 0, 0), cell(0, 1, 1, 1, 0, 0)];
    let grid = Grid::from_cell_pairs(&cells, &vec![(0, 1), (1, 0)]);
    let dirs = vec![direction(0, 1, 0, 0)];
    let p = params(10);
    let mut sweep = voronoi_swim::sweep::Sweep::new(&p, &grid, &dirs, 2);
    let rd = sweep.run().unwrap();
    assert_eq!(rd.num_processors, 2);
    // The downwind cell starts after its upwind neighbour's result arrives:
    // one solve, the arrival paid on receive, the second solve.
    // recv_cost(1) = 7 + 1 * 3 * 2 = 13.
    assert_eq!(sweep.processors.processors[1].time, 10 + 13 + 10);
    assert_eq!(rd.time, 33);
    assert!(sweep.processors.processors[0].time_spent_communicating > 0);
    assert!(sweep.processors.processors[1].time_spent_communicating > 0);
    assert!(
        sweep.processors.processors[0].time_spent_waiting > 0
            || sweep.processors.processors[1].time_spent_waiting > 0
    );
    assert_eq!(total_solved(&sweep.processors.processors), 2);
}

#[test]
fn perpendicular_direction_no_dependency() {
    let cells = vec![cell(0, 0, 0, 0, 0, 0), cell(0, 1, 1, 1, 0, 0)];
    let grid = Grid::from_cell_pairs(&cells, &vec![(0, 1), (1, 0)]);
    let dirs = vec![direction(0, 0, 1, 0)];
    // No dependency in either orientation: both tasks start immediately.
    let dag = grid.get_dependency_graph(&dirs[0]);
    assert_eq!(dag.get(0).unwrap().edges.len(), 0);
    assert_eq!(dag.get(1).unwrap().edges.len(), 0);
    assert_eq!(dag.get(0).unwrap().data.num_upwind, 0);
    assert_eq!(dag.get(1).unwrap().data.num_upwind, 0);
    let p = params(10);
    let mut sweep = voronoi_swim::sweep::Sweep::new(&p, &grid, &dirs, 2);
    let rd = sweep.run().unwrap();
    assert_eq!(sweep.processors.processors[0].time, 10);
    assert_eq!(sweep.processors.processors[1].time, 10);
    assert_eq!(rd.time, 10);
    assert_eq!(rd.time_spent_communicating, 0);
}

#[test]
fn opposite_direction_reverses_the_edge() {
    let cells = vec![cell(0, 0, 0, 0, 0, 0), cell(1, 0, 1, 1, 0, 0)];
    let grid = Grid::from_cell_pairs(&cells, &vec![(0, 1), (1, 0)]);
    let toward = direction(0, 1, 0, 0);
    let away = direction(0, -1, 0, 0);
    let dag_toward = grid.get_dependency_graph(&toward);
    // (center(A) - center(B)) . d = -1 < 0: the edge runs A -> B.
    assert_eq!(dag_toward.get(0).unwrap().edges.len(), 1);
    assert_eq!(dag_toward.get(0).unwrap().edges[0].index, 1);
    assert_eq!(dag_toward.get(1).unwrap().edges.len(), 0);
    assert_eq!(dag_toward.get(1).unwrap().data.num_upwind, 1);
    let dag_away = grid.get_dependency_graph(&away);
    // Reversed direction: now (B - A) . d = -1 < 0 and the edge runs B -> A.
    assert_eq!(dag_away.get(1).unwrap().edges.len(), 1);
    assert_eq!(dag_away.get(1).unwrap().edges[0].index, 0);
    assert_eq!(dag_away.get(0).unwrap().edges.len(), 0);
    assert_eq!(dag_away.get(0).unwrap().data.num_upwind, 1);
    // And the run still completes in two serial solves.
    let p = params(10);
    let (_, result) = run_sweep_on_processors(&p, &grid, &vec![away]);
    assert_eq!(result.unwrap().time, 20);
}

#[test]
fn four_cells_many_directions_one_processor() {
    // A 2 x 2 cell patch with each undirected adjacency listed twice.
    let cells = vec![
        cell(0, 0, 0, 0, 0, 0),
        cell(1, 0, 1, 1, 0, 0),
        cell(2, 0, 2, 0, 1, 0),
        cell(3, 0, 3, 1, 1, 0),
    ];
    let pairs = vec![(0, 1), (1, 0), (0, 2), (2, 0), (1, 3), (3, 1), (2, 3), (3, 2)];
    let grid = Grid::from_cell_pairs(&cells, &pairs);
    let mut dirs = Vec::new();
    for k in 0..84usize {
        dirs.push(direction(k, 1 + (k as i64 % 3), (k as i64 % 5) - 2, (k as i64 % 7) - 3));
    }
    let p = params(10);
    let mut sweep = voronoi_swim::sweep::Sweep::new(&p, &grid, &dirs, 1);
    let rd = sweep.run().unwrap();
    assert_eq!(rd.time, 4 * 84 * 10);
    assert_eq!(rd.time_spent_communicating, 0);
    assert_eq!(total_solved(&sweep.processors.processors), 336);
}

#[test]
fn doubling_the_solve_offset_doubles_a_serial_run() {
    let cells = vec![
        cell(0, 0, 0, 0, 0, 0),
        cell(1, 0, 1, 1, 0, 0),
        cell(2, 0, 2, 2, 0, 0),
    ];
    let grid = Grid::from_cell_pairs(&cells, &vec![(0, 1), (1, 2)]);
    let dirs = vec![direction(0, 1, 0, 0), direction(1, -1, 0, 0)];
    let (_, once) = run_sweep_on_processors(&params(10), &grid, &dirs);
    let (_, twice) = run_sweep_on_processors(&params(20), &grid, &dirs);
    assert_eq!(twice.unwrap().time, 2 * once.unwrap().time);
}

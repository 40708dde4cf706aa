//! Unit tests of the building blocks.

use voronoi_swim::cell::Cell;
use voronoi_swim::cell::CellId;
use voronoi_swim::direction::get_directions;
use voronoi_swim::direction::Direction;
use voronoi_swim::grid::is_downwind;
use voronoi_swim::face::Face;
use voronoi_swim::param_file::default_batch_size;
use voronoi_swim::param_file::default_message_size;
use voronoi_swim::param_file::default_num_directions;
use voronoi_swim::param_file::sat_add;
use voronoi_swim::param_file::sat_mul;
use voronoi_swim::param_file::ParamFile;
use voronoi_swim::processor::Processor;
use voronoi_swim::pqueue::pq_new;
use voronoi_swim::task::Task;
use voronoi_swim::vector_3d::Vector3D;

#[test]
fn vector_sub_and_dot() {
    let a = Vector3D::new(3, -2, 5);
    let b = Vector3D::new(1, 1, 1);
    let d = a.sub(&b);
    assert_eq!((d.x, d.y, d.z), (2, -3, 4));
    assert_eq!(a.dot(&b), 3 - 2 + 5);
    assert_eq!(d.dot(&a), 6 + 6 + 20);
}

#[test]
fn cell_id_round_trip() {
    let c = Cell {
        center: Vector3D::new(0, 0, 0),
        global_index: 7,
        local_index: 4,
        processor_num: 2,
    };
    assert_eq!(c.get_id(), CellId::new(2, 4));
    assert_ne!(c.get_id(), CellId::new(4, 2));
}

#[test]
fn cell_id_parsing_accepts_exactly_digits_comma_digits() {
    let parse = |text: &str| CellId::parse(&text.as_bytes().to_vec());
    assert_eq!(parse("12,34"), Some(CellId::new(12, 34)));
    assert_eq!(parse("0,0"), Some(CellId::new(0, 0)));
    assert_eq!(parse("007,1"), Some(CellId::new(7, 1)));
    assert_eq!(parse(""), None);
    assert_eq!(parse(","), None);
    assert_eq!(parse("12,"), None);
    assert_eq!(parse(",34"), None);
    assert_eq!(parse("x12,34"), None);
    assert_eq!(parse("12,34,5"), None);
    assert_eq!(parse("12 34"), None);
    assert_eq!(parse("99999999999999999999999999,1"), None);
}

#[test]
fn directions_are_numbered_in_order() {
    let vectors = vec![Vector3D::new(1, 0, 0), Vector3D::new(0, 1, 0), Vector3D::new(0, 0, 1)];
    let dirs = get_directions(&vectors);
    assert_eq!(dirs.len(), 3);
    for (i, d) in dirs.iter().enumerate() {
        assert_eq!(d.index, i);
        assert_eq!(d.vector, vectors[i]);
    }
}

#[test]
fn task_priority_prefers_earlier_directions_then_cells() {
    let cell = |g: usize| Cell {
        center: Vector3D::new(0, 0, 0),
        global_index: g,
        local_index: g,
        processor_num: 0,
    };
    let dir = |i: usize| Direction { vector: Vector3D::new(1, 0, 0), index: i };
    let task = |g: usize, d: usize| Task {
        cell: cell(g),
        direction: dir(d),
        processor_num: 0,
        num_upwind: 0,
    };
    assert_eq!(task(3, 2).get_priority(), 3 + 2 * 1_000_000);
    // A later direction outranks any cell index difference.
    assert!(task(999_999, 0).get_priority() < task(0, 1).get_priority());
}

#[test]
fn send_cost_charges_offset_only_when_something_moves() {
    let p = ParamFile {
        num_directions: 1,
        batch_size: usize::MAX,
        send_time_offset: 5,
        send_time_per_byte: 2,
        recv_time_offset: 5,
        recv_time_per_byte: 2,
        solve_time_offset: 1,
        solve_time_per_task: 0,
        size_per_message: 10,
    };
    assert_eq!(p.send_cost(0), 0);
    assert_eq!(p.send_cost(1), 5 + 20);
    assert_eq!(p.send_cost(3), 5 + 60);
}

#[test]
fn saturating_arithmetic_clips_at_the_top() {
    assert_eq!(sat_add(u64::MAX - 1, 1), u64::MAX);
    assert_eq!(sat_add(u64::MAX, 7), u64::MAX);
    assert_eq!(sat_add(2, 3), 5);
    assert_eq!(sat_mul(u64::MAX / 2, 3), u64::MAX);
    assert_eq!(sat_mul(10, 12), 120);
    assert_eq!(sat_mul(7, 0), 0);
}

#[test]
fn defaults_match_the_documented_values() {
    assert_eq!(default_num_directions(), 84);
    assert_eq!(default_batch_size(), usize::MAX);
    assert_eq!(default_message_size(), 384);
}

#[test]
fn downwind_test_uses_a_strict_inequality() {
    let d = Direction { vector: Vector3D::new(1, 0, 0), index: 0 };
    assert!(is_downwind(&Face { normal: Vector3D::new(-1, 0, 0) }, &d));
    assert!(!is_downwind(&Face { normal: Vector3D::new(1, 0, 0) }, &d));
    assert!(!is_downwind(&Face { normal: Vector3D::new(0, 1, 0) }, &d));
}

#[test]
fn ready_queue_yields_the_greatest_priority_first() {
    let p = ParamFile {
        num_directions: 1,
        batch_size: usize::MAX,
        send_time_offset: 0,
        send_time_per_byte: 0,
        recv_time_offset: 0,
        recv_time_per_byte: 0,
        solve_time_offset: 1,
        solve_time_per_task: 0,
        size_per_message: 0,
    };
    let mut proc = Processor::new(0, pq_new(), Vector3D::new(0, 0, 0), &p);
    proc.add_task_to_queue(11, 5);
    proc.add_task_to_queue(22, 50);
    proc.add_task_to_queue(33, 20);
    assert_eq!(proc.get_next_task(), Some(22));
    assert_eq!(proc.get_next_task(), Some(33));
    assert_eq!(proc.get_next_task(), Some(11));
    assert_eq!(proc.get_next_task(), None);
}

#[test]
fn receiving_moves_tasks_into_the_ready_queue() {
    let p = ParamFile {
        num_directions: 1,
        batch_size: usize::MAX,
        send_time_offset: 4,
        send_time_per_byte: 1,
        recv_time_offset: 4,
        recv_time_per_byte: 1,
        solve_time_offset: 1,
        solve_time_per_task: 0,
        size_per_message: 3,
    };
    let mut proc = Processor::new(0, pq_new(), Vector3D::new(0, 0, 0), &p);
    proc.add_task_to_receive_queue(8, 17);
    proc.add_task_to_receive_queue(9, 4);
    let n = proc.receive_tasks();
    assert_eq!(n, 2);
    // recv_cost(2) = 4 + 2 * 1 * 3 = 10, charged to the clock and the books.
    assert_eq!(proc.time, 10);
    assert_eq!(proc.time_spent_communicating, 10);
    assert_eq!(proc.get_next_task(), Some(8));
    assert_eq!(proc.get_next_task(), Some(9));
}

#[test]
fn waking_books_the_forward_jump_as_idle_time() {
    let p = ParamFile {
        num_directions: 1,
        batch_size: usize::MAX,
        send_time_offset: 0,
        send_time_per_byte: 0,
        recv_time_offset: 0,
        recv_time_per_byte: 0,
        solve_time_offset: 6,
        solve_time_per_task: 0,
        size_per_message: 0,
    };
    let mut proc = Processor::new(3, pq_new(), Vector3D::new(0, 0, 0), &p);
    proc.go_to_sleep();
    assert!(proc.asleep);
    proc.wake_up_at(25);
    assert!(!proc.asleep);
    assert_eq!(proc.time, 25);
    assert_eq!(proc.time_spent_waiting, 25);
    // Waking at an earlier time leaves the clock alone.
    proc.go_to_sleep();
    proc.wake_up_at(10);
    assert!(!proc.asleep);
    assert_eq!(proc.time, 25);
    assert_eq!(proc.time_spent_waiting, 25);
}

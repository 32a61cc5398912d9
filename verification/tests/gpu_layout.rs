use puggles::gpu_evaluator::{batch_layout, chunk_rows, flatten_rows};

#[test]
fn layout_covers_every_solution() {
    let l = batch_layout(100, 5, 2);
    assert_eq!(l.output_bytes, 800);
    assert_eq!((l.solution_length, l.num_objectives, l.pop_size), (5, 2, 100));
    assert_eq!(l.workgroups, 2);
    assert_eq!(batch_layout(64, 1, 1).workgroups, 1);
    assert_eq!(batch_layout(65, 1, 1).workgroups, 2);
    assert_eq!(batch_layout(0, 1, 1).workgroups, 0);
}

#[test]
fn rows_round_trip_through_the_flat_buffer() {
    let rows = vec![vec![1.0f32, 2.0, 3.0], vec![4.0, 5.0, 6.0]];
    let flat = flatten_rows(&rows);
    assert_eq!(flat, vec![1.0, 2.0, 3.0, 4.0, 5.0, 6.0]);
    assert_eq!(chunk_rows(&flat, 3), rows);
    assert_eq!(chunk_rows(&flat, 2), vec![vec![1.0, 2.0], vec![3.0, 4.0], vec![5.0, 6.0]]);
}

#[test]
fn a_trailing_partial_row_is_dropped() {
    assert_eq!(chunk_rows(&[1u32, 2, 3, 4, 5], 2), vec![vec![1, 2], vec![3, 4]]);
    assert!(chunk_rows::<u8>(&[], 4).is_empty());
}

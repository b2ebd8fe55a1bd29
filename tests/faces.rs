use reralcity::faces::{copy_faces, offset_face, IndexTuple};
use reralcity::layout::{block_count, city_plan};

#[test]
fn offset_face_moves_every_index() {
    let face = vec![
        IndexTuple(0, None, None),
        IndexTuple(3, Some(2), None),
        IndexTuple(7, Some(1), Some(9)),
    ];
    let moved = offset_face(&face, 5);
    assert_eq!(
        moved,
        vec![
            IndexTuple(5, None, None),
            IndexTuple(8, Some(7), None),
            IndexTuple(12, Some(6), Some(14)),
        ]
    );
}

#[test]
fn single_point_footprint_single_layer() {
    let plan = city_plan(1);
    assert_eq!(plan.len(), 1);
    assert_eq!(block_count(1), 1);
    let faces: Vec<Vec<IndexTuple>> = Vec::new();
    let out = copy_faces(&faces, 1, 1);
    assert!(out.is_empty());
}

#[test]
fn unit_square_two_layers() {
    let face = vec![
        IndexTuple(0, None, None),
        IndexTuple(1, None, None),
        IndexTuple(2, None, None),
        IndexTuple(3, None, None),
    ];
    let faces = vec![face];
    let plan = city_plan(2);
    assert_eq!(plan.len(), 9);
    assert_eq!(plan.len() * 4, 36);
    let out = copy_faces(&faces, 4, 2);
    assert_eq!(out.len(), 9);
    for (k, f) in out.iter().enumerate() {
        let expected: Vec<IndexTuple> =
            (1..=4).map(|base| IndexTuple(base + 4 * k, None, None)).collect();
        assert_eq!(*f, expected);
    }
}

#[test]
fn copy_faces_order_is_block_then_face() {
    let faces = vec![
        vec![IndexTuple(0, Some(0), Some(0)), IndexTuple(1, Some(1), Some(1))],
        vec![IndexTuple(2, None, Some(2))],
    ];
    let out = copy_faces(&faces, 3, 2);
    assert_eq!(out.len(), 18);
    for q in 0..out.len() {
        let k = q / 2;
        let offset = 3 * k + 1;
        let base = &faces[q % 2];
        assert_eq!(out[q], offset_face(base, offset));
    }
    assert_eq!(out[5], vec![IndexTuple(9, None, Some(9))]);
}

#[test]
fn remapped_block_ranges_do_not_overlap() {
    let n = 5usize;
    let face: Vec<IndexTuple> = (0..n).map(|i| IndexTuple(i, None, None)).collect();
    let out = copy_faces(&vec![face], n, 3);
    assert_eq!(out.len(), 25);
    let mut seen = vec![0u32; n * 25 + 1];
    for (k, f) in out.iter().enumerate() {
        for t in f {
            assert!(t.0 >= n * k + 1 && t.0 <= n * k + n);
            seen[t.0] += 1;
        }
    }
    assert_eq!(seen[0], 0);
    assert!(seen[1..].iter().all(|&c| c == 1));
}

#[test]
fn copy_faces_with_empty_face_list() {
    let faces: Vec<Vec<IndexTuple>> = vec![Vec::new()];
    let out = copy_faces(&faces, 0, 3);
    assert_eq!(out.len(), 25);
    assert!(out.iter().all(|f| f.is_empty()));
}

use aluviz::utils::ByteSegmentTree;

fn naive_width(cells: &[Option<u8>], cell_width: usize, l: usize, r: usize) -> usize {
    if l > r {
        return 0;
    }
    cells[l..=r].iter().filter(|c| c.is_some()).count() * cell_width
}

#[test]
fn fresh_tree_is_unoccupied() {
    let tree = ByteSegmentTree::new(8, 4);
    assert_eq!(tree.memsize(1, 0, 7, 0, 7), 0);
    for pos in 0..8 {
        assert_eq!(tree.get(1, 0, 7, pos), 0);
    }
}

#[test]
fn write_sequence_stops_at_last_cell() {
    let mut tree = ByteSegmentTree::new(4, 2);
    assert_eq!(tree.update_from(vec![1, 2, 3], 2), 4);
    assert_eq!(tree.get(1, 0, 3, 0), 0);
    assert_eq!(tree.get(1, 0, 3, 1), 0);
    assert_eq!(tree.get(1, 0, 3, 2), 1);
    assert_eq!(tree.get(1, 0, 3, 3), 2);
    assert_eq!(tree.memsize(1, 0, 3, 0, 3), 4);
    assert_eq!(tree.update_from(vec![9], 4), 0);
    assert_eq!(tree.update_from(vec![9], usize::MAX), 0);
    assert_eq!(tree.memsize(1, 0, 3, 0, 3), 4);
}

#[test]
fn rewriting_a_cell_keeps_its_width() {
    let mut tree = ByteSegmentTree::new(5, 8);
    assert_eq!(tree.update_from(vec![1, 2], 0), 16);
    assert_eq!(tree.update_from(vec![7], 1), 8);
    assert_eq!(tree.get(1, 0, 4, 0), 1);
    assert_eq!(tree.get(1, 0, 4, 1), 7);
    assert_eq!(tree.memsize(1, 0, 4, 0, 4), 16);
}

#[test]
fn sparse_writes_match_a_linear_scan() {
    let n: usize = 13;
    let cell_width: usize = 3;
    let mut tree = ByteSegmentTree::new(n, cell_width);
    let mut cells: Vec<Option<u8>> = vec![None; n];
    for &(pos, byte) in &[(7usize, 70u8), (2, 20), (12, 120), (0, 1), (8, 80), (7, 71)] {
        assert_eq!(tree.update_from(vec![byte], pos), cell_width);
        cells[pos] = Some(byte);
    }
    for pos in 0..n {
        assert_eq!(tree.get(1, 0, n - 1, pos), cells[pos].unwrap_or(0));
    }
    for l in 0..n {
        for r in l..n {
            let w = tree.memsize(1, 0, n - 1, l, r);
            assert_eq!(w, naive_width(&cells, cell_width, l, r));
            // widening the range never lowers the width
            if l > 0 {
                assert!(tree.memsize(1, 0, n - 1, l - 1, r) >= w);
            }
            if r + 1 < n {
                assert!(tree.memsize(1, 0, n - 1, l, r + 1) >= w);
            }
            // the width of a range is the sum over any cut of it
            for m in l..r {
                assert_eq!(
                    tree.memsize(1, 0, n - 1, l, m) + tree.memsize(1, 0, n - 1, m + 1, r),
                    w
                );
            }
        }
    }
    assert_eq!(tree.memsize(1, 0, n - 1, 5, 4), 0);
}

#[test]
fn single_cell_tree() {
    let mut tree = ByteSegmentTree::new(1, 8);
    assert_eq!(tree.memsize(1, 0, 0, 0, 0), 0);
    assert_eq!(tree.update_from(vec![42, 43], 0), 8);
    assert_eq!(tree.get(1, 0, 0, 0), 42);
    assert_eq!(tree.memsize(1, 0, 0, 0, 0), 8);
}

use faer::mat::MatRef;

fn at(v: MatRef<'_, u32>, i: usize, j: usize) -> u32 {
    *v.get(i, j)
}

// 3 x 4 column-major: element (i, j) = 10 * i + j
fn data() -> Vec<u32> {
    let mut d = Vec::new();
    for j in 0..4u32 {
        for i in 0..3u32 {
            d.push(10 * i + j);
        }
    }
    d
}

#[test]
fn row_major_view_reads_rows() {
    let data = [1u8, 2, 3, 4, 5, 6];
    let v = MatRef::from_row_major_slice(&data, 2, 3);
    assert_eq!(v.shape(), (2, 3));
    assert_eq!(*v.get(1, 0), 4);
    assert_eq!(*v.get(0, 2), 3);
    assert_eq!(v.row_stride(), 3);
    assert_eq!(v.col_stride(), 1);
}

#[test]
fn column_major_view_and_positions() {
    let d = data();
    let v = MatRef::from_column_major_slice(&d, 3, 4);
    assert_eq!((v.nrows(), v.ncols()), (3, 4));
    assert_eq!(at(v, 2, 3), 23);
    assert_eq!(v.ptr_at(2, 3), 11);
    assert_eq!(v.ptr_at(3, 0), 0);
    assert_eq!(v.as_ptr(), 0);
    assert_eq!(*v.__at((1, 2)), 12);
}

#[test]
fn strided_views() {
    let d: Vec<u32> = (0..10).collect();
    let c = MatRef::from_column_major_slice_with_stride(&d, 2, 3, 4);
    assert_eq!(at(c, 1, 2), 9);
    assert_eq!(at(c, 0, 1), 4);
    let r = MatRef::from_row_major_slice_with_stride(&d, 3, 2, 4);
    assert_eq!(at(r, 2, 1), 9);
    assert_eq!(at(r, 1, 0), 4);
}

#[test]
fn transpose_swaps_indices() {
    let d = data();
    let v = MatRef::from_column_major_slice(&d, 3, 4);
    let t = v.transpose();
    assert_eq!(t.shape(), (4, 3));
    assert_eq!(at(t, 3, 1), 13);
    assert_eq!(t.row_stride(), 3);
    assert_eq!(t.col_stride(), 1);
}

#[test]
fn split_at_gives_quadrants() {
    let d = data();
    let v = MatRef::from_column_major_slice(&d, 3, 4);
    let (tl, tr, bl, br) = v.split_at(1, 3);
    assert_eq!(tl.shape(), (1, 3));
    assert_eq!(tr.shape(), (1, 1));
    assert_eq!(bl.shape(), (2, 3));
    assert_eq!(br.shape(), (2, 1));
    assert_eq!(at(tr, 0, 0), 3);
    assert_eq!(at(bl, 1, 2), 22);
    assert_eq!(at(br, 1, 0), 23);
    let (a, b, c, e) = v.split_with(3, 0);
    assert_eq!((a.shape(), b.shape(), c.shape(), e.shape()), ((3, 0), (3, 4), (0, 0), (0, 4)));
}

#[test]
fn rows_and_columns() {
    let d = data();
    let v = MatRef::from_column_major_slice(&d, 3, 4);
    assert_eq!(at(v.row(2), 0, 3), 23);
    assert_eq!(at(v.col(1), 2, 0), 21);
    let (top, bottom) = v.split_at_row(1);
    assert_eq!((top.nrows(), bottom.nrows()), (1, 2));
    assert_eq!(at(bottom, 0, 0), 10);
    let (left, right) = v.split_at_col(2);
    assert_eq!(at(right, 0, 1), 3);
    assert_eq!(left.ncols(), 2);
    let (u, w) = v.split_rows_with(2);
    assert_eq!((u.nrows(), at(w, 0, 1)), (2, 21));
    let (p, q) = v.split_cols_with(1);
    assert_eq!((p.ncols(), at(q, 1, 0)), (1, 11));
    assert_eq!(at(v.submatrix(1, 2, 2, 2), 1, 1), 23);
    assert_eq!(at(v.subrows(1, 1), 0, 3), 13);
    assert_eq!(at(v.subcols(3, 1), 2, 0), 23);
    assert_eq!(at(v.get_r(2, 3), 0, 0), 20);
    assert_eq!(at(v.get_c(1, 3), 0, 1), 2);
}

#[test]
fn split_first_and_last() {
    let d = data();
    let v = MatRef::from_column_major_slice(&d, 3, 4);
    let (head, tail) = v.split_first_row().unwrap();
    assert_eq!((at(head, 0, 1), tail.nrows(), at(tail, 0, 0)), (1, 2, 10));
    let (head, tail) = v.split_first_col().unwrap();
    assert_eq!((at(head, 2, 0), tail.ncols(), at(tail, 0, 0)), (20, 3, 1));
    let (last, rest) = v.split_last_row().unwrap();
    assert_eq!((at(last, 0, 1), rest.nrows()), (21, 2));
    let (last, rest) = v.split_last_col().unwrap();
    assert_eq!((at(last, 1, 0), rest.ncols()), (13, 3));
    let e = MatRef::from_column_major_slice(&d[..0], 0, 4);
    assert!(e.split_first_row().is_none());
    assert!(e.split_last_row().is_none());
    assert!(e.split_first_col().is_some());
    let f = MatRef::from_column_major_slice(&d[..0], 3, 0);
    assert!(f.split_first_col().is_none());
    assert!(f.split_last_col().is_none());
}

#[test]
fn iterate_columns_and_rows() {
    let d = data();
    let v = MatRef::from_column_major_slice(&d, 3, 4);
    let cols = v.col_iter();
    assert_eq!(cols.len(), 4);
    assert_eq!(at(cols[3], 1, 0), 13);
    let rows = v.row_iter();
    assert_eq!(rows.len(), 3);
    assert_eq!(at(rows[2], 0, 2), 22);
}

#[test]
fn reversed_views() {
    let d = data();
    let v = MatRef::from_column_major_slice(&d, 3, 4);
    let r = v.reverse_rows_and_cols();
    assert_eq!(at(r, 0, 0), 23);
    assert_eq!(at(r, 2, 3), 0);
    assert_eq!(at(r, 1, 2), 11);
    assert_eq!((r.row_stride(), r.col_stride()), (-1, -3));
    assert_eq!(at(v.reverse_rows(), 0, 1), 21);
    assert_eq!(at(v.reverse_cols(), 0, 1), 2);
}

#[test]
fn diagonal_and_layout_probes() {
    let d = data();
    let v = MatRef::from_column_major_slice(&d, 3, 4);
    let g = v.diagonal();
    assert_eq!(g.shape(), (3, 1));
    assert_eq!(at(g, 2, 0), 22);
    assert!(v.try_as_col_major().is_some());
    assert!(v.try_as_row_major().is_none());
    assert!(v.transpose().try_as_row_major().is_some());
    assert_eq!(at(v.as_ref(), 1, 1), 11);
}

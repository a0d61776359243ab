use kuromoji::ConnectionCostMatrix;

fn matrix_bytes(forward: u16, backward: u16, cells: &[i16]) -> Vec<u8> {
    let mut b = Vec::new();
    b.extend_from_slice(&forward.to_le_bytes());
    b.extend_from_slice(&backward.to_le_bytes());
    for c in cells {
        b.extend_from_slice(&c.to_le_bytes());
    }
    b
}

#[test]
fn cost_indexes_left_plus_right_times_backward() {
    // 2 x 3 matrix: cell[right, left] = data[2 + left + right * 3]
    let data = matrix_bytes(2, 3, &[10, 11, 12, 20, 21, 22]);
    let m = ConnectionCostMatrix::from_bytes(&data).unwrap();
    assert_eq!(m.cost(0, 0), 10);
    assert_eq!(m.cost(0, 2), 12);
    assert_eq!(m.cost(1, 0), 20);
    assert_eq!(m.cost(1, 2), 22);
}

#[test]
fn cost_is_not_symmetric_when_data_is_not() {
    let data = matrix_bytes(2, 2, &[0, -5, 7, 0]);
    let m = ConnectionCostMatrix::from_bytes(&data).unwrap();
    assert_eq!(m.cost(0, 1), -5);
    assert_eq!(m.cost(1, 0), 7);
}

#[test]
fn missing_cells_hold_the_maximum() {
    let data = matrix_bytes(1, 1, &[i16::MAX]);
    let m = ConnectionCostMatrix::from_bytes(&data).unwrap();
    assert_eq!(m.cost(0, 0), i16::MAX as i32);
}

#[test]
fn matrix_of_wrong_size_is_rejected() {
    let mut data = matrix_bytes(2, 2, &[1, 2, 3, 4]);
    data.pop();
    assert!(ConnectionCostMatrix::from_bytes(&data).is_err());
    assert!(ConnectionCostMatrix::from_bytes(&[1, 0]).is_err());
    let data = matrix_bytes(2, 2, &[1, 2, 3]);
    assert!(ConnectionCostMatrix::from_bytes(&data).is_err());
}

#[test]
fn matrix_text_form_sets_cells_last_line_winning() {
    let m = ConnectionCostMatrix::from_matrix_def("2 3\n0 0 -5\n1 2 7\n0 0 4\n").unwrap();
    assert_eq!(m.cost(0, 0), 4);
    assert_eq!(m.cost(1, 2), 7);
    assert_eq!(m.cost(0, 1), i16::MAX as i32);
    assert_eq!(m.forward_size(), 2);
    assert_eq!(m.backward_size(), 3);
}

#[test]
fn matrix_bytes_round_trip() {
    let m = ConnectionCostMatrix::from_matrix_def("2 3\n0 1 -300\n1 0 12\n").unwrap();
    let bytes = m.to_bytes();
    assert_eq!(bytes.len(), 2 * (2 + 6));
    assert_eq!(&bytes[0..4], &[2, 0, 3, 0]);
    let back = ConnectionCostMatrix::from_bytes(&bytes).unwrap();
    for r in 0..2 {
        for l in 0..3 {
            assert_eq!(back.cost(r, l), m.cost(r, l));
        }
    }
    assert_eq!(back.cost(0, 1), -300);
}

#[test]
fn matrix_text_form_rejects_bad_lines() {
    assert!(ConnectionCostMatrix::from_matrix_def("2 3\n2 0 1\n").is_err());
    assert!(ConnectionCostMatrix::from_matrix_def("2\n").is_err());
    assert!(ConnectionCostMatrix::from_matrix_def("2 3\n0 0\n").is_err());
    assert!(ConnectionCostMatrix::from_matrix_def("2 3\n0 0 40000\n").is_err());
    assert!(ConnectionCostMatrix::from_matrix_def("").is_err());
}

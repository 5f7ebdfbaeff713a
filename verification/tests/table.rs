use rsomics_kbins::table::{
    Shape, TableError, header_names, records, row_names, shape, split, value_fields,
};

fn recs(text: &str) -> Vec<Vec<Vec<u8>>> {
    records(&text.as_bytes().to_vec())
}

#[test]
fn split_keeps_empty_pieces() {
    let s = b"a\t\tb\t".to_vec();
    assert_eq!(split(&s, b'\t'), vec![b"a".to_vec(), vec![], b"b".to_vec(), vec![]]);
    assert_eq!(split(&Vec::new(), b'\t'), vec![Vec::<u8>::new()]);
}

#[test]
fn records_skip_blank_lines_and_carriage_returns() {
    let r = recs("\tc1\tc2\r\nr1\t1\t2\n\nr2\t3\t4\n");
    assert_eq!(r.len(), 3);
    assert_eq!(r[0], vec![b"".to_vec(), b"c1".to_vec(), b"c2".to_vec()]);
    assert_eq!(r[2], vec![b"r2".to_vec(), b"3".to_vec(), b"4".to_vec()]);
}

#[test]
fn header_shape() {
    let r = recs("\tc1\tc2\nr1\t1\t2\nr2\t3\t4\n");
    assert_eq!(shape(&r), Ok(Shape { has_header: true, n_rows: 2, n_cols: 2 }));
}

#[test]
fn headerless_shape() {
    let r = recs("1\t2\t3\n4\t5\t6\n");
    assert_eq!(shape(&r), Ok(Shape { has_header: false, n_rows: 2, n_cols: 3 }));
}

#[test]
fn shape_errors() {
    assert_eq!(shape(&recs("\n\n")), Err(TableError::Empty));
    assert_eq!(shape(&recs("\ta\tb\nr1\t1\t2\nr2\t3\nr3\t4\n")), Err(TableError::RaggedRow(1)));
    assert_eq!(shape(&recs("1\t2\n3\n")), Err(TableError::RaggedRow(1)));
}

#[test]
fn fields_of_a_matrix_with_header() {
    let r = recs("\tc1\tc2\nr1\t1\t2\nr2\t3\t4\n");
    assert_eq!(header_names(&r), vec![b"c1".to_vec(), b"c2".to_vec()]);
    assert_eq!(row_names(&r), vec![b"r1".to_vec(), b"r2".to_vec()]);
    assert_eq!(
        value_fields(&r),
        vec![b"1".to_vec(), b"2".to_vec(), b"3".to_vec(), b"4".to_vec()]
    );
}

#[test]
fn fields_of_a_headerless_matrix() {
    let r = recs("1\t2\n3\t4\n5\t6");
    assert_eq!(value_fields(&r).len(), 6);
    assert_eq!(value_fields(&r)[4], b"5".to_vec());
}

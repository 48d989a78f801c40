use rust_tensors::matrix::Matrix;
use rust_tensors::matrix_address::MatrixAddress;
use std::str::FromStr;

#[test]
fn general_usage_test() {
    let mut matrix =
        Matrix::<i32>::parse_matrix("1 2 3|4 5 6|7 8 9", " ", "|", |s| s.parse().unwrap())
            .unwrap();
    assert_eq!(
        matrix.to_display_string(|i| i.to_string(), "-", "|"),
        "1-2-3|4-5-6|7-8-9"
    );
    println!(
        "Matrix: [{}]",
        matrix.to_display_string(i32::to_string, ", ", " | ")
    );
    matrix.set(MatrixAddress::from((1, 1)), 2).unwrap();

    println!(
        "Matrix: [{}]",
        matrix.to_display_string(i32::to_string, ", ", " | ")
    );
}

#[test]
fn display_test() {
    let (width, height) = (11, 11);
    assert_eq!(
        "0 1 2 3 4 5 6 0 1 2 3\n4 5 6 0 1 2 3 4 5 6 0\n1 2 3 4 5 6 0 1 2 3 4\n5 6 0 1 2 3 4 5 6 0 1\n2 3 4 5 6 0 1 2 3 4 5\n6 0 1 2 3 4 5 6 0 1 2\n3 4 5 6 0 1 2 3 4 5 6\n0 1 2 3 4 5 6 0 1 2 3\n4 5 6 0 1 2 3 4 5 6 0\n1 2 3 4 5 6 0 1 2 3 4\n5 6 0 1 2 3 4 5 6 0 1",
        Matrix::new(width, height, |address: MatrixAddress| {
            (address.x as usize + address.y as usize * width) % 7
        })
        .to_display_string(|t| t.to_string(), " ", "\n")
    )
}

#[test]
fn set_test() {
    let (width, height) = (1000, 1000);
    let mut matrix = Matrix::new(width, height, |_address| 0usize);
    let mut addresses = matrix.address_iter();
    while let Some(address) = addresses.next() {
        assert_eq!(*matrix.get(address).unwrap(), 0usize);
        let index = matrix.index_address(address);
        matrix.set(address, index).unwrap();
        assert_eq!(*matrix.get(address).unwrap(), matrix.index_address(address));
    }
    let mut addresses = matrix.address_iter();
    while let Some(address) = addresses.next() {
        assert_eq!(matrix.index_address(address), *matrix.get(address).unwrap());
    }
}

#[test]
fn get_test() {
    let (width, height) = (1000, 1000);
    let matrix = Matrix::new(width, height, |address| {
        address.x as usize + address.y as usize * width
    });
    assert_eq!(matrix.index_address(MatrixAddress { x: 999, y: 0 }), 999);
    assert_eq!(matrix.index_address(MatrixAddress { x: 0, y: 1 }), 1000);
    assert_eq!(matrix.index_address(MatrixAddress { x: 1, y: 1 }), 1001);
    let mut addresses = matrix.address_iter();
    while let Some(address) = addresses.next() {
        assert_eq!(matrix.index_address(address), *matrix.get(address).unwrap());
    }
}

#[test]
fn parse_test() {
    let data_str = "0,1,2,3,4,5,6,0,1,2,3|4,5,6,0,1,2,3,4,5,6,0|1,2,3,4,5,6,0,1,2,3,4|5,6,0,1,2,3,4,5,6,0,1|2,3,4,5,6,0,1,2,3,4,5|6,0,1,2,3,4,5,6,0,1,2|3,4,5,6,0,1,2,3,4,5,6|0,1,2,3,4,5,6,0,1,2,3|4,5,6,0,1,2,3,4,5,6,0|1,2,3,4,5,6,0,1,2,3,4|5,6,0,1,2,3,4,5,6,0,1";
    let (width, height) = (11, 11);
    assert_eq!(
        Matrix::new(width, height, |address: MatrixAddress| (address.y
            * width as i32
            + address.x)
            % 7),
        Matrix::parse_matrix(data_str, ",", "|", |string| i32::from_str(string)
            .expect(""))
        .expect("")
    );
}

#[test]
fn equality_test() {
    let (width, height) = (100, 200);
    let mut m1 = Matrix::new(width, height, |address| {
        address.y * width as i32 + address.x
    });
    let m2 = Matrix::new(width, height, |address| {
        address.y * width as i32 + address.x
    });
    assert_eq!(m1, m2);
    let mut addresses = m1.address_iter();
    while let Some(address) = addresses.next() {
        assert_eq!(m1, m2);
        let value = *m1.get(address).unwrap();
        m1.set(address, value + 1).unwrap();
        assert_ne!(m1, m2);
        m1.set(address, value).unwrap();
    }
}

#[test]
fn address_sugar_test_indv() {
    let (x, y) = (0, 198);
    let matrix = Matrix::new(100, 200, |address| address.y * 100 + address.x);
    let mut mut_matrix = matrix.clone();
    let pos_tuple = (x, y);
    let pos_address = MatrixAddress { x, y };
    assert_eq!(
        matrix.get(MatrixAddress::from(pos_tuple)),
        matrix.get(pos_address)
    );
    let temp = *matrix.get(MatrixAddress::from(pos_tuple)).unwrap();
    mut_matrix.set(pos_address, -1).unwrap();
    mut_matrix.set(MatrixAddress::from(pos_tuple), temp).unwrap();
    assert_eq!(matrix, mut_matrix);
}

#[test]
fn parse_then_format_reproduces_cells() {
    let matrix =
        Matrix::<i32>::parse_matrix("1 2 3|4 5 6|7 8 9", " ", "|", |s| s.parse().unwrap())
            .unwrap();
    assert_eq!(matrix.width(), 3);
    assert_eq!(matrix.height(), 3);
    assert_eq!(*matrix.get(MatrixAddress { x: 2, y: 0 }).unwrap(), 3);
    assert_eq!(*matrix.get(MatrixAddress { x: 0, y: 2 }).unwrap(), 7);
    assert_eq!(
        matrix.to_display_string(|i| i.to_string(), "-", "|"),
        "1-2-3|4-5-6|7-8-9"
    );
}

#[test]
fn non_uniform_rows_are_rejected() {
    let parsed = Matrix::<i32>::parse_matrix("1 2|3", " ", "|", |s| s.parse().unwrap());
    assert_eq!(parsed, Err("Row Lengths are not constant".to_string()));
}

#[test]
fn parse_skips_empty_cells_and_rows() {
    let matrix =
        Matrix::<i32>::parse_matrix("  1  2 ||3 4|", " ", "|", |s| s.parse().unwrap()).unwrap();
    assert_eq!(matrix.width(), 2);
    assert_eq!(matrix.height(), 2);
    assert_eq!(matrix.to_display_string(|i| i.to_string(), ",", ";"), "1,2;3,4");
}

#[test]
fn parse_of_empty_text_is_empty_matrix() {
    let matrix = Matrix::<i32>::parse_matrix("", " ", "|", |s| s.parse().unwrap()).unwrap();
    assert_eq!(matrix.width(), 0);
    assert_eq!(matrix.height(), 0);
    assert_eq!(matrix.to_display_string(|i| i.to_string(), ",", ";"), "");
}

#[test]
fn parse_with_multi_character_delimiters() {
    let matrix =
        Matrix::<String>::parse_matrix("ab<>cd##ef<>gh", "<>", "##", |s| s.to_string()).unwrap();
    assert_eq!(matrix.width(), 2);
    assert_eq!(matrix.height(), 2);
    assert_eq!(matrix.get(MatrixAddress { x: 1, y: 1 }).unwrap(), "gh");
    assert_eq!(matrix.to_display_string(|s| s.clone(), " ", "/"), "ab cd/ef gh");
}

#[test]
fn parse_with_empty_column_delimiter_splits_characters() {
    let matrix = Matrix::<char>::parse_matrix("abc|def", "", "|", |s| {
        s.chars().next().unwrap()
    })
    .unwrap();
    assert_eq!(matrix.width(), 3);
    assert_eq!(matrix.height(), 2);
    assert_eq!(*matrix.get(MatrixAddress { x: 2, y: 1 }).unwrap(), 'f');
}

#[test]
fn parse_handles_non_ascii_text() {
    let matrix =
        Matrix::<String>::parse_matrix("é ü|ß ñ", " ", "|", |s| s.to_string()).unwrap();
    assert_eq!(matrix.get(MatrixAddress { x: 1, y: 0 }).unwrap(), "ü");
    assert_eq!(matrix.get(MatrixAddress { x: 0, y: 1 }).unwrap(), "ß");
}

#[test]
fn matrix_out_of_bounds_access() {
    let mut matrix = Matrix::new(3, 3, |a: MatrixAddress| a.x + 10 * a.y);
    let before = matrix.clone();
    assert!(matrix.set(MatrixAddress { x: 3, y: 0 }, 99).is_err());
    assert!(matrix.set(MatrixAddress { x: -1, y: 0 }, 99).is_err());
    assert_eq!(matrix, before);
    assert_eq!(matrix.get(MatrixAddress { x: 0, y: 3 }), None);
    assert!(!matrix.contains_address(MatrixAddress { x: 0, y: 3 }));
    assert!(matrix.contains_address(MatrixAddress { x: 2, y: 2 }));
    assert_eq!(*matrix.get(MatrixAddress { x: 2, y: 1 }).unwrap(), 12);
}

#[test]
fn matrix_corners() {
    let matrix = Matrix::new(4, 7, |_a: MatrixAddress| 0u8);
    assert_eq!(matrix.smallest_contained_address(), MatrixAddress { x: 0, y: 0 });
    assert_eq!(matrix.largest_contained_address(), MatrixAddress { x: 3, y: 6 });
}

#[test]
fn matrix_of_zero_columns_has_no_cells() {
    let matrix = Matrix::new(0, 3, |_a: MatrixAddress| 1u8);
    assert_eq!(matrix.get(MatrixAddress { x: 0, y: 0 }), None);
    let mut addresses = matrix.address_iter();
    assert_eq!(addresses.next(), None);
    assert_eq!(matrix.to_display_string(|v| v.to_string(), ",", ";"), ";;");
}

#[test]
fn display_of_single_row_and_single_column() {
    let row = Matrix::new(3, 1, |a: MatrixAddress| a.x);
    assert_eq!(row.to_display_string(|v| v.to_string(), " ", "\n"), "0 1 2");
    let column = Matrix::new(1, 3, |a: MatrixAddress| a.y);
    assert_eq!(column.to_display_string(|v| v.to_string(), " ", "\n"), "0\n1\n2");
}

#[test]
fn matrix_get_mut_writes_one_cell() {
    let mut matrix = Matrix::new(2, 2, |a: MatrixAddress| a.x + 2 * a.y);
    *matrix.get_mut(MatrixAddress { x: 0, y: 1 }).unwrap() += 10;
    assert!(matrix.get_mut(MatrixAddress { x: 0, y: 2 }).is_none());
    assert_eq!(matrix.to_display_string(|v| v.to_string(), " ", "|"), "0 1|12 3");
}

#[test]
fn try_parse_reads_every_cell() {
    let matrix =
        Matrix::<i32>::try_parse_matrix("1 2 3|4 5 6", " ", "|", |s| s.parse().ok()).unwrap();
    assert_eq!(matrix.width(), 3);
    assert_eq!(matrix.height(), 2);
    assert_eq!(matrix.to_display_string(|i| i.to_string(), "-", "|"), "1-2-3|4-5-6");
}

#[test]
fn try_parse_rejects_an_unreadable_cell() {
    let parsed = Matrix::<i32>::try_parse_matrix("1 2|3 x", " ", "|", |s| s.parse().ok());
    assert_eq!(parsed, Err("Cell could not be parsed".to_string()));
}

#[test]
fn try_parse_rejects_non_uniform_rows_first() {
    let parsed = Matrix::<i32>::try_parse_matrix("1 x|3", " ", "|", |s| s.parse().ok());
    assert_eq!(parsed, Err("Row Lengths are not constant".to_string()));
}

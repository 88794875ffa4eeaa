use sudoku_engine::fields::positive_fields;

#[test]
fn keeps_positive_numbers_in_order() {
    assert_eq!(positive_fields("12,0,abc,7,,003,00"), "12,7,003");
}

#[test]
fn line_without_numbers_gives_nothing() {
    assert_eq!(positive_fields(""), "");
    assert_eq!(positive_fields("B1-1,Bad,incorrect"), "");
    assert_eq!(positive_fields("0,-4,4.5"), "");
}

#[test]
fn single_field_line() {
    assert_eq!(positive_fields("81"), "81");
}

use cpu_cli_controller::ranges::{
    get_nums_from_ranges, parse_range, parse_range_expression, parse_u32, RangeError,
};

#[test]
fn parse_range_correct() {
    let ranges = ["2-5", "0", "11-11", "84"];
    let results = [vec![2, 3, 4, 5], vec![0], vec![11], vec![84]];
    for (range, result) in ranges.iter().zip(results.iter()) {
        assert_eq!(&parse_range(range).unwrap(), result);
    }
}

#[test]
fn parse_range_rangeerror_parseinterror() {
    let ranges = ["2f", "-", "0-?", "-4"];
    for range in ranges {
        assert!(matches!(
            &parse_range(range).unwrap_err(),
            RangeError::ParseIntError
        ));
    }
}

#[test]
fn parse_range_rangeerror_boundarieserror() {
    let ranges = ["1-0"];
    for range in ranges {
        assert!(matches!(
            &parse_range(range).unwrap_err(),
            RangeError::BoundariesError
        ));
    }
}

#[test]
fn get_nums_from_ranges_correct() {
    let range = "2-5,1,9-11,31-31,0,55";
    assert_eq!(
        get_nums_from_ranges(range),
        vec![2, 3, 4, 5, 1, 9, 10, 11, 31, 0, 55]
    );
}

#[test]
fn parse_expression_flattens_in_order() {
    assert_eq!(
        parse_range_expression("2-5,1,9-11,31-31,0,55").unwrap(),
        vec![2, 3, 4, 5, 1, 9, 10, 11, 31, 0, 55]
    );
}

#[test]
fn parse_single_number_token() {
    assert_eq!(parse_range("7").unwrap(), vec![7]);
}

#[test]
fn parse_collapsed_range_token() {
    assert_eq!(parse_range("11-11").unwrap(), vec![11]);
}

#[test]
fn parse_empty_expression_fails() {
    assert!(matches!(
        parse_range_expression("").unwrap_err(),
        RangeError::ParseIntError
    ));
}

#[test]
fn parse_leading_comma_fails() {
    assert!(matches!(
        parse_range_expression(",1").unwrap_err(),
        RangeError::ParseIntError
    ));
}

#[test]
fn parse_trailing_comma_fails() {
    assert!(matches!(
        parse_range_expression("1,").unwrap_err(),
        RangeError::ParseIntError
    ));
}

#[test]
fn parse_double_dash_fails() {
    assert!(matches!(
        parse_range_expression("1-2-3").unwrap_err(),
        RangeError::ParseIntError
    ));
}

#[test]
fn parse_plus_sign_fails() {
    assert!(matches!(
        parse_range_expression("+5").unwrap_err(),
        RangeError::ParseIntError
    ));
}

#[test]
fn parse_inverted_bounds_in_expression_fails() {
    assert!(matches!(
        parse_range_expression("3,1-0").unwrap_err(),
        RangeError::BoundariesError
    ));
}

#[test]
fn parse_u32_handles_limits() {
    assert_eq!(parse_u32("4294967295").unwrap(), u32::MAX);
    assert!(matches!(
        parse_u32("4294967296").unwrap_err(),
        RangeError::ParseIntError
    ));
    assert_eq!(parse_u32("0000000000007").unwrap(), 7);
    assert!(matches!(
        parse_u32("").unwrap_err(),
        RangeError::ParseIntError
    ));
}

#[test]
fn range_error_messages() {
    assert_eq!(
        RangeError::ParseIntError.message(),
        "Cannot parse as an integer"
    );
    assert_eq!(
        RangeError::BoundariesError.message(),
        "Cannot parse as a range"
    );
}

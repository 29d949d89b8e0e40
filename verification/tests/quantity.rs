use scfs::quantity::convert_symbolic_quantity;

#[test]
fn test_symbolic_quantity_converter() {
    let sym_exp = vec![("", 0), ("K", 1), ("M", 2), ("G", 3), ("T", 4)];
    for (sym, exp) in sym_exp {
        println!("Testing 1{}", sym);
        assert_eq!(
            convert_symbolic_quantity(format!("1{}", sym).as_str()).unwrap(),
            1024_u64.pow(exp)
        );
    }
}

#[test]
fn test_symbolic_quantity_converter_with_space() {
    assert_eq!(convert_symbolic_quantity(" 1024 ").unwrap(), 1024);
}

#[test]
fn test_symbolic_quantity_converter_with_space_and_quantifier() {
    assert_eq!(convert_symbolic_quantity(" 1 K ").unwrap(), 1024);
}

#[test]
fn test_symbolic_quantity_converter_fail_on_invalid_input() {
    assert!(convert_symbolic_quantity("1K1").is_err());
}

#[test]
fn test_symbolic_quantity_converter_fail_on_empty_base() {
    assert!(convert_symbolic_quantity("K").is_err());
}

#[test]
fn test_symbolic_quantity_converter_fail_on_zero() {
    assert!(convert_symbolic_quantity("0").is_err());
}

#[test]
fn test_symbolic_quantity_converter_fail_on_negative() {
    assert!(convert_symbolic_quantity("-1").is_err());
}

#[test]
fn symbolic_quantity_error_messages() {
    assert_eq!(convert_symbolic_quantity("x").unwrap_err(), "No digits given");
    assert_eq!(
        convert_symbolic_quantity("0").unwrap_err(),
        "Base may not be zero or negative"
    );
    assert_eq!(convert_symbolic_quantity("2Q").unwrap_err(), "Unkown quantifier");
    // 2^64 does not fit, with or without a suffix.
    assert_eq!(
        convert_symbolic_quantity("18446744073709551616").unwrap_err(),
        "Base out of range"
    );
    assert_eq!(
        convert_symbolic_quantity("18446744073709551615T").unwrap_err(),
        "Base out of range"
    );
}

#[test]
fn symbolic_quantity_accepts_large_values() {
    assert_eq!(convert_symbolic_quantity("37").unwrap(), 37);
    assert_eq!(convert_symbolic_quantity("2M").unwrap(), 2 * 1024 * 1024);
    assert_eq!(
        convert_symbolic_quantity("18446744073709551615").unwrap(),
        u64::MAX
    );
}

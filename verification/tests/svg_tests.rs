use data_uri::svg_str_to_data_uri;

#[test]
fn full_test() {
    let svg = r##"
            <svg xmlns="http://www.w3.org/2000/svg" viewBox="0 0 50 50">
                <path d="M22 38V51L32 32l19-19v12C44 26 43 10 38 0 52 15 49 39 22 38z"/>
            </svg>"##;
    let expected = r#"data:image/svg+xml,%3Csvg%20xmlns%3D%22http%3A%2F%2Fwww%2Ew3%2Eorg%2F2000%2Fsvg%22%20viewBox%3D%220%200%2050%2050%22%3E%20%3Cpath%20d%3D%22M22%2038V51L32%2032l19%2D19v12C44%2026%2043%2010%2038%200%2052%2015%2049%2039%2022%2038z%22%2F%3E%20%3C%2Fsvg%3E"#;
    let result = svg_str_to_data_uri(svg);
    assert_eq!(result, expected);
}

#[test]
fn bom_stripped() {
    let with_bom = svg_str_to_data_uri("\u{FEFF}<svg/>");
    let without_bom = svg_str_to_data_uri("<svg/>");
    assert_eq!(with_bom, without_bom);
    assert!(!with_bom.contains("%EF%BB%BF"));
}

#[test]
fn whitespace_collapsed() {
    let result = svg_str_to_data_uri("a\n\n   \tb");
    assert_eq!(result, "data:image/svg+xml,a%20b");
}

#[test]
fn idempotent_normalization() {
    // Trimming and collapsing "  a \n b " yields "a b"; running the pipeline
    // on either text gives the same URI.
    assert_eq!(svg_str_to_data_uri("  a \n b "), svg_str_to_data_uri("a b"));
}

#[test]
fn alnum_passthrough_and_escapes() {
    let alnum = "ABCXYZabcxyz0189";
    assert_eq!(
        svg_str_to_data_uri(alnum),
        format!("data:image/svg+xml,{}", alnum)
    );
    assert_eq!(svg_str_to_data_uri("."), "data:image/svg+xml,%2E");
    assert_eq!(svg_str_to_data_uri("-"), "data:image/svg+xml,%2D");
    assert_eq!(svg_str_to_data_uri("~"), "data:image/svg+xml,%7E");
    assert_eq!(svg_str_to_data_uri("\u{E9}"), "data:image/svg+xml,%C3%A9");
    assert_eq!(
        svg_str_to_data_uri("\u{20AC}"),
        "data:image/svg+xml,%E2%82%AC"
    );
}

#[test]
fn empty_input() {
    assert_eq!(svg_str_to_data_uri(""), "data:image/svg+xml,");
    assert_eq!(svg_str_to_data_uri("  \n\t "), "data:image/svg+xml,");
}

#[test]
fn interior_bom_kept() {
    // Only the first character is checked for a byte-order mark; one in the
    // middle of the text is percent-encoded like any other character.
    let result = svg_str_to_data_uri("a\u{FEFF}b");
    assert_eq!(result, "data:image/svg+xml,a%EF%BB%BFb");
}

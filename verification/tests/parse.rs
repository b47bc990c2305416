use dylib_resolver::depinfo::{dependents_not_found, parse_dependents, str_trim, ParseError};

#[test]
fn parses_reference_per_line() {
    let report = "/sysroot/lib1.dylib [arm64]:\n    -dependents:\n        attributes     load path\n                       /usr/lib/libSystem.B.dylib\n                       @rpath/libfoo.dylib\n";
    let refs = parse_dependents(report).unwrap();
    assert_eq!(
        refs,
        vec![
            "/usr/lib/libSystem.B.dylib".to_string(),
            "@rpath/libfoo.dylib".to_string(),
        ]
    );
}

#[test]
fn takes_last_token_of_each_line() {
    let report = "attributes     load path\n    re-export     weak-link     /usr/lib/libc++.1.dylib\n";
    let refs = parse_dependents(report).unwrap();
    assert_eq!(refs, vec!["/usr/lib/libc++.1.dylib".to_string()]);
}

#[test]
fn blank_lines_yield_no_reference() {
    let report = "attributes     load path\n\n   \n   /usr/lib/libz.1.dylib\n\n";
    let refs = parse_dependents(report).unwrap();
    assert_eq!(refs, vec!["/usr/lib/libz.1.dylib".to_string()]);
}

#[test]
fn missing_header_is_an_error() {
    let report = "some output without the expected table\n";
    assert_eq!(parse_dependents(report).unwrap_err(), ParseError::MissingHeader);
}

#[test]
fn flag_token_is_an_error() {
    let report = "attributes     load path\n    /usr/lib/libz.1.dylib\n    -dependents:\n";
    assert_eq!(parse_dependents(report).unwrap_err(), ParseError::FlagSentinel);
}

#[test]
fn stops_at_a_second_header() {
    let report = "attributes     load path\n    /usr/lib/libz.1.dylib\nattributes     load path\n    /usr/lib/other.dylib\n";
    let refs = parse_dependents(report).unwrap();
    assert_eq!(refs, vec!["/usr/lib/libz.1.dylib".to_string()]);
}

#[test]
fn empty_section_gives_no_references() {
    let report = "attributes     load path\n";
    let refs = parse_dependents(report).unwrap();
    assert_eq!(refs, Vec::<String>::new());
}

#[test]
fn not_found_diagnostic_detected() {
    assert!(dependents_not_found(
        "dyld_info: '/sysroot/libx.dylib' file not found\n"
    ));
    assert!(!dependents_not_found("dyld_info: malformed file\n"));
    assert!(!dependents_not_found(""));
}

#[test]
fn trim_removes_surrounding_whitespace() {
    assert_eq!(str_trim("  \t hello world \n\r "), "hello world");
    assert_eq!(str_trim(""), "");
    assert_eq!(str_trim(" \n\t "), "");
    assert_eq!(str_trim("solid"), "solid");
}

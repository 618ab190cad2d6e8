use since_until::text::{compare_text, int_to_text, join_strings, text_equal, trim};

#[test]
fn decimal_text_of_integers() {
    assert_eq!(int_to_text(0), "0");
    assert_eq!(int_to_text(7), "7");
    assert_eq!(int_to_text(30), "30");
    assert_eq!(int_to_text(-12), "-12");
    assert_eq!(int_to_text(i64::MAX), "9223372036854775807");
    assert_eq!(int_to_text(i64::MIN), "-9223372036854775808");
}

#[test]
fn trimming_whitespace() {
    assert_eq!(trim("  Covid "), "Covid");
    assert_eq!(trim("\t\n x y \r"), "x y");
    assert_eq!(trim("   "), "");
    assert_eq!(trim(""), "");
    assert_eq!(trim("\u{3000}a\u{00A0}"), "a");
    assert_eq!(trim("abc"), "abc");
}

#[test]
fn code_point_order_of_texts() {
    assert!(compare_text("bella-birthday", "covid") < 0);
    assert!(compare_text("covid", "bella-birthday") > 0);
    assert_eq!(compare_text("covid", "covid"), 0);
    assert!(compare_text("cov", "covid") < 0);
    assert!(compare_text("", "a") < 0);
    assert!(compare_text("Z", "a") < 0);
    assert!(text_equal("launch", "launch"));
    assert!(!text_equal("launch", "lunch"));
}

#[test]
fn joining_texts() {
    let parts = vec!["a".to_string(), "bc".to_string(), "d".to_string()];
    assert_eq!(join_strings(&parts, ", "), "a, bc, d");
    assert_eq!(join_strings(&Vec::new(), ", "), "");
    assert_eq!(join_strings(&vec!["only".to_string()], "\n"), "only");
}

use mxpm::test_output::{extract_failure_details, parse_test_output, parse_u32_chars, tail_lines, test_counts_fit};

#[test]
fn parse_modern_format() {
    let output = "
(%i1) load(\"hello-world\")
(%o1) hello-world.mac
(%i2) batch(\"rtest_hello-world.mac\",test)
2/2 tests passed
(%o2) rtest_hello-world.mac
";
    let (attempted, correct) = parse_test_output(output).unwrap();
    assert_eq!(attempted, 2);
    assert_eq!(correct, 2);
}

#[test]
fn parse_modern_format_with_failures() {
    let output = "1/2 tests passed\n";
    let (attempted, correct) = parse_test_output(output).unwrap();
    assert_eq!(attempted, 2);
    assert_eq!(correct, 1);
}

#[test]
fn parse_multi_summary_sums_across_batches() {
    let output = "
(%i1) load(\"numerics\")
(%i2) batch(\"rtest_numerics.mac\",test)
Testing tests/test_a.mac:
3/3 tests passed
Testing tests/test_b.mac:
2/5 tests passed
Testing tests/test_c.mac:
4/4 tests passed
(%o2) rtest_numerics.mac
";
    let (attempted, correct) = parse_test_output(output).unwrap();
    assert_eq!(attempted, 12);
    assert_eq!(correct, 9);
}

#[test]
fn parse_legacy_format() {
    let output = " 5 problems attempted; 3 correct.\n";
    let (attempted, correct) = parse_test_output(output).unwrap();
    assert_eq!(attempted, 5);
    assert_eq!(correct, 3);
}

#[test]
fn extract_failure_details_modern() {
    let output = "\
(%i1) load(\"foo\")
(%o1) foo.mac
(%i2) batch(\"rtest_foo.mac\",test)
Testing rtest_foo.mac:
********************** Problem 3 ***************
Input:
2 + 2

Result:
5

This differed from the expected result:
4
2/3 tests passed
(%o2) rtest_foo.mac
";
    let details = extract_failure_details(output).unwrap();
    assert!(details.starts_with("********************** Problem 3"));
    assert!(details.contains("2 + 2"));
    assert!(details.contains("This differed from the expected result"));
    assert!(details.trim_end().ends_with("2/3 tests passed"));
}

#[test]
fn extract_failure_details_skips_passing_banners() {
    let output = "\
********************** Problem 1 (line 1) **********************

Input:
1 + 1

Result:
2

... Which was correct.

********************** Problem 2 (line 2) **********************

Input:
1 + 1

Result:
2

This differed from the expected result:
3

1/2 tests passed
";
    let details = extract_failure_details(output).unwrap();
    assert!(details.contains("Problem 2"));
    assert!(!details.contains("Problem 1"));
    assert!(details.contains("This differed"));
}

#[test]
fn extract_failure_details_across_multiple_summaries() {
    let output = "\
(%i2) batch(\"rtest_foo.mac\",test)
Testing tests/test_a.mac:
********************** test_a.mac: Problem 2 ***************
Input:
2 + 2

Result:
5

This differed from the expected result:
4
3/4 tests passed
Testing tests/test_b.mac:
********************** test_b.mac: Problem 1 ***************
Input:
foo(1)

Result:
wrong

This differed from the expected result:
right
1/2 tests passed
(%o2) rtest_foo.mac
";
    let details = extract_failure_details(output).unwrap();
    assert!(details.contains("test_a.mac: Problem 2"));
    assert!(details.contains("test_b.mac: Problem 1"));
    assert!(details.contains("2 + 2"));
    assert!(details.contains("foo(1)"));
}

#[test]
fn extract_failure_details_no_failure() {
    let output = "\
(%i2) batch(\"rtest_foo.mac\",test)
2/2 tests passed
(%o2) rtest_foo.mac
";
    assert!(extract_failure_details(output).is_none());
}

#[test]
fn parse_no_summary() {
    let output = "Some random maxima output\nno test summary here\n";
    assert!(parse_test_output(output).is_none());
}

#[test]
fn failure_blocks_are_joined_by_blank_lines() {
    let output = "*** Problem 1\nThis differed from the expected result\n*** Problem 2\nThis differed from the expected result:  \n";
    let details = extract_failure_details(output).unwrap();
    assert_eq!(
        details,
        "*** Problem 1\nThis differed from the expected result\n\n*** Problem 2\nThis differed from the expected result:"
    );
}

#[test]
fn parse_u32_like_std() {
    let c = |s: &str| -> Vec<char> { s.chars().collect() };
    assert_eq!(parse_u32_chars(&c("42")), Some(42));
    assert_eq!(parse_u32_chars(&c("+7")), Some(7));
    assert_eq!(parse_u32_chars(&c("4294967295")), Some(4294967295));
    assert_eq!(parse_u32_chars(&c("4294967296")), None);
    assert_eq!(parse_u32_chars(&c("")), None);
    assert_eq!(parse_u32_chars(&c("+")), None);
    assert_eq!(parse_u32_chars(&c("-1")), None);
    assert_eq!(parse_u32_chars(&c("1 2")), None);
}

#[test]
fn summary_with_bad_numbers_is_ignored() {
    assert!(parse_test_output("x/2 tests passed\n").is_none());
    assert_eq!(parse_test_output("10 problems attempted;  7 correct...\n"), Some((10, 7)));
}

#[test]
fn tail_lines_keeps_last_lines() {
    assert_eq!(tail_lines("a\nb\nc\n\n", 2), "b\nc");
    assert_eq!(tail_lines("a\nb", 5), "a\nb");
    assert_eq!(tail_lines("   \n", 3), "");
    assert_eq!(tail_lines("a\nb\nc", 0), "");
}

#[test]
fn counts_that_overflow_are_detected() {
    assert!(test_counts_fit("1/2 tests passed\n3/4 tests passed\n"));
    assert!(test_counts_fit("no summary at all\n"));
    assert!(test_counts_fit("4294967295/4294967295 tests passed\n"));
    assert!(!test_counts_fit("4294967295/4294967295 tests passed\n0/1 tests passed\n"));
    assert!(!test_counts_fit("5 problems attempted; 0 correct.\n4294967295/4294967295 tests passed\n"));
}

#[test]
fn joined_outputs_add_up() {
    let a = "3/3 tests passed\r";
    let b = "1 problems attempted; 0 correct.\n2/5 tests passed\n";
    let joined = format!("{a}\n{b}");
    assert_eq!(parse_test_output(a), Some((3, 3)));
    assert_eq!(parse_test_output(b), Some((6, 2)));
    assert_eq!(parse_test_output(&joined), Some((9, 5)));
    assert_eq!(parse_test_output(&format!("no summary\n{b}")), Some((6, 2)));
    assert_eq!(parse_test_output(&format!("{a}\n")), Some((3, 3)));
}

#[test]
fn failure_regions_end_at_the_next_banner_or_a_summary() {
    let out = "*** Problem 1 ***\nok\n*** Problem 2 ***\nThis differed from the expected result\nx\n3/4 tests passed\ntrailing\n*** Problem 3 (x) ***\nThis differed from the expected result\n";
    assert_eq!(
        extract_failure_details(out).unwrap(),
        "*** Problem 2 ***\nThis differed from the expected result\nx\n3/4 tests passed\n\n*** Problem 3 (x) ***\nThis differed from the expected result"
    );
    assert_eq!(extract_failure_details("*** Problem 1 ***\nok\n"), None);
}

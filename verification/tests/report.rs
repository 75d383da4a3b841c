use dupe_killer::report::{powershell_quoted, shell_quoted, with_thousands};

#[test]
fn counts_get_thousands_separators() {
    assert_eq!(with_thousands(0), "0");
    assert_eq!(with_thousands(7), "7");
    assert_eq!(with_thousands(999), "999");
    assert_eq!(with_thousands(1000), "1,000");
    assert_eq!(with_thousands(1234), "1,234");
    assert_eq!(with_thousands(1_000_001), "1,000,001");
    assert_eq!(with_thousands(1_234_567), "1,234,567");
    assert_eq!(with_thousands(u64::MAX), "18,446,744,073,709,551,615");
}

#[test]
fn paths_are_quoted_for_the_shell() {
    assert_eq!(shell_quoted("/tmp/a b.txt"), "'/tmp/a b.txt'");
    assert_eq!(shell_quoted("it's"), "'it'\\''s'");
    assert_eq!(shell_quoted(""), "''");
    assert_eq!(shell_quoted("ü'"), "'ü'\\'''");
}

#[test]
fn paths_are_quoted_for_powershell() {
    assert_eq!(powershell_quoted("C:\\a b.txt"), "'C:\\a b.txt'");
    assert_eq!(powershell_quoted("it's"), "'it''s'");
}

use hclust::clustering::ClusterError;
use hclust::tsv::{parse_rows, strtok, DATA_SEP, ROW_SEP};

#[test]
fn strtok_takes_the_text_before_the_delimiter() {
    let mut s = "ab\tcd\tef";
    assert_eq!(strtok(&mut s, DATA_SEP), "ab");
    assert_eq!(s, "cd\tef");
    assert_eq!(strtok(&mut s, DATA_SEP), "cd");
    assert_eq!(s, "ef");
    assert_eq!(strtok(&mut s, DATA_SEP), "ef");
    assert_eq!(s, "");
}

#[test]
fn strtok_without_delimiter_takes_all() {
    let mut s = "no tabs here";
    assert_eq!(strtok(&mut s, DATA_SEP), "no tabs here");
    assert_eq!(s, "");
}

#[test]
fn strtok_on_empty_text() {
    let mut s = "";
    assert_eq!(strtok(&mut s, ROW_SEP), "");
    assert_eq!(s, "");
}

#[test]
fn strtok_delimiter_first_and_last() {
    let mut s = "\nx\n";
    assert_eq!(strtok(&mut s, ROW_SEP), "");
    assert_eq!(s, "x\n");
    assert_eq!(strtok(&mut s, ROW_SEP), "x");
    assert_eq!(s, "");
}

#[test]
fn strtok_keeps_multibyte_text_whole() {
    let mut s = "caf\u{e9}\t\u{4e2d}\u{6587}\tz";
    assert_eq!(strtok(&mut s, DATA_SEP), "caf\u{e9}");
    assert_eq!(strtok(&mut s, DATA_SEP), "\u{4e2d}\u{6587}");
    assert_eq!(strtok(&mut s, DATA_SEP), "z");
    assert_eq!(s, "");
}

#[test]
fn parse_rows_reads_three_fields_a_line() {
    let rows = parse_rows("s1\ts2\t10\ns1\ts3\t1\ns2\ts3\t1\n").unwrap();
    assert_eq!(rows.len(), 3);
    assert_eq!(rows[0].from, "s1");
    assert_eq!(rows[0].to, "s2");
    assert_eq!(rows[0].value, "10");
    assert_eq!(rows[2].from, "s2");
    assert_eq!(rows[2].to, "s3");
    assert_eq!(rows[2].value, "1");
}

#[test]
fn parse_rows_without_final_newline() {
    let rows = parse_rows("a\tb\t-2.5").unwrap();
    assert_eq!(rows.len(), 1);
    assert_eq!(rows[0].from, "a");
    assert_eq!(rows[0].to, "b");
    assert_eq!(rows[0].value, "-2.5");
}

#[test]
fn parse_rows_of_empty_text_is_empty() {
    assert_eq!(parse_rows("").unwrap().len(), 0);
}

#[test]
fn parse_rows_refuses_two_fields() {
    let r = parse_rows("a\tb\t1\nc\td\ne\tf\t2\n");
    assert_eq!(r.unwrap_err(), ClusterError::WrongFieldCount { line: 1 });
}

#[test]
fn parse_rows_refuses_four_fields() {
    let r = parse_rows("a\tb\t1\tx\n");
    assert_eq!(r.unwrap_err(), ClusterError::WrongFieldCount { line: 0 });
}

#[test]
fn parse_rows_refuses_an_empty_line() {
    let r = parse_rows("a\tb\t1\n\nc\td\t2\n");
    assert_eq!(r.unwrap_err(), ClusterError::WrongFieldCount { line: 1 });
}

#[test]
fn parse_rows_accepts_a_tab_at_the_end_of_a_line() {
    let rows = parse_rows("a\tb\t1\t\n").unwrap();
    assert_eq!(rows.len(), 1);
    assert_eq!(rows[0].value, "1");
}

#[test]
fn parse_rows_keeps_empty_fields() {
    let rows = parse_rows("\tb\t1\n").unwrap();
    assert_eq!(rows[0].from, "");
    assert_eq!(rows[0].to, "b");
    let r = parse_rows("a\tb\t\n");
    assert_eq!(r.unwrap_err(), ClusterError::WrongFieldCount { line: 0 });
}

#[test]
fn parse_rows_keeps_spaces_in_fields() {
    let rows = parse_rows("a b\tc\t 7 \n").unwrap();
    assert_eq!(rows[0].from, "a b");
    assert_eq!(rows[0].value, " 7 ");
}

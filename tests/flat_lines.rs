use jpdict::flat::{parse_flat_entry, parse_flat_text, FlatEntry};
use jpdict::DictionaryEntry;

fn parsed(line: &str) -> DictionaryEntry {
    match parse_flat_entry(line) {
        FlatEntry::Parsed(e) => e,
        FlatEntry::Plain(s) => panic!("line came back unparsed: {}", s),
    }
}

fn plain(line: &str) -> String {
    match parse_flat_entry(line) {
        FlatEntry::Plain(s) => s,
        FlatEntry::Parsed(e) => panic!("line was parsed: {:?}", e),
    }
}

#[test]
fn numbered_senses_with_cross_reference() {
    let e = parsed("入る(P);這入る(rK) [はいる] /(v5r,vi) (1) (ant: 出る・1) to enter/to come in/(v5r,vi) (2) to join (a club, company, etc.)/");
    assert_eq!(e.word_reading, "入る(P);這入る(rK) [はいる]");
    assert_eq!(e.part_of_speech, "(v5r,vi)");
    assert_eq!(e.definitions, vec!["to enter/to come in", "to join (a club, company, etc.)"]);
    assert!(e.synonyms.is_empty());
}

#[test]
fn line_without_separator_is_unchanged() {
    assert_eq!(plain("no separator/here"), "no separator/here");
    assert_eq!(plain(""), "");
}

#[test]
fn slash_inside_sense_is_kept() {
    let e = parsed("入る [はいる] /(v) (1) to enter/to come in/(2) to join");
    assert_eq!(e.definitions, vec!["to enter/to come in", "to join"]);
}

#[test]
fn slash_before_plain_group_is_kept() {
    let e = parsed("x /(n) (1) a/(…) b/(2) c");
    assert_eq!(e.definitions, vec!["a/(…) b", "c"]);
}

#[test]
fn cross_reference_is_skipped() {
    let e = parsed("w /(n) (ant: 出る・1) (1) one/(2) two");
    assert_eq!(e.definitions, vec!["one", "two"]);
}

#[test]
fn unnumbered_sense_is_one_sense() {
    let e = parsed("猫 [ねこ] /(n) cat/");
    assert_eq!(e.word_reading, "猫 [ねこ]");
    assert_eq!(e.part_of_speech, "(n)");
    assert_eq!(e.definitions, vec!["cat"]);
}

#[test]
fn unnumbered_line_without_group_is_unchanged() {
    assert_eq!(plain("猫 [ねこ] /cat/"), "猫 [ねこ] /cat/");
}

#[test]
fn unnumbered_sense_stops_at_double_slash() {
    let e = parsed("犬 [いぬ] /(n) dog//extra/");
    assert_eq!(e.definitions, vec!["dog"]);
}

#[test]
fn unnumbered_sense_keeps_inner_slashes() {
    let e = parsed("k /(n) to go in/to get in/");
    assert_eq!(e.definitions, vec!["to go in/to get in"]);
}

#[test]
fn no_senses_gives_line_unchanged() {
    assert_eq!(plain("x /(n) /"), "x /(n) /");
    assert_eq!(plain("x /(n)"), "x /(n)");
}

#[test]
fn unclosed_group_gives_line_unchanged() {
    assert_eq!(plain("x /(n cat"), "x /(n cat");
}

#[test]
fn empty_numbered_sense_is_dropped() {
    let e = parsed("x /(n) (1) /(2) two");
    assert_eq!(e.definitions, vec!["two"]);
}

#[test]
fn sense_number_with_spaces() {
    let e = parsed("x /(n) ( 1 ) one/( 2 ) two");
    assert_eq!(e.definitions, vec!["one", "two"]);
}

#[test]
fn nested_parentheses_hold_slashes() {
    let e = parsed("x /(n) (1) a (b/(c) d) e/(2) f");
    assert_eq!(e.definitions, vec!["a (b/(c) d) e", "f"]);
}

#[test]
fn text_after_later_separator_is_kept() {
    let e = parsed("x /(n) (1) one /(2) two");
    assert_eq!(e.definitions, vec!["one", "two"]);
}

#[test]
fn page_text_gives_one_item_per_nonblank_line() {
    let items = parse_flat_text("\n  猫 [ねこ] /(n) cat/\r\n   \n\nplain words\r\n犬 [いぬ] /(n) dog/  \n");
    assert_eq!(items.len(), 3);
    match &items[0] {
        FlatEntry::Parsed(e) => {
            assert_eq!(e.word_reading, "猫 [ねこ]");
            assert_eq!(e.definitions, vec!["cat"]);
        }
        FlatEntry::Plain(s) => panic!("unparsed: {}", s),
    }
    match &items[1] {
        FlatEntry::Plain(s) => assert_eq!(s, "plain words"),
        FlatEntry::Parsed(e) => panic!("parsed: {:?}", e),
    }
    match &items[2] {
        FlatEntry::Parsed(e) => assert_eq!(e.definitions, vec!["dog"]),
        FlatEntry::Plain(s) => panic!("unparsed: {}", s),
    }
}

#[test]
fn blank_page_text_gives_nothing() {
    assert!(parse_flat_text("").is_empty());
    assert!(parse_flat_text(" \n\t\r\n ").is_empty());
}

#[test]
fn group_after_sense_number_is_skipped() {
    let e = parsed("x /(n) (1) (ant: y) (See z) one/(2) two");
    assert_eq!(e.definitions, vec!["one", "two"]);
}

#[test]
fn number_group_after_sense_number_is_kept() {
    let e = parsed("x /(n) (1) (2) one");
    assert_eq!(e.definitions, vec!["(2) one"]);
}

#[test]
fn trailing_slashes_leave_numbered_sense() {
    let e = parsed("x /(n) (1) one / /(2) two//");
    assert_eq!(e.definitions, vec!["one", "two"]);
}

#[test]
fn sense_of_only_groups_is_dropped() {
    let e = parsed("x /(n) (1) (ant: y)/(2) two");
    assert_eq!(e.definitions, vec!["two"]);
}

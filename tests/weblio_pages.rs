use jpdict::markup::{Attr, Document, NodeKind};
use jpdict::weblio_search::{
    extract_definitions, extract_part_of_speech, extract_reading_from_content,
    extract_reading_from_header, extract_synonyms, find_content, parse_single_entry,
    parse_weblio_entries,
};

/// A tree written out in a test.
enum T {
    E(&'static str, Vec<(&'static str, &'static str)>, Vec<T>),
    X(&'static str),
}

fn el(tag: &'static str, attrs: Vec<(&'static str, &'static str)>, children: Vec<T>) -> T {
    T::E(tag, attrs, children)
}

fn tx(s: &'static str) -> T {
    T::X(s)
}

fn add(doc: &mut Document, t: &T, parent: Option<usize>) -> usize {
    match t {
        T::X(s) => {
            let i = doc.push_node(NodeKind::Text { text: s.to_string() }, parent);
            doc.close(i);
            i
        }
        T::E(tag, attrs, children) => {
            let attrs = attrs
                .iter()
                .map(|(n, v)| Attr { name: n.to_string(), value: v.to_string() })
                .collect();
            let i = doc.push_node(NodeKind::Element { tag: tag.to_string(), attrs }, parent);
            for c in children {
                add(doc, c, Some(i));
            }
            doc.close(i);
            i
        }
    }
}

fn page(children: Vec<T>) -> Document {
    let mut doc = Document::new();
    add(&mut doc, &el("body", vec![], children), None);
    assert!(doc.well_formed());
    doc
}

fn header(title: &'static str, text: &'static str) -> T {
    el("h2", vec![("class", "midashigo"), ("title", title)], vec![tx(text)])
}

fn body(children: Vec<T>) -> T {
    el("div", vec![("class", "kijiWrp Sgkdj")], children)
}

fn seikai_page() -> Document {
    page(vec![
        header("正解", "せい‐かい【正解】"),
        body(vec![
            el("p", vec![], vec![tx("読み方：せいかい")]),
            el("p", vec![], vec![el("b", vec![], vec![tx("１")]), tx(" the correct answer")]),
        ]),
    ])
}

#[test]
fn structured_entry_with_numbered_sense() {
    let entries = parse_weblio_entries(&seikai_page());
    assert_eq!(entries.len(), 1);
    assert_eq!(entries[0].word_reading, "せいかい【正解】");
    assert_eq!(entries[0].definitions, vec!["the correct answer"]);
    assert_eq!(entries[0].part_of_speech, "");
    assert!(entries[0].synonyms.is_empty());
}

#[test]
fn extraction_is_repeatable() {
    let doc = seikai_page();
    let a = parse_weblio_entries(&doc);
    let b = parse_weblio_entries(&doc);
    assert_eq!(format!("{:?}", a), format!("{:?}", b));
}

#[test]
fn usage_header_gives_no_entry() {
    let doc = page(vec![
        header("正解", "正解の例文・使い方・用例・文例"),
        body(vec![el("p", vec![], vec![el("b", vec![], vec![tx("１")]), tx("an example")])]),
    ]);
    assert!(parse_weblio_entries(&doc).is_empty());
    assert!(parse_single_entry(&doc, 1).is_none());
}

#[test]
fn header_without_body_gives_no_entry() {
    let doc = page(vec![
        header("正解", "せい‐かい【正解】"),
        el("div", vec![("class", "other")], vec![tx("not a body")]),
    ]);
    assert_eq!(find_content(&doc, 1), None);
    assert!(parse_weblio_entries(&doc).is_empty());
}

#[test]
fn body_is_found_past_other_siblings() {
    let doc = seikai_page();
    // body(0), h2(1), its text(2), the div(3)
    assert_eq!(find_content(&doc, 1), Some(3));
}

#[test]
fn body_inside_other_parent_is_not_a_sibling() {
    let doc = page(vec![
        el("section", vec![], vec![header("語", "ご【語】")]),
        body(vec![el("p", vec![], vec![el("b", vec![], vec![tx("１")]), tx("a word")])]),
    ]);
    assert!(parse_weblio_entries(&doc).is_empty());
}

#[test]
fn body_without_senses_gives_no_entry() {
    let doc = page(vec![header("語", "ご【語】"), body(vec![el("p", vec![], vec![tx("short")])])]);
    assert!(parse_weblio_entries(&doc).is_empty());
}

#[test]
fn synonyms_are_collected() {
    let doc = page(vec![
        header("正解", "せい‐かい【正解】"),
        body(vec![
            el("p", vec![], vec![el("b", vec![], vec![tx("１")]), tx("the correct answer")]),
            el(
                "div",
                vec![("class", "synonymsUnderDict")],
                vec![
                    el("a", vec![], vec![tx(" 正答 ")]),
                    el("a", vec![], vec![tx("  ")]),
                    el("a", vec![], vec![tx("正鵠")]),
                ],
            ),
            el("a", vec![], vec![tx("outside")]),
        ]),
    ]);
    let entries = parse_weblio_entries(&doc);
    assert_eq!(entries.len(), 1);
    assert_eq!(entries[0].synonyms, vec!["正答", "正鵠"]);
    assert_eq!(extract_synonyms(&doc, 3), vec!["正答", "正鵠"]);
}

#[test]
fn no_synonym_box_gives_empty_synonyms() {
    let doc = seikai_page();
    assert!(extract_synonyms(&doc, 3).is_empty());
}

#[test]
fn part_of_speech_is_first_nonempty_hinshi() {
    let doc = page(vec![
        header("走る", "はし・る【走る】"),
        body(vec![
            el("span", vec![("class", "hinshi")], vec![tx("  ")]),
            el("span", vec![("class", "hinshi x")], vec![tx(" ［動ラ五］ ")]),
            el("p", vec![], vec![el("b", vec![], vec![tx("１")]), tx("to run")]),
        ]),
    ]);
    assert_eq!(extract_part_of_speech(&doc, 3), "［動ラ五］");
    assert_eq!(parse_weblio_entries(&doc)[0].part_of_speech, "［動ラ五］");
}

#[test]
fn class_must_match_a_whole_word() {
    let doc = page(vec![
        header("走る", "はし・る【走る】"),
        body(vec![
            el("span", vec![("class", "hinshix")], vec![tx("x")]),
            el("p", vec![], vec![el("b", vec![], vec![tx("１")]), tx("to run")]),
        ]),
    ]);
    assert_eq!(extract_part_of_speech(&doc, 3), "");
}

#[test]
fn several_numbered_senses_in_order() {
    let doc = page(vec![
        header("走る", "はし・る【走る】"),
        body(vec![
            el("p", vec![], vec![el("b", vec![], vec![tx("１")]), tx("to run")]),
            el("p", vec![], vec![el("b", vec![], vec![tx("２")]), tx(" to flee ")]),
            el("p", vec![], vec![el("b", vec![], vec![tx("３")])]),
            el("div", vec![], vec![el("b", vec![], vec![tx("４")]), tx("not in a p")]),
        ]),
    ]);
    assert_eq!(extract_definitions(&doc, 3), vec!["to run", "to flee"]);
}

#[test]
fn paragraph_senses_without_numbers() {
    let doc = page(vec![
        header("語", "ご【語】"),
        body(vec![
            el("p", vec![], vec![tx("読み方：ご")]),
            el("p", vec![], vec![tx("［名］《古》ことば。言語。また、単語のこと。")]),
            el("p", vec![], vec![tx("［名］（略）短い。")]),
            el("p", vec![], vec![tx("１２３４５６７８９０１")]),
            el("p", vec![], vec![tx("言葉を話すこと。口に出して言うこと。")]),
            el("p", vec![], vec![tx("short, yes")]),
            el("p", vec![], vec![tx("no punctuation here at all")]),
        ]),
    ]);
    assert_eq!(
        extract_definitions(&doc, 3),
        vec!["ことば。言語。また、単語のこと。", "言葉を話すこと。口に出して言うこと。"]
    );
}

#[test]
fn readings_are_joined_with_a_dot() {
    let doc = page(vec![
        header("依存", "い‐そん【依存】"),
        body(vec![
            el("p", vec![], vec![tx("読み方：いそん")]),
            el("p", vec![], vec![tx("《「いぞん」とも》頼ること。")]),
            el("p", vec![], vec![tx("「ふいんき」と発音する人もある。")]),
            el("p", vec![], vec![tx("「フインキ」と発音する人もある。")]),
            el("p", vec![], vec![el("b", vec![], vec![tx("１")]), tx("dependence")]),
        ]),
    ]);
    assert_eq!(extract_reading_from_content(&doc, 3), "いそん・いぞん・ふいんき");
    assert_eq!(parse_weblio_entries(&doc)[0].word_reading, "いそん・いぞん・ふいんき【依存】");
}

#[test]
fn header_reading_is_used_without_content_reading() {
    let doc = page(vec![
        header("依存", "い‐そん【依存】"),
        body(vec![el("p", vec![], vec![el("b", vec![], vec![tx("１")]), tx("dependence")])]),
    ]);
    assert_eq!(parse_weblio_entries(&doc)[0].word_reading, "いそん");
}

#[test]
fn title_is_used_last() {
    let doc = page(vec![
        el("h2", vec![("class", "midashigo"), ("title", "語")], vec![]),
        body(vec![el("p", vec![], vec![el("b", vec![], vec![tx("１")]), tx("word")])]),
    ]);
    assert_eq!(parse_weblio_entries(&doc)[0].word_reading, "語");
}

#[test]
fn header_reading_from_text() {
    let t: Vec<char> = "せい‐かい【正解】".chars().collect();
    assert_eq!(extract_reading_from_header(&t), "せいかい");
    let u: Vec<char> = "ことば".chars().collect();
    assert_eq!(extract_reading_from_header(&u), "ことば");
}

#[test]
fn malformed_arena_is_detected() {
    let mut doc = Document::new();
    doc.push_node(NodeKind::Text { text: "x".to_string() }, None);
    assert!(doc.well_formed());
    doc.nodes[0].end = 5;
    assert!(!doc.well_formed());
}

#[test]
fn entry_without_label_is_dropped() {
    let doc = page(vec![
        el("h2", vec![("class", "midashigo")], vec![tx("【x】")]),
        body(vec![el("p", vec![], vec![el("b", vec![], vec![tx("１")]), tx("a sense")])]),
    ]);
    assert!(parse_weblio_entries(&doc).is_empty());
    assert!(parse_single_entry(&doc, 1).is_none());
}

#[test]
fn empty_bold_is_no_sense_marker() {
    let doc = page(vec![
        header("正解", "せい‐かい【正解】"),
        body(vec![el(
            "p",
            vec![],
            vec![el("b", vec![], vec![tx("１")]), el("b", vec![], vec![]), tx("x")],
        )]),
    ]);
    assert_eq!(extract_definitions(&doc, 3), vec!["x"]);
}

#[test]
fn blank_bold_alone_gives_paragraph_fallback() {
    let doc = page(vec![
        header("語", "ご【語】"),
        body(vec![el(
            "p",
            vec![],
            vec![el("b", vec![], vec![tx(" ")]), tx("言葉を話すこと。口に出して言うこと。")],
        )]),
    ]);
    assert_eq!(extract_definitions(&doc, 3), vec!["言葉を話すこと。口に出して言うこと。"]);
}

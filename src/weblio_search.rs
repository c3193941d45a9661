//! Entries of a dictionary page: each entry is an `h2.midashigo` header whose
//! body is a later sibling `div` with `Sgkdj` in its class.
use crate::entry::{DictionaryEntry, EntryView};
use crate::flat::{lemma_next_char, next_char};
use crate::markup::Document;
use crate::text::{
    ascii_punct, chars_of, contains, contains_char, find, find_chars_from, has_char, is_ascii_punct,
    is_wide_digit, lemma_find_from, matches_at, occurs_at, string_of,
    sub_chars, sub_string, trim, trim_bounds, trim_range, trimmed_string,
};
use vstd::prelude::*;
use vstd::string::StringExecFns;

verus! {

pub open spec fn reading_label() -> Seq<char> {
    "読み方："@
}

pub open spec fn also_open() -> Seq<char> {
    "《「"@
}

pub open spec fn also_close() -> Seq<char> {
    "」とも》"@
}

pub open spec fn quote_open() -> Seq<char> {
    "「"@
}

pub open spec fn pronounced_close() -> Seq<char> {
    "」と発音する"@
}

/// The kana that a pronunciation note may hold.
pub open spec fn kana() -> Seq<char> {
    "あいうえおかきくけこさしすせそたちつてとなにぬねのはひふへほまみむめもやゆよらりるれろわをんがぎぐげござじずぜぞだぢづでどばびぶべぼぱぴぷぺぽゃゅょっー"@
}

/// What a header of a usage-example section holds.
pub open spec fn usage_marker() -> Seq<char> {
    "例文・使い方・用例・文例"@
}

pub open spec fn is_kana(c: char) -> bool {
    has_char(kana(), 0, kana().len() as int, c)
}

/// The trimmed text after a `読み方：` label.
pub open spec fn label_reading(t: Seq<char>) -> Seq<Seq<char>> {
    match find(t, reading_label()) {
        Some(k) => seq![trim_range(t, k + reading_label().len(), t.len() as int)],
        None => Seq::empty(),
    }
}

/// An alternate reading `《「…」とも》`.
pub open spec fn also_reading(t: Seq<char>) -> Seq<Seq<char>> {
    match (find(t, also_open()), find(t, also_close())) {
        (Some(s), Some(e)) => if s + also_open().len() < e {
            seq![t.subrange(s + also_open().len(), e)]
        } else {
            Seq::empty()
        },
        _ => Seq::empty(),
    }
}

/// A pronunciation note `「…」と発音する` made of kana only.
pub open spec fn pronounced_reading(t: Seq<char>) -> Seq<Seq<char>> {
    match (find(t, quote_open()), find(t, pronounced_close())) {
        (Some(s), Some(e)) => if s + quote_open().len() < e && (forall|k: int|
            s + quote_open().len() <= k < e ==> is_kana(#[trigger] t[k])) {
            seq![t.subrange(s + quote_open().len(), e)]
        } else {
            Seq::empty()
        },
        _ => Seq::empty(),
    }
}

/// The readings that one paragraph gives, in the order label, alternate, note.
pub open spec fn paragraph_readings(t: Seq<char>) -> Seq<Seq<char>> {
    label_reading(t) + also_reading(t) + pronounced_reading(t)
}

/// The readings of the paragraphs among the nodes `lo..hi`.
pub open spec fn readings_in(doc: &Document, lo: int, hi: int) -> Seq<Seq<char>>
    decreases hi - lo,
{
    if hi <= lo {
        Seq::empty()
    } else {
        readings_in(doc, lo, hi - 1) + if doc.is_elem(hi - 1, "p"@) {
            paragraph_readings(doc.text_of(hi - 1))
        } else {
            Seq::empty()
        }
    }
}

/// The readings joined with `・`.
pub open spec fn join_readings(rs: Seq<Seq<char>>) -> Seq<char>
    decreases rs.len(),
{
    if rs.len() == 0 {
        Seq::empty()
    } else if rs.len() == 1 {
        rs[0]
    } else {
        join_readings(rs.drop_last()) + seq!['・'] + rs.last()
    }
}

/// The reading that the body at `c` gives.
pub open spec fn content_reading(doc: &Document, c: int) -> Seq<char> {
    join_readings(readings_in(doc, c + 1, doc.end_of(c)))
}

/// `s` without the hyphen `‐`.
pub open spec fn strip_hyphens(s: Seq<char>) -> Seq<char>
    decreases s.len(),
{
    if s.len() == 0 {
        s
    } else {
        strip_hyphens(s.drop_last()) + if s.last() == '‐' {
            Seq::empty()
        } else {
            seq![s.last()]
        }
    }
}

/// The reading in a header text such as `せい‐かい【正解】`: what stands before
/// `【`, without hyphens; the whole text where there is no `【`.
pub open spec fn header_reading(t: Seq<char>) -> Seq<char> {
    match find(t, seq!['【']) {
        Some(k) => strip_hyphens(t.subrange(0, k)),
        None => t,
    }
}

/// The headword that the header at `h` names in its `title`.
pub open spec fn title_of(doc: &Document, h: int) -> Seq<char> {
    match doc.attr_of(h, "title"@) {
        Some(w) => w,
        None => Seq::empty(),
    }
}

/// The label of an entry: `reading【headword】`, else the header's reading,
/// else the headword.
pub open spec fn word_reading(doc: &Document, h: int, c: int) -> Seq<char> {
    let word = title_of(doc, h);
    let r = content_reading(doc, c);
    let hr = header_reading(doc.text_of(h));
    if word.len() > 0 && r.len() > 0 {
        r + seq!['【'] + word + seq!['】']
    } else if hr.len() > 0 {
        hr
    } else {
        word
    }
}

/// The trimmed text of the first `span.hinshi` from `k` on with text in it.
pub open spec fn pos_from(doc: &Document, k: int, hi: int) -> Seq<char>
    decreases hi - k,
{
    if k >= hi {
        Seq::empty()
    } else if doc.is_elem(k, "span"@) && doc.has_class(k, "hinshi"@) && trim(doc.text_of(k)).len()
        > 0 {
        trim(doc.text_of(k))
    } else {
        pos_from(doc, k + 1, hi)
    }
}

pub open spec fn part_of_speech(doc: &Document, c: int) -> Seq<char> {
    pos_from(doc, c + 1, doc.end_of(c))
}

pub open spec fn all_wide(s: Seq<char>) -> bool {
    forall|k: int| 0 <= k < s.len() ==> is_wide_digit(#[trigger] s[k])
}

/// The sense that the sense-number marker at `j` introduces: a `b` whose
/// trimmed text is one or more full-width digits, in a `p`; the trimmed text
/// of the `p` after the marker's text.
pub open spec fn marker_sense(doc: &Document, j: int) -> Seq<Seq<char>> {
    if doc.is_elem(j, "b"@) && trim(doc.text_of(j)).len() > 0 && all_wide(trim(doc.text_of(j))) {
        match doc.nodes@[j].parent {
            Some(p) => if p < doc.len() && doc.is_elem(p as int, "p"@) {
                let pt = doc.text_of(p as int);
                let bt = doc.text_of(j);
                match find(pt, bt) {
                    Some(s) => if trim_range(pt, s + bt.len(), pt.len() as int).len() > 0 {
                        seq![trim_range(pt, s + bt.len(), pt.len() as int)]
                    } else {
                        Seq::empty()
                    },
                    None => Seq::empty(),
                }
            } else {
                Seq::empty()
            },
            None => Seq::empty(),
        }
    } else {
        Seq::empty()
    }
}

pub open spec fn marker_senses(doc: &Document, lo: int, hi: int) -> Seq<Seq<char>>
    decreases hi - lo,
{
    if hi <= lo {
        Seq::empty()
    } else {
        marker_senses(doc, lo, hi - 1) + marker_sense(doc, hi - 1)
    }
}

/// The text after the closing mark at `k`, trimmed, where longer than ten characters.
pub open spec fn after_close(t: Seq<char>, k: int) -> Seq<Seq<char>> {
    if trim_range(t, k + 1, t.len() as int).len() > 10 {
        seq![trim_range(t, k + 1, t.len() as int)]
    } else {
        Seq::empty()
    }
}

pub open spec fn has_sentence_punct(t: Seq<char>) -> bool {
    exists|k: int| 0 <= k < t.len() && (is_ascii_punct(#[trigger] t[k]) || t[k] == '。' || t[k] == '、')
}

/// The sense that a paragraph without sense numbers gives, by the text
/// classifiers: a reading label gives none; a paragraph with `［` and `］`
/// gives what follows its first `》` (else its first `）`); other prose over
/// ten characters with punctuation is a sense as a whole.
pub open spec fn paragraph_sense(t0: Seq<char>) -> Seq<Seq<char>> {
    let t = trim(t0);
    if occurs_at(t, reading_label(), 0) {
        Seq::empty()
    } else if has_char(t, 0, t.len() as int, '［') && has_char(t, 0, t.len() as int, '］') {
        if next_char(t, 0, '》') < t.len() {
            after_close(t, next_char(t, 0, '》'))
        } else if next_char(t, 0, '）') < t.len() {
            after_close(t, next_char(t, 0, '）'))
        } else {
            Seq::empty()
        }
    } else if t.len() > 10 && !all_wide(t) && has_sentence_punct(t) {
        seq![t]
    } else {
        Seq::empty()
    }
}

pub open spec fn paragraph_senses(doc: &Document, lo: int, hi: int) -> Seq<Seq<char>>
    decreases hi - lo,
{
    if hi <= lo {
        Seq::empty()
    } else {
        paragraph_senses(doc, lo, hi - 1) + if doc.is_elem(hi - 1, "p"@) {
            paragraph_sense(doc.text_of(hi - 1))
        } else {
            Seq::empty()
        }
    }
}

/// The senses of the body at `c`: those of its sense-number markers, or where
/// there are none, those of its paragraphs.
pub open spec fn definitions(doc: &Document, c: int) -> Seq<Seq<char>> {
    let m = marker_senses(doc, c + 1, doc.end_of(c));
    if m.len() > 0 {
        m
    } else {
        paragraph_senses(doc, c + 1, doc.end_of(c))
    }
}

pub open spec fn is_synonym_box(doc: &Document, k: int) -> bool {
    doc.is_elem(k, "div"@) && doc.has_class(k, "synonymsUnderDict"@)
}

/// How far the synonym boxes among the nodes `lo..j` reach.
pub open spec fn synonym_reach(doc: &Document, lo: int, j: int) -> int
    decreases j - lo,
{
    if j <= lo {
        0
    } else if is_synonym_box(doc, j - 1) && doc.end_of(j - 1) > synonym_reach(doc, lo, j - 1) {
        doc.end_of(j - 1)
    } else {
        synonym_reach(doc, lo, j - 1)
    }
}

/// The trimmed, non-empty texts of the links among the nodes `lo..hi` that
/// lie in a synonym box that starts at or after `lo`.
pub open spec fn synonyms_in(doc: &Document, lo: int, hi: int) -> Seq<Seq<char>>
    decreases hi - lo,
{
    if hi <= lo {
        Seq::empty()
    } else {
        synonyms_in(doc, lo, hi - 1) + if doc.is_elem(hi - 1, "a"@) && synonym_reach(doc, lo, hi - 1)
            > hi - 1 && trim(doc.text_of(hi - 1)).len() > 0 {
            seq![trim(doc.text_of(hi - 1))]
        } else {
            Seq::empty()
        }
    }
}

pub open spec fn synonyms(doc: &Document, c: int) -> Seq<Seq<char>> {
    synonyms_in(doc, c + 1, doc.end_of(c))
}

pub open spec fn is_header(doc: &Document, k: int) -> bool {
    doc.is_elem(k, "h2"@) && doc.has_class(k, "midashigo"@)
}

pub open spec fn is_body(doc: &Document, k: int) -> bool {
    doc.is_elem(k, "div"@) && contains(doc.class_of(k), "Sgkdj"@)
}

/// Where the siblings of the node at `h` end: at the end of its parent.
pub open spec fn sibling_limit(doc: &Document, h: int) -> int {
    match doc.nodes@[h].parent {
        Some(p) => doc.end_of(p as int),
        None => doc.len(),
    }
}

/// The first body among the siblings from `i` on, before `limit`.
pub open spec fn find_body(doc: &Document, i: int, limit: int) -> Option<int>
    decreases limit - i,
{
    if i < 0 || i >= limit || i >= doc.len() {
        None
    } else if is_body(doc, i) {
        Some(i)
    } else if i < doc.end_of(i) <= limit {
        find_body(doc, doc.end_of(i), limit)
    } else {
        None
    }
}

/// The body of the entry whose header is at `h`.
pub open spec fn body_of(doc: &Document, h: int) -> Option<int> {
    find_body(doc, doc.end_of(h), sibling_limit(doc, h))
}

/// The entry that the header at `h` yields: none for a usage-example header,
/// for a header without a body, for a body without senses, or where no
/// label can be made.
pub open spec fn entry_for(doc: &Document, h: int) -> Option<EntryView> {
    if contains(doc.text_of(h), usage_marker()) {
        None
    } else {
        match body_of(doc, h) {
            None => None,
            Some(c) => if definitions(doc, c).len() == 0 || word_reading(doc, h, c).len() == 0 {
                None
            } else {
                Some(
                    EntryView {
                        word_reading: word_reading(doc, h, c),
                        part_of_speech: part_of_speech(doc, c),
                        definitions: definitions(doc, c),
                        synonyms: synonyms(doc, c),
                    },
                )
            },
        }
    }
}

/// The entries of the headers among the nodes `lo..hi`, in document order.
pub open spec fn entries_in(doc: &Document, lo: int, hi: int) -> Seq<EntryView>
    decreases hi - lo,
{
    if hi <= lo {
        Seq::empty()
    } else {
        entries_in(doc, lo, hi - 1) + if is_header(doc, hi - 1) && entry_for(doc, hi - 1) is Some {
            seq![entry_for(doc, hi - 1)->Some_0]
        } else {
            Seq::empty()
        }
    }
}

/// The entries of the whole page.
pub open spec fn page_entries(doc: &Document) -> Seq<EntryView> {
    entries_in(doc, 0, doc.len())
}

fn append_strings(out: &mut Vec<String>, more: &mut Vec<String>)
    ensures
        final(out).deep_view() == old(out).deep_view() + old(more).deep_view(),
{
    let ghost a = out.deep_view();
    let ghost b = more.deep_view();
    out.append(more);
    assert(out.deep_view() =~= a + b);
}

fn find_in(t: &Vec<char>, pat: &Vec<char>) -> (r: Option<usize>)
    ensures
        r matches Some(k) ==> find(t@, pat@) == Some(k as int) && k + pat.len() <= t.len(),
        r is None ==> find(t@, pat@) is None,
{
    let r = find_chars_from(t, pat, 0);
    proof {
        lemma_find_from(t@, pat@, 0);
    }
    r
}

fn collect_paragraph_readings(t: &Vec<char>) -> (r: Vec<String>)
    ensures
        r.deep_view() == paragraph_readings(t@),
{
    let mut out: Vec<String> = Vec::new();
    let label = chars_of("読み方：");
    if let Some(k) = find_in(t, &label) {
        out.push(trimmed_string(t, k + label.len(), t.len()));
    }
    assert(out.deep_view() =~= label_reading(t@));
    let ghost first = out.deep_view();
    let open = chars_of("《「");
    let close = chars_of("」とも》");
    if let Some(s) = find_in(t, &open) {
        if let Some(e) = find_in(t, &close) {
            if s + open.len() < e {
                out.push(sub_string(t, s + open.len(), e));
            }
        }
    }
    assert(out.deep_view() =~= first + also_reading(t@));
    let ghost second = out.deep_view();
    let quote = chars_of("「");
    let note = chars_of("」と発音する");
    let kana_chars = chars_of(
        "あいうえおかきくけこさしすせそたちつてとなにぬねのはひふへほまみむめもやゆよらりるれろわをんがぎぐげござじずぜぞだぢづでどばびぶべぼぱぴぷぺぽゃゅょっー",
    );
    if let Some(s) = find_in(t, &quote) {
        if let Some(e) = find_in(t, &note) {
            if s + quote.len() < e {
                let mut k: usize = s + quote.len();
                let mut all_kana = true;
                while k < e
                    invariant
                        s + quote@.len() <= k <= e <= t.len(),
                        quote@ == quote_open(),
                        kana_chars@ == kana(),
                        all_kana ==> forall|m: int|
                            s + quote@.len() <= m < k ==> is_kana(#[trigger] t@[m]),
                        !all_kana ==> exists|m: int|
                            s + quote@.len() <= m < e && !is_kana(#[trigger] t@[m]),
                    decreases e - k,
                {
                    if all_kana && !contains_char(&kana_chars, 0, kana_chars.len(), t[k]) {
                        all_kana = false;
                        assert(!is_kana(t@[k as int]));
                    }
                    k = k + 1;
                }
                if all_kana {
                    out.push(sub_string(t, s + quote.len(), e));
                }
            }
        }
    }
    assert(out.deep_view() =~= second + pronounced_reading(t@));
    out
}

/// The readings of the paragraphs in the body at `c`.
fn collect_readings(doc: &Document, c: usize) -> (r: Vec<String>)
    requires
        doc.wf(),
        c < doc.len(),
    ensures
        r.deep_view() == readings_in(doc, c + 1, doc.end_of(c as int)),
{
    let end = doc.nodes[c].end;
    assert(c < doc.end_of(c as int) <= doc.len());
    let mut out: Vec<String> = Vec::new();
    let mut k: usize = c + 1;
    assert(out.deep_view() =~= Seq::<Seq<char>>::empty());
    while k < end
        invariant
            doc.wf(),
            c < k <= end <= doc.len(),
            end == doc.end_of(c as int),
            out.deep_view() == readings_in(doc, c + 1, k as int),
        decreases end - k,
    {
        if doc.is_element(k, "p") {
            let t = doc.text_chars(k);
            let mut rs = collect_paragraph_readings(&t);
            append_strings(&mut out, &mut rs);
        } else {
            assert(out.deep_view() =~= out.deep_view() + Seq::<Seq<char>>::empty());
        }
        k = k + 1;
    }
    out
}

/// The readings joined with `・`.
fn join_with_dot(rs: &Vec<String>) -> (r: String)
    ensures
        r@ == join_readings(rs.deep_view()),
{
    if rs.len() == 0 {
        return String::new();
    }
    let mut out = rs[0].clone();
    let mut k: usize = 1;
    assert(rs.deep_view().subrange(0, 1).drop_last() =~= Seq::<Seq<char>>::empty());
    while k < rs.len()
        invariant
            1 <= k <= rs.len(),
            out@ == join_readings(rs.deep_view().subrange(0, k as int)),
        decreases rs.len() - k,
    {
        proof {
            reveal_strlit("・");
        }
        let ghost prev = out@;
        out.append("・");
        out.append(rs[k].as_str());
        let ghost sub = rs.deep_view().subrange(0, k + 1);
        assert(sub.drop_last() =~= rs.deep_view().subrange(0, k as int));
        assert(sub.last() == rs@[k as int]@);
        assert("・"@ =~= seq!['・']);
        assert(out@ =~= prev + seq!['・'] + sub.last());
        k = k + 1;
    }
    assert(rs.deep_view().subrange(0, rs.len() as int) =~= rs.deep_view());
    out
}

/// The reading that the body at `c` gives: its paragraphs' readings joined with `・`.
pub fn extract_reading_from_content(doc: &Document, c: usize) -> (r: String)
    requires
        doc.wf(),
        c < doc.len(),
    ensures
        r@ == content_reading(doc, c as int),
{
    let rs = collect_readings(doc, c);
    join_with_dot(&rs)
}

/// The reading in a header text: before `【`, without hyphens.
pub fn extract_reading_from_header(t: &Vec<char>) -> (r: String)
    ensures
        r@ == header_reading(t@),
{
    let bracket: Vec<char> = vec!['【'];
    assert(bracket@ =~= seq!['【']);
    match find_in(t, &bracket) {
        None => string_of(t),
        Some(k) => {
            let mut out: Vec<char> = Vec::new();
            let mut i: usize = 0;
            while i < k
                invariant
                    i <= k <= t.len(),
                    out@ == strip_hyphens(t@.subrange(0, i as int)),
                decreases k - i,
            {
                let ghost pre = t@.subrange(0, i + 1);
                assert(pre.drop_last() =~= t@.subrange(0, i as int));
                if t[i] != '‐' {
                    out.push(t[i]);
                }
                i = i + 1;
            }
            string_of(&out)
        },
    }
}

/// The trimmed text of the first `span.hinshi` in the body at `c` that has
/// text; empty where there is none.
pub fn extract_part_of_speech(doc: &Document, c: usize) -> (r: String)
    requires
        doc.wf(),
        c < doc.len(),
    ensures
        r@ == part_of_speech(doc, c as int),
{
    let end = doc.nodes[c].end;
    assert(c < doc.end_of(c as int) <= doc.len());
    let mut k: usize = c + 1;
    while k < end
        invariant
            doc.wf(),
            c < k <= end <= doc.len(),
            end == doc.end_of(c as int),
            part_of_speech(doc, c as int) == pos_from(doc, k as int, end as int),
        decreases end - k,
    {
        if doc.is_element(k, "span") && doc.has_class_exec(k, "hinshi") {
            let t = doc.text_chars(k);
            let (a, b) = trim_bounds(&t, 0, t.len());
            if a < b {
                return sub_string(&t, a, b);
            }
        }
        k = k + 1;
    }
    String::new()
}

fn all_wide_digits(t: &Vec<char>, lo: usize, hi: usize) -> (r: bool)
    requires
        lo <= hi <= t.len(),
    ensures
        r == all_wide(t@.subrange(lo as int, hi as int)),
{
    let mut k: usize = lo;
    while k < hi
        invariant
            lo <= k <= hi <= t.len(),
            forall|m: int| lo <= m < k ==> is_wide_digit(#[trigger] t@[m]),
        decreases hi - k,
    {
        if !(t[k] >= '０' && t[k] <= '９') {
            assert(t@.subrange(lo as int, hi as int)[k - lo] == t@[k as int]);
            return false;
        }
        k = k + 1;
    }
    assert forall|m: int| 0 <= m < hi - lo implies is_wide_digit(
        #[trigger] t@.subrange(lo as int, hi as int)[m],
    ) by {
        assert(t@.subrange(lo as int, hi as int)[m] == t@[lo + m]);
    }
    true
}

/// The sense that the node at `j` gives as a sense-number marker.
fn collect_marker_sense(doc: &Document, j: usize, out: &mut Vec<String>)
    requires
        doc.wf(),
        j < doc.len(),
    ensures
        final(out).deep_view() == old(out).deep_view() + marker_sense(doc, j as int),
{
    let ghost before = out.deep_view();
    if !doc.is_element(j, "b") {
        assert(out.deep_view() =~= before + marker_sense(doc, j as int));
        return;
    }
    let bt = doc.text_chars(j);
    let (a, b) = trim_bounds(&bt, 0, bt.len());
    if a >= b || !all_wide_digits(&bt, a, b) {
        assert(out.deep_view() =~= before + marker_sense(doc, j as int));
        return;
    }
    let p = match doc.nodes[j].parent {
        Some(p) => p,
        None => {
            assert(out.deep_view() =~= before + marker_sense(doc, j as int));
            return;
        },
    };
    assert(p < doc.len()) by {
        assert(j < doc.end_of(j as int));
    }
    if !doc.is_element(p, "p") {
        assert(out.deep_view() =~= before + marker_sense(doc, j as int));
        return;
    }
    let pt = doc.text_chars(p);
    match find_in(&pt, &bt) {
        Some(s) => {
            let (x, y) = trim_bounds(&pt, s + bt.len(), pt.len());
            if x < y {
                out.push(sub_string(&pt, x, y));
            }
        },
        None => {},
    }
    assert(out.deep_view() =~= before + marker_sense(doc, j as int));
}

/// The trimmed paragraph text `t` classified as a sense.
fn collect_paragraph_sense(t0: &Vec<char>, out: &mut Vec<String>)
    ensures
        final(out).deep_view() == old(out).deep_view() + paragraph_sense(t0@),
{
    let ghost before = out.deep_view();
    let (a0, b0) = trim_bounds(t0, 0, t0.len());
    let t = sub_chars(t0, a0, b0);
    assert(t@ =~= trim(t0@));
    let label = chars_of("読み方：");
    if label.len() <= t.len() && matches_at(&t, &label, 0) {
        assert(out.deep_view() =~= before + paragraph_sense(t0@));
        return;
    }
    let n = t.len();
    if contains_char(&t, 0, n, '［') && contains_char(&t, 0, n, '］') {
        proof {
            lemma_next_char(t@, 0, '》');
            lemma_next_char(t@, 0, '）');
        }
        let k1 = next_char_in(&t, '》');
        let k = if k1 < n {
            k1
        } else {
            next_char_in(&t, '）')
        };
        if k < n {
            let (x, y) = trim_bounds(&t, k + 1, n);
            if y - x > 10 {
                out.push(sub_string(&t, x, y));
            }
        }
        assert(out.deep_view() =~= before + paragraph_sense(t0@));
        return;
    }
    if n > 10 && !all_wide_digits(&t, 0, n) {
        assert(t@.subrange(0, n as int) =~= t@);
        let mut k: usize = 0;
        while k < n
            invariant
                k <= n == t.len(),
                n > 10,
                out.deep_view() == before,
                before == old(out).deep_view(),
                t@ == trim(t0@),
                !occurs_at(t@, reading_label(), 0),
                !(has_char(t@, 0, n as int, '［') && has_char(t@, 0, n as int, '］')),
                !all_wide(t@),
                forall|m: int|
                    0 <= m < k ==> !(is_ascii_punct(#[trigger] t@[m]) || t@[m] == '。' || t@[m]
                        == '、'),
            decreases n - k,
        {
            let c = t[k];
            if ascii_punct(c) || c == '。' || c == '、' {
                out.push(string_of(&t));
                assert(has_sentence_punct(t@));
                assert(out.deep_view() =~= before + paragraph_sense(t0@));
                return;
            }
            k = k + 1;
        }
    } else {
        assert(t@.subrange(0, n as int) =~= t@);
    }
    assert(out.deep_view() =~= before + paragraph_sense(t0@));
}

fn next_char_in(t: &Vec<char>, c: char) -> (r: usize)
    ensures
        r == next_char(t@, 0, c),
{
    let mut k: usize = 0;
    while k < t.len() && t[k] != c
        invariant
            k <= t.len(),
            next_char(t@, 0, c) == next_char(t@, k as int, c),
        decreases t.len() - k,
    {
        k = k + 1;
    }
    k
}

/// The senses of the body at `c`: after its sense-number markers, or where
/// none gives one, by the paragraph classifiers.
pub fn extract_definitions(doc: &Document, c: usize) -> (r: Vec<String>)
    requires
        doc.wf(),
        c < doc.len(),
    ensures
        r.deep_view() == definitions(doc, c as int),
{
    let end = doc.nodes[c].end;
    assert(c < doc.end_of(c as int) <= doc.len());
    let mut marked: Vec<String> = Vec::new();
    assert(marked.deep_view() =~= Seq::<Seq<char>>::empty());
    let mut k: usize = c + 1;
    while k < end
        invariant
            doc.wf(),
            c < k <= end <= doc.len(),
            end == doc.end_of(c as int),
            marked.deep_view() == marker_senses(doc, c + 1, k as int),
        decreases end - k,
    {
        collect_marker_sense(doc, k, &mut marked);
        k = k + 1;
    }
    if marked.len() > 0 {
        return marked;
    }
    let mut out: Vec<String> = Vec::new();
    assert(out.deep_view() =~= Seq::<Seq<char>>::empty());
    let mut k: usize = c + 1;
    while k < end
        invariant
            doc.wf(),
            c < k <= end <= doc.len(),
            end == doc.end_of(c as int),
            out.deep_view() == paragraph_senses(doc, c + 1, k as int),
        decreases end - k,
    {
        if doc.is_element(k, "p") {
            let t = doc.text_chars(k);
            collect_paragraph_sense(&t, &mut out);
        } else {
            assert(out.deep_view() =~= out.deep_view() + Seq::<Seq<char>>::empty());
        }
        k = k + 1;
    }
    out
}

/// The trimmed, non-empty texts of the links inside synonym boxes in the body at `c`.
pub fn extract_synonyms(doc: &Document, c: usize) -> (r: Vec<String>)
    requires
        doc.wf(),
        c < doc.len(),
    ensures
        r.deep_view() == synonyms(doc, c as int),
{
    let end = doc.nodes[c].end;
    assert(c < doc.end_of(c as int) <= doc.len());
    let mut out: Vec<String> = Vec::new();
    assert(out.deep_view() =~= Seq::<Seq<char>>::empty());
    let mut reach: usize = 0;
    let mut k: usize = c + 1;
    while k < end
        invariant
            doc.wf(),
            c < k <= end <= doc.len(),
            end == doc.end_of(c as int),
            reach == synonym_reach(doc, c + 1, k as int),
            out.deep_view() == synonyms_in(doc, c + 1, k as int),
        decreases end - k,
    {
        let ghost before = out.deep_view();
        if doc.is_element(k, "a") && reach > k {
            let t = doc.text_chars(k);
            let (a, b) = trim_bounds(&t, 0, t.len());
            if a < b {
                out.push(sub_string(&t, a, b));
            }
        }
        assert(out.deep_view() =~= synonyms_in(doc, c + 1, k + 1));
        if doc.is_element(k, "div") && doc.has_class_exec(k, "synonymsUnderDict") && doc.nodes[k].end
            > reach {
            reach = doc.nodes[k].end;
        }
        k = k + 1;
    }
    out
}

/// The first body among the siblings that follow the header at `h`.
pub fn find_content(doc: &Document, h: usize) -> (r: Option<usize>)
    requires
        doc.wf(),
        h < doc.len(),
    ensures
        r matches Some(c) ==> body_of(doc, h as int) == Some(c as int) && c < doc.len(),
        r is None ==> body_of(doc, h as int) is None,
{
    let limit = match doc.nodes[h].parent {
        Some(p) => doc.nodes[p].end,
        None => doc.nodes.len(),
    };
    let mut i = doc.nodes[h].end;
    while i < limit && i < doc.nodes.len()
        invariant
            doc.wf(),
            h < doc.len(),
            limit == sibling_limit(doc, h as int),
            body_of(doc, h as int) == find_body(doc, i as int, limit as int),
        decreases doc.len() - i,
    {
        let cls = doc.class_chars(i);
        let marker = chars_of("Sgkdj");
        if doc.is_element(i, "div") && find_in(&cls, &marker).is_some() {
            return Some(i);
        }
        let next = doc.nodes[i].end;
        assert(i < doc.end_of(i as int));
        if next > limit {
            return None;
        }
        i = next;
    }
    None
}

/// The entry that the header at `h` yields, if any.
pub fn parse_single_entry(doc: &Document, h: usize) -> (r: Option<DictionaryEntry>)
    requires
        doc.wf(),
        h < doc.len(),
    ensures
        r matches Some(e) ==> entry_for(doc, h as int) == Some(e@),
        r is None ==> entry_for(doc, h as int) is None,
{
    let header_text = doc.text_chars(h);
    let usage = chars_of("例文・使い方・用例・文例");
    if find_in(&header_text, &usage).is_some() {
        return None;
    }
    let c = match find_content(doc, h) {
        Some(c) => c,
        None => {
            return None;
        },
    };
    let definitions = extract_definitions(doc, c);
    if definitions.len() == 0 {
        return None;
    }
    let word = match doc.attr(h, "title") {
        Some(w) => w,
        None => String::new(),
    };
    let reading_text = extract_reading_from_content(doc, c);
    let reading = extract_reading_from_header(&header_text);
    let label = if !word.as_str().is_empty() && !reading_text.as_str().is_empty() {
        let mut s = reading_text;
        proof {
            reveal_strlit("【");
            reveal_strlit("】");
        }
        s.append("【");
        s.append(word.as_str());
        s.append("】");
        assert("【"@ =~= seq!['【']);
        assert("】"@ =~= seq!['】']);
        s
    } else if !reading.as_str().is_empty() {
        reading
    } else {
        word
    };
    assert(label@ == word_reading(doc, h as int, c as int));
    if label.as_str().is_empty() {
        return None;
    }
    let part_of_speech = extract_part_of_speech(doc, c);
    let synonyms = extract_synonyms(doc, c);
    assert(title_of(doc, h as int) == word@);
    let entry = DictionaryEntry::new(label, part_of_speech, definitions).with_synonyms(
        synonyms,
    );
    assert(entry@ == entry_for(doc, h as int)->Some_0);
    Some(entry)
}

/// The entries of all headers of the page, in document order.
pub fn parse_weblio_entries(doc: &Document) -> (r: Vec<DictionaryEntry>)
    requires
        doc.wf(),
    ensures
        r@.map_values(|e: DictionaryEntry| e@) == page_entries(doc),
{
    let mut out: Vec<DictionaryEntry> = Vec::new();
    let mut k: usize = 0;
    while k < doc.nodes.len()
        invariant
            doc.wf(),
            k <= doc.len(),
            out@.map_values(|e: DictionaryEntry| e@) == entries_in(doc, 0, k as int),
        decreases doc.len() - k,
    {
        let ghost before = out@.map_values(|e: DictionaryEntry| e@);
        if doc.is_element(k, "h2") && doc.has_class_exec(k, "midashigo") {
            match parse_single_entry(doc, k) {
                Some(e) => {
                    out.push(e);
                },
                None => {},
            }
        }
        assert(out@.map_values(|e: DictionaryEntry| e@) =~= entries_in(doc, 0, k + 1));
        k = k + 1;
    }
    out
}

/// A header that announces usage examples yields no entry.
pub proof fn lemma_usage_header_no_entry(doc: &Document, h: int)
    requires
        contains(doc.text_of(h), usage_marker()),
    ensures
        entry_for(doc, h) is None,
{
}

/// A header without a body among its following siblings yields no entry.
pub proof fn lemma_no_body_no_entry(doc: &Document, h: int)
    requires
        body_of(doc, h) is None,
    ensures
        entry_for(doc, h) is None,
{
}

proof fn lemma_no_box_in(doc: &Document, lo: int, hi: int)
    requires
        0 <= lo,
        forall|k: int| lo <= k < hi ==> !is_synonym_box(doc, k),
    ensures
        synonym_reach(doc, lo, hi) == 0,
        synonyms_in(doc, lo, hi) == Seq::<Seq<char>>::empty(),
    decreases hi - lo,
{
    if hi > lo {
        lemma_no_box_in(doc, lo, hi - 1);
        assert(synonyms_in(doc, lo, hi) =~= Seq::<Seq<char>>::empty());
    }
}

/// A body without a synonym box gives an empty list of synonyms, and the
/// entry it belongs to has that empty list.
pub proof fn lemma_no_synonym_box(doc: &Document, h: int, c: int)
    requires
        0 <= c,
        body_of(doc, h) == Some(c),
        forall|k: int| c + 1 <= k < doc.end_of(c) ==> !is_synonym_box(doc, k),
    ensures
        synonyms(doc, c) == Seq::<Seq<char>>::empty(),
        entry_for(doc, h) matches Some(e) ==> e.synonyms == Seq::<Seq<char>>::empty(),
{
    lemma_no_box_in(doc, c + 1, doc.end_of(c));
}

/// The headers among the nodes `lo..hi` that do not announce usage examples.
pub open spec fn entry_headers_in(doc: &Document, lo: int, hi: int) -> nat
    decreases hi - lo,
{
    if hi <= lo {
        0
    } else {
        entry_headers_in(doc, lo, hi - 1) + if is_header(doc, hi - 1) && !contains(
            doc.text_of(hi - 1),
            usage_marker(),
        ) {
            1nat
        } else {
            0nat
        }
    }
}

/// A page yields at most one entry per header that does not announce usage
/// examples: usage-example headers contribute none.
pub proof fn lemma_entries_bounded(doc: &Document, lo: int, hi: int)
    ensures
        entries_in(doc, lo, hi).len() <= entry_headers_in(doc, lo, hi),
    decreases hi - lo,
{
    if hi > lo {
        lemma_entries_bounded(doc, lo, hi - 1);
    }
}

} // verus!

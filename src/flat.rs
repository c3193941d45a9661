//! The splitter for flat dictionary lines of the form
//! `HEADWORD [READING] /(pos) (1) sense/.../(2) sense/`.
use crate::entry::{DictionaryEntry, EntryView};
use crate::text::{
    alphabetic, back_space, char_is_alphabetic, char_is_space, find, is_ascii_digit, is_space,
    skip_space, string_of, sub_chars, sub_string, trim_bounds, trim_range, chars_of, find_chars_from,
    lemma_find_from, lemma_trim_range, occurs_at, trim, is_trimmed, contains, lemma_skip_space, lemma_back_space,
};
use vstd::prelude::*;

verus! {

/// What a flat line yields: the line as it stands, where it does not have
/// the expected shape, or an entry.
pub enum FlatEntry {
    Plain(String),
    Parsed(DictionaryEntry),
}

pub enum FlatView {
    Plain(Seq<char>),
    Parsed(EntryView),
}

impl View for FlatEntry {
    type V = FlatView;

    open spec fn view(&self) -> FlatView {
        match self {
            FlatEntry::Plain(s) => FlatView::Plain(s@),
            FlatEntry::Parsed(e) => FlatView::Parsed(e@),
        }
    }
}

/// Characters skipped between senses.
pub open spec fn is_sep(c: char) -> bool {
    c == '/' || is_space(c)
}

/// The first index from `i` on that holds `c`, else the length of `t`.
pub open spec fn next_char(t: Seq<char>, i: int, c: char) -> int
    decreases t.len() - i,
{
    if i >= t.len() {
        t.len() as int
    } else if t[i] == c {
        i
    } else {
        next_char(t, i + 1, c)
    }
}

pub open spec fn all_digits(s: Seq<char>) -> bool {
    forall|k: int| 0 <= k < s.len() ==> is_ascii_digit(#[trigger] s[k])
}

/// A parenthesised group `(lo..hi)` whose content, trimmed, is all decimal digits
/// (an empty group counts).
pub open spec fn is_number_group(t: Seq<char>, lo: int, hi: int) -> bool {
    all_digits(trim_range(t, lo, hi))
}

pub open spec fn has_letter(t: Seq<char>, lo: int, hi: int) -> bool {
    exists|k: int| lo <= k < hi && alphabetic(#[trigger] t[k])
}

/// Whether the slash at `i` ends a sense: after white space, a group follows
/// that holds a letter (an annotation) or is a sense number.
pub open spec fn ends_sense(t: Seq<char>, i: int) -> bool {
    let n = skip_space(t, i + 1, t.len() as int);
    &&& n < t.len()
    &&& t[n] == '('
    &&& next_char(t, n + 1, ')') < t.len()
    &&& (has_letter(t, n + 1, next_char(t, n + 1, ')')) || is_number_group(
        t,
        n + 1,
        next_char(t, n + 1, ')'),
    ))
}

/// Where the sense text that has reached `i` at nesting `depth` ends: at a slash
/// outside parentheses that ends the sense, else at the end of `t`.
pub open spec fn sense_end(t: Seq<char>, i: int, depth: int) -> int
    decreases t.len() - i,
{
    if i >= t.len() {
        t.len() as int
    } else if t[i] == '(' {
        sense_end(t, i + 1, depth + 1)
    } else if t[i] == ')' {
        sense_end(t, i + 1, depth - 1)
    } else if t[i] == '/' && depth == 0 && ends_sense(t, i) {
        i
    } else {
        sense_end(t, i + 1, depth)
    }
}

/// Where the text of a sense starts, from `s` on: past white space and past
/// groups that are no sense number (cross-references and the like).
pub open spec fn sense_start(t: Seq<char>, s: int) -> int
    decreases t.len() - s,
{
    if s < 0 || s >= t.len() {
        s
    } else if is_space(t[s]) {
        sense_start(t, s + 1)
    } else if t[s] == '(' && s < next_char(t, s + 1, ')') < t.len() && !is_number_group(
        t,
        s + 1,
        next_char(t, s + 1, ')'),
    ) {
        sense_start(t, next_char(t, s + 1, ')') + 1)
    } else {
        s
    }
}

/// The sense text `s..d`: trimmed, without trailing slashes, trimmed again.
pub open spec fn clean_sense(t: Seq<char>, s: int, d: int) -> Seq<char> {
    let a = skip_space(t, s, d);
    let b = back_space(t, a, d);
    trim_range(t, a, back_slashes(t, a, b))
}

/// The numbered senses of `t` from `p` on: each group of digits starts a
/// sense, whose text begins after any groups that follow the number; any
/// other group is skipped; empty senses are dropped.
pub open spec fn numbered(t: Seq<char>, p: int) -> Seq<Seq<char>>
    decreases t.len() - p,
{
    if p < 0 || p >= t.len() {
        Seq::empty()
    } else if is_sep(t[p]) || t[p] != '(' {
        numbered(t, p + 1)
    } else {
        let e = next_char(t, p + 1, ')');
        if e >= t.len() || e <= p {
            numbered(t, p + 1)
        } else if is_number_group(t, p + 1, e) {
            let s = sense_start(t, e + 1);
            let d = sense_end(t, s, 0);
            let sense = clean_sense(t, s, d);
            let rest = if p < d <= t.len() {
                numbered(t, d)
            } else {
                Seq::empty()
            };
            if sense.len() > 0 {
                seq![sense] + rest
            } else {
                rest
            }
        } else {
            numbered(t, e + 1)
        }
    }
}

/// The first index from `i` on that holds no separator.
pub open spec fn skip_seps(t: Seq<char>, i: int) -> int
    decreases t.len() - i,
{
    if 0 <= i < t.len() && is_sep(t[i]) {
        skip_seps(t, i + 1)
    } else {
        i
    }
}

/// The first index from `i` on where a doubled slash starts, else the length.
pub open spec fn double_slash(t: Seq<char>, i: int) -> int
    decreases t.len() - i,
{
    if i + 1 >= t.len() {
        t.len() as int
    } else if t[i] == '/' && t[i + 1] == '/' {
        i
    } else {
        double_slash(t, i + 1)
    }
}

/// Moves `j` back over slashes, not past `lo`.
pub open spec fn back_slashes(t: Seq<char>, lo: int, j: int) -> int
    decreases j - lo,
{
    if lo < j && t[j - 1] == '/' {
        back_slashes(t, lo, j - 1)
    } else {
        j
    }
}

/// The single sense of a text without numbers: from after the leading
/// separators up to a doubled slash, trimmed, without trailing slashes, trimmed.
pub open spec fn unnumbered(t: Seq<char>) -> Seq<char> {
    let q = skip_seps(t, 0);
    clean_sense(t, q, double_slash(t, q))
}

/// The senses of the text that follows the part of speech.
pub open spec fn senses_of(t: Seq<char>) -> Seq<Seq<char>> {
    if numbered(t, 0).len() > 0 {
        numbered(t, 0)
    } else if unnumbered(t).len() > 0 {
        seq![unnumbered(t)]
    } else {
        Seq::empty()
    }
}

/// The separator between the headword block and the senses.
pub open spec fn separator() -> Seq<char> {
    seq![' ', '/']
}

/// What a flat line yields.
pub open spec fn flat_entry(line: Seq<char>) -> FlatView {
    match find(line, separator()) {
        None => FlatView::Plain(line),
        Some(k) => {
            let rest = line.subrange(k + 2, line.len() as int);
            let a = next_char(rest, 0, '(');
            let b = next_char(rest, a + 1, ')');
            if a >= rest.len() || b >= rest.len() {
                FlatView::Plain(line)
            } else {
                let senses = senses_of(rest.subrange(b + 1, rest.len() as int));
                if senses.len() == 0 {
                    FlatView::Plain(line)
                } else {
                    FlatView::Parsed(
                        EntryView {
                            word_reading: line.subrange(0, k),
                            part_of_speech: rest.subrange(a, b + 1),
                            definitions: senses,
                            synonyms: Seq::empty(),
                        },
                    )
                }
            }
        },
    }
}

pub proof fn lemma_next_char(t: Seq<char>, i: int, c: char)
    requires
        0 <= i,
    ensures
        i <= next_char(t, i, c) || i > t.len(),
        next_char(t, i, c) <= t.len(),
        next_char(t, i, c) < t.len() ==> t[next_char(t, i, c)] == c,
    decreases t.len() - i,
{
    if i < t.len() && t[i] != c {
        lemma_next_char(t, i + 1, c);
    }
}

pub proof fn lemma_sense_end(t: Seq<char>, i: int, depth: int)
    requires
        0 <= i <= t.len(),
    ensures
        i <= sense_end(t, i, depth) <= t.len(),
        sense_end(t, i, depth) == t.len() || (t[sense_end(t, i, depth)] == '/' && ends_sense(
            t,
            sense_end(t, i, depth),
        )),
    decreases t.len() - i,
{
    if i < t.len() {
        if t[i] == '(' {
            lemma_sense_end(t, i + 1, depth + 1);
        } else if t[i] == ')' {
            lemma_sense_end(t, i + 1, depth - 1);
        } else if t[i] == '/' && depth == 0 && ends_sense(t, i) {
        } else {
            lemma_sense_end(t, i + 1, depth);
        }
    }
}

fn next_char_exec(t: &Vec<char>, i: usize, c: char) -> (r: usize)
    requires
        i <= t.len(),
    ensures
        r == next_char(t@, i as int, c),
        i <= r <= t.len(),
{
    proof {
        lemma_next_char(t@, i as int, c);
    }
    let mut k: usize = i;
    while k < t.len() && t[k] != c
        invariant
            i <= k <= t.len(),
            next_char(t@, i as int, c) == next_char(t@, k as int, c),
        decreases t.len() - k,
    {
        k = k + 1;
    }
    k
}

fn skip_spaces(t: &Vec<char>, i: usize) -> (r: usize)
    requires
        i <= t.len(),
    ensures
        r == skip_space(t@, i as int, t.len() as int),
        i <= r <= t.len(),
{
    let mut k: usize = i;
    while k < t.len() && char_is_space(t[k])
        invariant
            i <= k <= t.len(),
            skip_space(t@, i as int, t.len() as int) == skip_space(t@, k as int, t.len() as int),
        decreases t.len() - k,
    {
        k = k + 1;
    }
    k
}

fn number_group(t: &Vec<char>, lo: usize, hi: usize) -> (r: bool)
    requires
        lo <= hi <= t.len(),
    ensures
        r == is_number_group(t@, lo as int, hi as int),
{
    let (a, b) = trim_bounds(t, lo, hi);
    let ghost g = trim_range(t@, lo as int, hi as int);
    assert(g =~= t@.subrange(a as int, b as int));
    let mut k: usize = a;
    while k < b
        invariant
            a <= k <= b <= t.len(),
            g == t@.subrange(a as int, b as int),
            g == trim_range(t@, lo as int, hi as int),
            forall|m: int| 0 <= m < k - a ==> is_ascii_digit(#[trigger] g[m]),
        decreases b - k,
    {
        if !(t[k] >= '0' && t[k] <= '9') {
            assert(g[k - a] == t@[k as int]);
            assert(!is_ascii_digit(g[k - a]));
            return false;
        }
        k = k + 1;
    }
    true
}

fn letter_group(t: &Vec<char>, lo: usize, hi: usize) -> (r: bool)
    requires
        lo <= hi <= t.len(),
    ensures
        r == has_letter(t@, lo as int, hi as int),
{
    let mut k: usize = lo;
    while k < hi
        invariant
            lo <= k <= hi <= t.len(),
            forall|m: int| lo <= m < k ==> !alphabetic(#[trigger] t@[m]),
        decreases hi - k,
    {
        if char_is_alphabetic(t[k]) {
            return true;
        }
        k = k + 1;
    }
    false
}

fn ends_sense_exec(t: &Vec<char>, i: usize) -> (r: bool)
    requires
        i < t.len(),
    ensures
        r == ends_sense(t@, i as int),
{
    let n = skip_spaces(t, i + 1);
    if n >= t.len() || t[n] != '(' {
        return false;
    }
    let e = next_char_exec(t, n + 1, ')');
    if e >= t.len() {
        return false;
    }
    letter_group(t, n + 1, e) || number_group(t, n + 1, e)
}

fn sense_end_exec(t: &Vec<char>, s: usize) -> (r: usize)
    requires
        s <= t.len(),
    ensures
        r == sense_end(t@, s as int, 0),
{
    let mut i: usize = s;
    let mut opens: usize = 0;
    let mut closes: usize = 0;
    while i < t.len()
        invariant
            s <= i <= t.len(),
            opens + closes <= i - s,
            sense_end(t@, s as int, 0) == sense_end(t@, i as int, opens - closes),
        decreases t.len() - i,
    {
        let c = t[i];
        if c == '(' {
            opens = opens + 1;
        } else if c == ')' {
            closes = closes + 1;
        } else if c == '/' && opens == closes && ends_sense_exec(t, i) {
            return i;
        }
        i = i + 1;
    }
    i
}

fn numbered_senses(t: &Vec<char>) -> (r: Vec<String>)
    ensures
        r.deep_view() == numbered(t@, 0),
{
    let mut out: Vec<String> = Vec::new();
    let mut p: usize = 0;
    assert(out.deep_view() =~= Seq::<Seq<char>>::empty());
    while p < t.len()
        invariant
            p <= t.len(),
            out.deep_view() + numbered(t@, p as int) == numbered(t@, 0),
        decreases t.len() - p,
    {
        let c = t[p];
        if c == '/' || char_is_space(c) || c != '(' {
            p = p + 1;
        } else {
            let e = next_char_exec(t, p + 1, ')');
            if e >= t.len() {
                p = p + 1;
            } else if number_group(t, p + 1, e) {
                let s = sense_start_exec(t, e + 1);
                let d = sense_end_exec(t, s);
                proof {
                    lemma_sense_end(t@, s as int, 0);
                }
                let (a, b) = clean_bounds(t, s, d);
                let ghost before = out.deep_view();
                if a < b {
                    let sense = sub_string(t, a, b);
                    out.push(sense);
                    assert(out.deep_view() =~= before.push(sense@));
                    assert(before + numbered(t@, p as int) =~= out.deep_view() + numbered(
                        t@,
                        d as int,
                    ));
                }
                p = d;
            } else {
                p = e + 1;
            }
        }
    }
    assert(out.deep_view() + numbered(t@, p as int) =~= out.deep_view());
    out
}

fn unnumbered_bounds(t: &Vec<char>) -> (r: (usize, usize))
    ensures
        r.0 <= r.1 <= t.len(),
        t@.subrange(r.0 as int, r.1 as int) == unnumbered(t@),
{
    let mut q: usize = 0;
    while q < t.len() && (t[q] == '/' || char_is_space(t[q]))
        invariant
            q <= t.len(),
            skip_seps(t@, 0) == skip_seps(t@, q as int),
        decreases t.len() - q,
    {
        q = q + 1;
    }
    let mut d: usize = q;
    while d < t.len() && d + 1 < t.len() && !(t[d] == '/' && t[d + 1] == '/')
        invariant
            q <= d <= t.len(),
            double_slash(t@, q as int) == double_slash(t@, d as int),
        decreases t.len() - d,
    {
        d = d + 1;
    }
    if d >= t.len() || d + 1 >= t.len() {
        d = t.len();
    }
    clean_bounds(t, q, d)
}

/// The bounds in `t` of `clean_sense(t@, s, d)`.
fn clean_bounds(t: &Vec<char>, s: usize, d: usize) -> (r: (usize, usize))
    requires
        s <= d <= t.len(),
    ensures
        r.0 <= r.1 <= t.len(),
        t@.subrange(r.0 as int, r.1 as int) == clean_sense(t@, s as int, d as int),
{
    let (a, b) = trim_bounds(t, s, d);
    let mut c: usize = b;
    while a < c && t[c - 1] == '/'
        invariant
            a <= c <= b,
            b <= t.len(),
            back_slashes(t@, a as int, b as int) == back_slashes(t@, a as int, c as int),
        decreases c - a,
    {
        c = c - 1;
    }
    trim_bounds(t, a, c)
}

/// Finds where the text of a sense starts, from `s` on.
fn sense_start_exec(t: &Vec<char>, s: usize) -> (r: usize)
    requires
        s <= t.len(),
    ensures
        r == sense_start(t@, s as int),
        s <= r <= t.len(),
{
    let mut k: usize = s;
    while k < t.len()
        invariant
            s <= k <= t.len(),
            sense_start(t@, s as int) == sense_start(t@, k as int),
        decreases t.len() - k,
    {
        if char_is_space(t[k]) {
            k = k + 1;
        } else if t[k] == '(' {
            let e = next_char_exec(t, k + 1, ')');
            if e < t.len() && !number_group(t, k + 1, e) {
                k = e + 1;
            } else {
                return k;
            }
        } else {
            return k;
        }
    }
    k
}

/// Splits the text that follows the part of speech into its senses.
fn split_senses(t: &Vec<char>) -> (r: Vec<String>)
    ensures
        r.deep_view() == senses_of(t@),
{
    let senses = numbered_senses(t);
    if senses.len() > 0 {
        return senses;
    }
    let mut out: Vec<String> = Vec::new();
    let (a, b) = unnumbered_bounds(t);
    if a < b {
        out.push(sub_string(t, a, b));
        assert(out.deep_view() =~= seq![unnumbered(t@)]);
    } else {
        assert(out.deep_view() =~= Seq::<Seq<char>>::empty());
    }
    out
}

/// Splits one flat line into headword block, part of speech and senses; a
/// line that does not have that shape comes back as it stands.
pub fn parse_flat_entry(line: &str) -> (r: FlatEntry)
    ensures
        r@ == flat_entry(line@),
{
    let v = chars_of(line);
    let sep: Vec<char> = vec![' ', '/'];
    assert(sep@ =~= separator());
    let found = find_chars_from(&v, &sep, 0);
    let k = match found {
        None => {
            return FlatEntry::Plain(string_of(&v));
        },
        Some(k) => k,
    };
    proof {
        lemma_find_from(v@, sep@, 0);
        assert(found == Some(k));
        assert(occurs_at(v@, sep@, k as int));
        assert(sep@.len() == 2);
    }
    assert(k + 2 <= v.len());
    let rest = sub_chars(&v, k + 2, v.len());
    let a = next_char_exec(&rest, 0, '(');
    if a >= rest.len() {
        return FlatEntry::Plain(string_of(&v));
    }
    let b = next_char_exec(&rest, a + 1, ')');
    if b >= rest.len() {
        return FlatEntry::Plain(string_of(&v));
    }
    let t = sub_chars(&rest, b + 1, rest.len());
    let senses = split_senses(&t);
    if senses.len() == 0 {
        return FlatEntry::Plain(string_of(&v));
    }
    let word_reading = sub_string(&v, 0, k);
    let part_of_speech = sub_string(&rest, a, b + 1);
    FlatEntry::Parsed(DictionaryEntry::new(word_reading, part_of_speech, senses))
}

/// A line without the ` /` separator comes back unchanged.
pub proof fn lemma_no_separator_plain(line: Seq<char>)
    requires
        !contains(line, separator()),
    ensures
        flat_entry(line) == FlatView::Plain(line),
{
}

/// The parenthesis nesting that the characters `i..k` of `t` add.
pub open spec fn nesting(t: Seq<char>, i: int, k: int) -> int
    decreases k - i,
{
    if k <= i {
        0
    } else {
        nesting(t, i, k - 1) + if t[k - 1] == '(' {
            1int
        } else if t[k - 1] == ')' {
            -1int
        } else {
            0int
        }
    }
}

proof fn lemma_nesting_front(t: Seq<char>, i: int, k: int)
    requires
        0 <= i < k <= t.len(),
    ensures
        nesting(t, i, k) == nesting(t, i + 1, k) + if t[i] == '(' {
            1int
        } else if t[i] == ')' {
            -1int
        } else {
            0int
        },
    decreases k - i,
{
    if k > i + 1 {
        lemma_nesting_front(t, i, k - 1);
    } else {
        assert(nesting(t, i, i) == 0);
        assert(nesting(t, i + 1, k) == 0);
    }
}

proof fn lemma_sense_end_first(t: Seq<char>, i: int, depth: int)
    requires
        0 <= i <= t.len(),
    ensures
        forall|k: int|
            i <= k < sense_end(t, i, depth) ==> !(t[k] == '/' && depth + nesting(t, i, k) == 0
                && #[trigger] ends_sense(t, k)),
    decreases t.len() - i,
{
    if i < t.len() {
        let delta: int = if t[i] == '(' {
            1
        } else if t[i] == ')' {
            -1
        } else {
            0
        };
        if t[i] == '/' && depth == 0 && ends_sense(t, i) {
        } else {
            lemma_sense_end_first(t, i + 1, depth + delta);
            lemma_sense_end(t, i, depth);
            assert forall|k: int| i <= k < sense_end(t, i, depth) implies !(t[k] == '/' && depth
                + nesting(t, i, k) == 0 && #[trigger] ends_sense(t, k)) by {
                if k > i {
                    lemma_nesting_front(t, i, k);
                }
            }
        }
    }
}

/// A sense ends only at the end of the text or at a slash outside
/// parentheses that a sense number or an annotation group follows; every
/// other slash before that end stays in the sense.
pub proof fn lemma_slash_in_sense(t: Seq<char>, s: int)
    requires
        0 <= s <= t.len(),
    ensures
        s <= sense_end(t, s, 0) <= t.len(),
        sense_end(t, s, 0) < t.len() ==> t[sense_end(t, s, 0)] == '/' && ends_sense(
            t,
            sense_end(t, s, 0),
        ) && nesting(t, s, sense_end(t, s, 0)) == 0,
        forall|k: int|
            s <= k < sense_end(t, s, 0) && t[k] == '/' && nesting(t, s, k) == 0 ==> !#[trigger] ends_sense(t, k),
{
    lemma_sense_end(t, s, 0);
    lemma_sense_end_first(t, s, 0);
    lemma_sense_end_depth(t, s, 0);
}

proof fn lemma_sense_end_depth(t: Seq<char>, i: int, depth: int)
    requires
        0 <= i <= t.len(),
    ensures
        sense_end(t, i, depth) < t.len() ==> depth + nesting(t, i, sense_end(t, i, depth)) == 0,
    decreases t.len() - i,
{
    if i < t.len() {
        let delta: int = if t[i] == '(' {
            1
        } else if t[i] == ')' {
            -1
        } else {
            0
        };
        if t[i] == '/' && depth == 0 && ends_sense(t, i) {
        } else {
            lemma_sense_end_depth(t, i + 1, depth + delta);
            lemma_sense_end(t, i + 1, depth + delta);
            if sense_end(t, i, depth) < t.len() {
                lemma_nesting_front(t, i, sense_end(t, i, depth));
            }
        }
    }
}

/// A group that is not a sense number (a cross-reference, say) is skipped:
/// the senses from it on are those after it.
pub proof fn lemma_annotation_skipped(t: Seq<char>, p: int)
    requires
        0 <= p < t.len(),
        t[p] == '(',
        next_char(t, p + 1, ')') < t.len(),
        !is_number_group(t, p + 1, next_char(t, p + 1, ')')),
    ensures
        numbered(t, p) == numbered(t, next_char(t, p + 1, ')') + 1),
{
    lemma_next_char(t, p + 1, ')');
}

/// Every sense is non-empty and trimmed.
pub open spec fn senses_well_formed(senses: Seq<Seq<char>>) -> bool {
    forall|i: int|
        0 <= i < senses.len() ==> #[trigger] senses[i].len() > 0 && is_trimmed(senses[i])
}

proof fn lemma_numbered_well_formed(t: Seq<char>, p: int)
    ensures
        senses_well_formed(numbered(t, p)),
    decreases t.len() - p,
{
    if p < 0 || p >= t.len() {
    } else if is_sep(t[p]) || t[p] != '(' {
        lemma_numbered_well_formed(t, p + 1);
    } else {
        let e = next_char(t, p + 1, ')');
        if e >= t.len() || e <= p {
            lemma_numbered_well_formed(t, p + 1);
        } else if is_number_group(t, p + 1, e) {
            let s = sense_start(t, e + 1);
            lemma_next_char(t, p + 1, ')');
            lemma_sense_start(t, e + 1);
            let d = sense_end(t, s, 0);
            lemma_sense_end(t, s, 0);
            lemma_clean_sense(t, s, d);
            if p < d <= t.len() {
                lemma_numbered_well_formed(t, d);
            }
            let sense = clean_sense(t, s, d);
            let rest = if p < d <= t.len() {
                numbered(t, d)
            } else {
                Seq::empty()
            };
            if sense.len() > 0 {
                assert(seq![sense] + rest == numbered(t, p));
                assert forall|i: int| 0 <= i < numbered(t, p).len() implies #[trigger] numbered(
                    t,
                    p,
                )[i].len() > 0 && is_trimmed(numbered(t, p)[i]) by {
                    if i > 0 {
                        assert(numbered(t, p)[i] == rest[i - 1]);
                    }
                }
            }
        } else {
            lemma_numbered_well_formed(t, e + 1);
        }
    }
}

/// Whether a sense-number group `(digits)` starts at `m`.
pub open spec fn is_number_marker(t: Seq<char>, m: int) -> bool {
    &&& 0 <= m < t.len()
    &&& t[m] == '('
    &&& next_char(t, m + 1, ')') < t.len()
    &&& is_number_group(t, m + 1, next_char(t, m + 1, ')'))
}

/// The sense that the sense-number group at `m` introduces.
pub open spec fn sense_at(t: Seq<char>, m: int) -> Seq<char> {
    let s = sense_start(t, next_char(t, m + 1, ')') + 1);
    clean_sense(t, s, sense_end(t, s, 0))
}

/// The positions of the sense-number groups from `p` on whose senses are kept.
pub open spec fn sense_markers(t: Seq<char>, p: int) -> Seq<int>
    decreases t.len() - p,
{
    if p < 0 || p >= t.len() {
        Seq::empty()
    } else if is_sep(t[p]) || t[p] != '(' {
        sense_markers(t, p + 1)
    } else {
        let e = next_char(t, p + 1, ')');
        if e >= t.len() || e <= p {
            sense_markers(t, p + 1)
        } else if is_number_group(t, p + 1, e) {
            let s = sense_start(t, e + 1);
            let d = sense_end(t, s, 0);
            let rest = if p < d <= t.len() {
                sense_markers(t, d)
            } else {
                Seq::empty()
            };
            if clean_sense(t, s, d).len() > 0 {
                seq![p] + rest
            } else {
                rest
            }
        } else {
            sense_markers(t, e + 1)
        }
    }
}

/// The numbered senses follow the sense numbers of the text in order: the
/// `i`-th sense is the one that the `i`-th kept sense-number group introduces,
/// and those groups stand at strictly increasing positions.
pub proof fn lemma_numbered_in_order(t: Seq<char>, p: int)
    ensures
        sense_markers(t, p).len() == numbered(t, p).len(),
        forall|i: int|
            0 <= i < numbered(t, p).len() ==> p <= #[trigger] sense_markers(t, p)[i]
                && is_number_marker(t, sense_markers(t, p)[i]) && numbered(t, p)[i] == sense_at(
                t,
                sense_markers(t, p)[i],
            ),
        forall|i: int, j: int|
            0 <= i < j < numbered(t, p).len() ==> #[trigger] sense_markers(t, p)[i]
                < #[trigger] sense_markers(t, p)[j],
    decreases t.len() - p,
{
    if p < 0 || p >= t.len() {
    } else if is_sep(t[p]) || t[p] != '(' {
        lemma_numbered_in_order(t, p + 1);
    } else {
        let e = next_char(t, p + 1, ')');
        if e >= t.len() || e <= p {
            lemma_numbered_in_order(t, p + 1);
        } else if is_number_group(t, p + 1, e) {
            let s = sense_start(t, e + 1);
            let d = sense_end(t, s, 0);
            if p < d <= t.len() {
                lemma_numbered_in_order(t, d);
            }
            let ms = sense_markers(t, p);
            let ns = numbered(t, p);
            let rm = if p < d <= t.len() {
                sense_markers(t, d)
            } else {
                Seq::empty()
            };
            let rn = if p < d <= t.len() {
                numbered(t, d)
            } else {
                Seq::empty()
            };
            if clean_sense(t, s, d).len() > 0 {
                assert(ms == seq![p] + rm);
                assert(ns == seq![clean_sense(t, s, d)] + rn);
                assert forall|i: int| 0 <= i < ns.len() implies p <= #[trigger] ms[i]
                    && is_number_marker(t, ms[i]) && ns[i] == sense_at(t, ms[i]) by {
                    if i > 0 {
                        assert(ms[i] == rm[i - 1]);
                        assert(ns[i] == rn[i - 1]);
                    }
                }
                assert forall|i: int, j: int| 0 <= i < j < ns.len() implies #[trigger] ms[i]
                    < #[trigger] ms[j] by {
                    assert(ms[j] == rm[j - 1]);
                    if i > 0 {
                        assert(ms[i] == rm[i - 1]);
                    }
                }
            } else {
                assert forall|i: int| 0 <= i < ns.len() implies p <= #[trigger] ms[i]
                    && is_number_marker(t, ms[i]) && ns[i] == sense_at(t, ms[i]) by {
                    assert(ms[i] == rm[i]);
                }
            }
        } else {
            lemma_numbered_in_order(t, e + 1);
            lemma_next_char(t, p + 1, ')');
        }
    }
}

/// Whether a closed group that is no sense number opens at `r`.
pub open spec fn opens_annotation(t: Seq<char>, r: int) -> bool {
    &&& t[r] == '('
    &&& next_char(t, r + 1, ')') < t.len()
    &&& !is_number_group(t, r + 1, next_char(t, r + 1, ')'))
}

/// Where the text of the sense that the number group at `m` introduces starts.
pub open spec fn sense_text_start(t: Seq<char>, m: int) -> int {
    sense_start(t, next_char(t, m + 1, ')') + 1)
}

proof fn lemma_sense_start_stops(t: Seq<char>, s: int)
    requires
        0 <= s <= t.len(),
    ensures
        sense_start(t, s) < t.len() ==> !is_space(t[sense_start(t, s)]) && !opens_annotation(
            t,
            sense_start(t, s),
        ),
    decreases t.len() - s,
{
    if s < t.len() {
        lemma_next_char(t, s + 1, ')');
        if is_space(t[s]) {
            lemma_sense_start_stops(t, s + 1);
        } else if t[s] == '(' && s < next_char(t, s + 1, ')') < t.len() && !is_number_group(
            t,
            s + 1,
            next_char(t, s + 1, ')'),
        ) {
            lemma_sense_start_stops(t, next_char(t, s + 1, ')') + 1);
        }
    }
}

proof fn lemma_sense_at_in_place(t: Seq<char>, m: int)
    requires
        is_number_marker(t, m),
        sense_at(t, m).len() > 0,
    ensures
        sense_text_start(t, m) < t.len(),
        sense_at(t, m) == t.subrange(
            sense_text_start(t, m),
            sense_text_start(t, m) + sense_at(t, m).len(),
        ),
        !opens_annotation(t, sense_text_start(t, m)),
{
    let e = next_char(t, m + 1, ')');
    lemma_next_char(t, m + 1, ')');
    let r = sense_start(t, e + 1);
    lemma_sense_start(t, e + 1);
    lemma_sense_start_stops(t, e + 1);
    let d = sense_end(t, r, 0);
    lemma_sense_end(t, r, 0);
    lemma_skip_space(t, r, d);
    let a = skip_space(t, r, d);
    lemma_back_space(t, a, d);
    let b = back_space(t, a, d);
    lemma_back_slashes(t, a, b);
    let c = back_slashes(t, a, b);
    lemma_skip_space(t, a, c);
    lemma_back_space(t, skip_space(t, a, c), c);
    if r < d {
        assert(a == r);
        assert(skip_space(t, a, c) == r || c == r);
    }
}

/// No numbered sense begins with white space or with a group that is no
/// sense number (a cross-reference, say): each sense is the text of `t`,
/// slashes and all, in place from where such groups end.
pub proof fn lemma_senses_in_place(t: Seq<char>, p: int)
    ensures
        forall|i: int|
            0 <= i < numbered(t, p).len() ==> {
                let r = sense_text_start(t, #[trigger] sense_markers(t, p)[i]);
                &&& r < t.len()
                &&& !opens_annotation(t, r)
                &&& numbered(t, p)[i] == t.subrange(r, r + numbered(t, p)[i].len())
            },
{
    lemma_numbered_in_order(t, p);
    lemma_numbered_well_formed(t, p);
    assert forall|i: int| 0 <= i < numbered(t, p).len() implies {
        let r = sense_text_start(t, #[trigger] sense_markers(t, p)[i]);
        &&& r < t.len()
        &&& !opens_annotation(t, r)
        &&& numbered(t, p)[i] == t.subrange(r, r + numbered(t, p)[i].len())
    } by {
        assert(numbered(t, p)[i].len() > 0);
        lemma_sense_at_in_place(t, sense_markers(t, p)[i]);
    }
}

/// The senses of a parsed line are in source order, each one non-empty and
/// trimmed, and there is at least one.
pub proof fn lemma_flat_senses_well_formed(line: Seq<char>)
    ensures
        flat_entry(line) matches FlatView::Parsed(e) ==> e.definitions.len() > 0
            && senses_well_formed(e.definitions),
{
    if let Some(k) = find(line, separator()) {
        lemma_find_from(line, separator(), 0);
        let rest = line.subrange(k + 2, line.len() as int);
        let a = next_char(rest, 0, '(');
        let b = next_char(rest, a + 1, ')');
        if a < rest.len() && b < rest.len() {
            lemma_next_char(rest, 0, '(');
            lemma_next_char(rest, a + 1, ')');
            let t = rest.subrange(b + 1, rest.len() as int);
            lemma_numbered_well_formed(t, 0);
            let q = skip_seps(t, 0);
            lemma_skip_seps(t, 0);
            lemma_double_slash(t, q);
            lemma_clean_sense(t, q, double_slash(t, q));
        }
    }
}

proof fn lemma_sense_start(t: Seq<char>, s: int)
    requires
        0 <= s <= t.len(),
    ensures
        s <= sense_start(t, s) <= t.len(),
    decreases t.len() - s,
{
    if s < t.len() {
        lemma_next_char(t, s + 1, ')');
        if is_space(t[s]) {
            lemma_sense_start(t, s + 1);
        } else if t[s] == '(' && s < next_char(t, s + 1, ')') < t.len() && !is_number_group(
            t,
            s + 1,
            next_char(t, s + 1, ')'),
        ) {
            lemma_sense_start(t, next_char(t, s + 1, ')') + 1);
        }
    }
}

/// A cleaned sense is trimmed.
proof fn lemma_clean_sense(t: Seq<char>, s: int, d: int)
    requires
        0 <= s <= d <= t.len(),
    ensures
        is_trimmed(clean_sense(t, s, d)),
{
    let a = skip_space(t, s, d);
    lemma_skip_space(t, s, d);
    let b = back_space(t, a, d);
    lemma_back_space(t, a, d);
    lemma_back_slashes(t, a, b);
    lemma_trim_range(t, a, back_slashes(t, a, b));
}

proof fn lemma_skip_seps(t: Seq<char>, i: int)
    requires
        0 <= i <= t.len(),
    ensures
        i <= skip_seps(t, i) <= t.len(),
    decreases t.len() - i,
{
    if i < t.len() && is_sep(t[i]) {
        lemma_skip_seps(t, i + 1);
    }
}

proof fn lemma_double_slash(t: Seq<char>, i: int)
    requires
        0 <= i <= t.len(),
    ensures
        i <= double_slash(t, i) <= t.len(),
    decreases t.len() - i,
{
    if i + 1 < t.len() && !(t[i] == '/' && t[i + 1] == '/') {
        lemma_double_slash(t, i + 1);
    }
}

proof fn lemma_back_slashes(t: Seq<char>, lo: int, j: int)
    requires
        0 <= lo <= j <= t.len(),
    ensures
        lo <= back_slashes(t, lo, j) <= j,
    decreases j - lo,
{
    if lo < j && t[j - 1] == '/' {
        lemma_back_slashes(t, lo, j - 1);
    }
}

/// The line `lo..hi`, without one trailing carriage return.
pub open spec fn line_at(t: Seq<char>, lo: int, hi: int) -> Seq<char> {
    if lo < hi && t[hi - 1] == '\r' {
        t.subrange(lo, hi - 1)
    } else {
        t.subrange(lo, hi)
    }
}

/// The lines of `t` from `lo` on that hold more than white space.
pub open spec fn text_lines_from(t: Seq<char>, lo: int) -> Seq<Seq<char>>
    decreases t.len() + 1 - lo,
{
    if lo < 0 || lo > t.len() {
        Seq::empty()
    } else {
        let e = next_char(t, lo, '\n');
        let here = if trim(line_at(t, lo, e)).len() > 0 {
            seq![line_at(t, lo, e)]
        } else {
            Seq::<Seq<char>>::empty()
        };
        if lo <= e < t.len() {
            here + text_lines_from(t, e + 1)
        } else {
            here
        }
    }
}

/// The candidate lines of a page's text: the text trimmed, split into lines,
/// without the blank ones.
pub open spec fn text_lines(text: Seq<char>) -> Seq<Seq<char>> {
    text_lines_from(trim(text), 0)
}

proof fn lemma_trim_whole(t: Seq<char>, lo: int, hi: int)
    requires
        0 <= lo <= hi <= t.len(),
    ensures
        trim(t.subrange(lo, hi)) == trim_range(t, lo, hi),
{
    let s = t.subrange(lo, hi);
    lemma_skip_shift(t, lo, hi, 0);
    let a = skip_space(t, lo, hi);
    lemma_skip_space(t, lo, hi);
    lemma_back_shift(t, lo, hi, a, hi);
    lemma_back_space(t, a, hi);
    assert(s.subrange(a - lo, back_space(t, a, hi) - lo) =~= t.subrange(a, back_space(t, a, hi)));
}

proof fn lemma_skip_shift(t: Seq<char>, lo: int, hi: int, i: int)
    requires
        0 <= lo <= hi <= t.len(),
        0 <= i <= hi - lo,
    ensures
        skip_space(t.subrange(lo, hi), i, hi - lo) + lo == skip_space(t, lo + i, hi),
    decreases hi - lo - i,
{
    if i < hi - lo {
        lemma_skip_shift(t, lo, hi, i + 1);
    }
}

proof fn lemma_back_shift(t: Seq<char>, lo: int, hi: int, a: int, j: int)
    requires
        0 <= lo <= a <= j <= hi <= t.len(),
    ensures
        back_space(t.subrange(lo, hi), a - lo, j - lo) + lo == back_space(t, a, j),
    decreases j - a,
{
    if a < j {
        lemma_back_shift(t, lo, hi, a, j - 1);
    }
}

/// Splits a page's text into lines and splits each non-blank line.
pub fn parse_flat_text(text: &str) -> (r: Vec<FlatEntry>)
    ensures
        r@.map_values(|e: FlatEntry| e@) == text_lines(text@).map_values(|l: Seq<char>| flat_entry(l)),
{
    let raw = chars_of(text);
    let (a, b) = trim_bounds(&raw, 0, raw.len());
    let t = sub_chars(&raw, a, b);
    let ghost lines = text_lines(text@);
    assert(t@ =~= trim(text@));
    let mut out: Vec<FlatEntry> = Vec::new();
    let mut lo: usize = 0;
    assert(out@.map_values(|e: FlatEntry| e@) =~= Seq::<FlatView>::empty());
    loop
        invariant
            lo <= t.len(),
            t@ == trim(text@),
            text_lines(text@).map_values(|l: Seq<char>| flat_entry(l)) == out@.map_values(
                |e: FlatEntry| e@,
            ) + text_lines_from(t@, lo as int).map_values(|l: Seq<char>| flat_entry(l)),
        decreases t.len() - lo,
    {
        let e = next_char_exec(&t, lo, '\n');
        let hi = if lo < e && t[e - 1] == '\r' {
            e - 1
        } else {
            e
        };
        let ghost line = line_at(t@, lo as int, e as int);
        assert(line =~= t@.subrange(lo as int, hi as int));
        let (x, y) = trim_bounds(&t, lo, hi);
        proof {
            lemma_trim_whole(t@, lo as int, hi as int);
        }
        let ghost before = out@.map_values(|e: FlatEntry| e@);
        if x < y {
            let s = sub_string(&t, lo, hi);
            out.push(parse_flat_entry(s.as_str()));
            assert(out@.map_values(|e: FlatEntry| e@) =~= before.push(flat_entry(line)));
        }
        let ghost here = if trim(line).len() > 0 {
            seq![line]
        } else {
            Seq::<Seq<char>>::empty()
        };
        if e >= t.len() {
            assert(text_lines_from(t@, lo as int) == here);
            assert(text_lines(text@).map_values(|l: Seq<char>| flat_entry(l)) =~= out@.map_values(
                |e: FlatEntry| e@,
            ));
            return out;
        }
        assert(text_lines_from(t@, lo as int) == here + text_lines_from(t@, e + 1));
        assert((here + text_lines_from(t@, e + 1)).map_values(|l: Seq<char>| flat_entry(l))
            =~= here.map_values(|l: Seq<char>| flat_entry(l)) + text_lines_from(t@, e + 1).map_values(
            |l: Seq<char>| flat_entry(l),
        ));
        assert(before + here.map_values(|l: Seq<char>| flat_entry(l)) =~= out@.map_values(
            |e: FlatEntry| e@,
        ));
        lo = e + 1;
    }
}

} // verus!

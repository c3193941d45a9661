//! The entry that both parsers produce.
use vstd::prelude::*;

verus! {

/// One dictionary entry: a headword with its reading, a part of speech,
/// its senses in display order and its synonyms.
#[derive(Debug, Clone)]
pub struct DictionaryEntry {
    pub word_reading: String,
    pub part_of_speech: String,
    pub definitions: Vec<String>,
    pub synonyms: Vec<String>,
}

/// The content of an entry as character sequences.
pub struct EntryView {
    pub word_reading: Seq<char>,
    pub part_of_speech: Seq<char>,
    pub definitions: Seq<Seq<char>>,
    pub synonyms: Seq<Seq<char>>,
}

impl View for DictionaryEntry {
    type V = EntryView;

    open spec fn view(&self) -> EntryView {
        EntryView {
            word_reading: self.word_reading@,
            part_of_speech: self.part_of_speech@,
            definitions: self.definitions.deep_view(),
            synonyms: self.synonyms.deep_view(),
        }
    }
}

impl DictionaryEntry {
    /// An entry with the given fields and no synonyms.
    pub fn new(word_reading: String, part_of_speech: String, definitions: Vec<String>) -> (r: Self)
        ensures
            r@ == (EntryView {
                word_reading: word_reading@,
                part_of_speech: part_of_speech@,
                definitions: definitions.deep_view(),
                synonyms: Seq::empty(),
            }),
    {
        let r = Self { word_reading, part_of_speech, definitions, synonyms: Vec::new() };
        assert(r.synonyms.deep_view() =~= Seq::<Seq<char>>::empty());
        r
    }

    /// The same entry with its synonyms replaced by `synonyms`.
    pub fn with_synonyms(self, synonyms: Vec<String>) -> (r: Self)
        ensures
            r@ == (EntryView { synonyms: synonyms.deep_view(), ..self@ }),
    {
        let mut s = self;
        s.synonyms = synonyms;
        s
    }
}

} // verus!

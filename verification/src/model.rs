//! The values the dictionary hands back: entries' forms, readings, senses and links, the
//! showcase, autocomplete, segmentation and translation results, and the small bodies of the
//! meta endpoints.
use vstd::prelude::*;

verus! {

/// /interesting: a fresh-random showcase of noteworthy entries for the homepage.
#[derive(Clone, Debug)]
pub struct InterestingResponse {
    pub items: Vec<InterestingItem>,
}

#[derive(Clone, Debug)]
pub struct InterestingItem {
    pub lexeme_id: i64,
    /// zh | yue | ja
    pub variety: String,
    pub headword: String,
    pub reading: Option<String>,
    pub gloss: Option<String>,
    /// short human label for what makes this entry interesting
    pub why: String,
    /// kokuji | false-friend | wasei | cantoji | merge | english-false-friend
    pub category: String,
}

/// /suggest: lightweight autocomplete candidates (no senses).
#[derive(Clone, Debug)]
pub struct SuggestResponse {
    pub query: String,
    pub suggestions: Vec<SuggestItem>,
}

#[derive(Clone, Debug)]
pub struct SuggestItem {
    pub headword: String,
    pub reading: Option<String>,
    pub variety: String,
}

/// A copy of an optional string.
pub fn copy_opt(o: &Option<String>) -> (r: Option<String>)
    ensures
        r == *o,
{
    match o {
        Some(s) => Some(s.clone()),
        None => None,
    }
}

impl SuggestItem {
    /// A field-for-field copy.
    pub fn copy(&self) -> (r: SuggestItem)
        ensures
            r == *self,
    {
        SuggestItem {
            headword: self.headword.clone(),
            reading: copy_opt(&self.reading),
            variety: self.variety.clone(),
        }
    }
}

/// One written form of a lexeme.
#[derive(Clone, Debug)]
pub struct Form {
    pub form: String,
    pub script: String,
    pub region: Option<String>,
    pub is_primary: bool,
}

/// One language's account of where a glyph or word comes from.
#[derive(Clone, Debug)]
pub struct OriginAccount {
    pub variety: String,
    pub headword: String,
    pub text: String,
    /// an English rendering of a non-English etymology, when one is stored
    pub text_en: Option<String>,
    /// "traditional" | "simplified" when the glyph diverges across reforms
    pub script: Option<String>,
    /// a note when the glyph also stands for distinct merged characters
    pub note: Option<String>,
}

/// A character that contains a component.
#[derive(Clone, Debug)]
pub struct CharLite {
    pub ch: String,
    pub gloss: Option<String>,
    /// an extension-plane glyph (codepoint at least U+20000)
    pub rare: bool,
}

/// A reading of a lexeme or a character.
#[derive(Clone, Debug)]
pub struct ReadingKV {
    pub kind: String,
    pub value: String,
    /// Japanese pitch accent (downstep mora index, or a comma list) on a kana reading
    pub accent: Option<String>,
}

#[derive(Clone, Debug)]
pub struct Sense {
    pub pos: Option<String>,
    pub gloss_en: String,
}

/// A component of a character, with its meaning and role.
#[derive(Clone, Debug)]
pub struct Component {
    pub ch: String,
    pub gloss: Option<String>,
    /// semantic | phonetic | form | iconic
    pub role: Option<String>,
    /// for a phonetic component, the reading it lends
    pub sound: Option<String>,
    /// for a phonetic component, its Middle Chinese readings
    pub mc_sound: Vec<String>,
}

/// A character built from `count` copies of one `base` glyph.
#[derive(Clone, Debug)]
pub struct CharDecomp {
    pub base: String,
    pub count: i64,
}

/// An identity edge to an orthodox parent, with the reform that produced it.
#[derive(Clone, Debug)]
pub struct VariantEdge {
    pub parent: String,
    pub edge_type: String,
    pub reform: Option<String>,
    pub reform_name: Option<String>,
    pub reform_year: Option<i64>,
}

/// The script forms of one character family, anchored on the orthodox glyph.
#[derive(Clone, Debug)]
pub struct ScriptForms {
    pub orthodox: String,
    pub is_kokuji: bool,
    pub branches: Vec<FormBranch>,
}

#[derive(Clone, Debug)]
pub struct FormBranch {
    pub form: String,
    /// traditional | simplified | shinjitai | z-variant, joined with '+' when several
    pub script: String,
    pub reform_id: Option<String>,
    /// plain-language reform names, joined with " · "
    pub reform_label: Option<String>,
    pub is_orthodox: bool,
}

/// A lexeme linked from another one.
#[derive(Clone, Debug)]
pub struct LinkLite {
    pub lexeme_id: i64,
    pub variety: String,
    pub headword: String,
    pub reading: Option<String>,
    pub accent: Option<String>,
    pub jyut: Option<String>,
    pub glosses: Vec<String>,
    /// cognate | false-friend | synonym | equivalent | everyday-word | compound | compound-alt
    pub relation: String,
    /// the shared concept label, for synonym links
    pub concept: Option<String>,
}

/// /translate: an English term, its concepts and their members in every language.
#[derive(Clone, Debug)]
pub struct TranslateResponse {
    pub query: String,
    pub concepts: Vec<ConceptGroup>,
}

#[derive(Clone, Debug)]
pub struct ConceptGroup {
    pub concept: String,
    pub members: Vec<LinkLite>,
}

/// /segment: a Han string split into the longest known sub-words.
#[derive(Clone, Debug)]
pub struct SegmentResponse {
    pub query: String,
    pub segments: Vec<SegmentPart>,
}

#[derive(Clone, Debug)]
pub struct SegmentPart {
    /// the matched sub-word (one or more characters)
    pub form: String,
    /// its short gloss; empty when nothing is known
    pub gloss: String,
    /// the lexeme the gloss came from, when the segment is a known word
    pub lexeme_id: Option<i64>,
}

/// The error body every JSON endpoint uses.
#[derive(Clone, Debug)]
pub struct ApiError {
    pub error: String,
}

/// The liveness probe's body.
#[derive(Clone, Debug)]
pub struct HealthResponse {
    pub status: String,
    pub service: String,
    pub version: String,
}

/// The handwriting recognizer's answer: the merged candidates and the languages asked.
#[derive(Clone, Debug)]
pub struct RecognizeResponse {
    pub candidates: Vec<String>,
    pub languages: Vec<String>,
}

/// The id of a random common lexeme.
#[derive(Clone, Debug)]
pub struct RandomResponse {
    pub lexeme_id: i64,
}

} // verus!

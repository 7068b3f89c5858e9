//! How two lexemes that share a written form relate: a cognate (the same word, or the same
//! meaning) or a false friend (the same spelling with a different meaning). Gloss disjointness is
//! the deciding signal; proper nouns, same-language variant spellings and a shared strong concept
//! always make a cognate.
use vstd::prelude::*;
use crate::chars::{chars_of, is_ascii_upper, ch_is_ascii_upper};
use crate::script::str_eq;
use crate::words::{content_words, glosses_overlap, spec_content_words, spec_glosses_overlap};

verus! {

#[derive(Clone, Copy, PartialEq, Eq, Debug, Structural)]
pub enum Relation {
    Cognate,
    FalseFriend,
}

impl Relation {
    pub open spec fn name(self) -> Seq<char> {
        match self {
            Relation::Cognate => "cognate"@,
            Relation::FalseFriend => "false-friend"@,
        }
    }

    pub fn as_str(self) -> (r: &'static str)
        ensures
            r@ == self.name(),
    {
        match self {
            Relation::Cognate => "cognate",
            Relation::FalseFriend => "false-friend",
        }
    }
}

/// A proper noun (place, surname, given name): its romanised reading starts with an uppercase
/// ASCII letter (CC-CEDICT capitalises proper-noun pinyin).
pub open spec fn spec_is_proper_noun(reading: Option<Seq<char>>) -> bool {
    match reading {
        Some(r) => r.len() > 0 && is_ascii_upper(r[0]),
        None => false,
    }
}

pub fn is_proper_noun(reading: Option<&str>) -> (r: bool)
    ensures
        r == spec_is_proper_noun(
            match reading {
                Some(s) => Some(s@),
                None => None,
            },
        ),
{
    match reading {
        None => false,
        Some(s) => {
            let cs = chars_of(s);
            cs.len() > 0 && ch_is_ascii_upper(cs[0])
        },
    }
}

/// `child` derives from `parent` by an identity edge, and `parent` is its only identity parent:
/// a plain spelling difference, not a simplification that merged distinct characters.
pub open spec fn clean_link(edges: Seq<(u32, u32)>, child: u32, parent: u32) -> bool {
    &&& exists|k: int| 0 <= k < edges.len() && edges[k] == (child, parent)
    &&& forall|k: int| 0 <= k < edges.len() && (#[trigger] edges[k]).0 == child ==> edges[k].1 == parent
}

/// Two characters are a clean one-to-one variant spelling of the same character.
pub open spec fn spec_clean_variant(edges: Seq<(u32, u32)>, x: char, y: char) -> bool {
    x == y || clean_link(edges, x as u32, y as u32) || clean_link(edges, y as u32, x as u32)
}

fn clean_link_exec(edges: &Vec<(u32, u32)>, child: u32, parent: u32) -> (r: bool)
    ensures
        r == clean_link(edges@, child, parent),
{
    let mut linked = false;
    for k in 0..edges.len()
        invariant
            linked <==> exists|j: int| 0 <= j < k && edges@[j] == (child, parent),
            forall|j: int| 0 <= j < k && (#[trigger] edges@[j]).0 == child ==> edges@[j].1 == parent,
    {
        let (c, p) = edges[k];
        if c == child {
            if p != parent {
                return false;
            }
            linked = true;
        }
    }
    linked
}

/// Are `x` and `y` the same character in two spellings? The identity edges are `(child, parent)`
/// rows covering every character involved.
pub fn clean_variant_chars(edges: &Vec<(u32, u32)>, x: char, y: char) -> (r: bool)
    ensures
        r == spec_clean_variant(edges@, x, y),
{
    if x == y {
        return true;
    }
    clean_link_exec(edges, x as u32, y as u32) || clean_link_exec(edges, y as u32, x as u32)
}

/// Two lexemes are the same word spelled differently: their primary forms differ, have the same
/// non-zero length, and every character pair is a clean variant.
pub open spec fn spec_variant_spelling(edges: Seq<(u32, u32)>, fa: Seq<char>, fb: Seq<char>) -> bool {
    &&& fa != fb
    &&& fa.len() > 0
    &&& fa.len() == fb.len()
    &&& forall|i: int| 0 <= i < fa.len() ==> spec_clean_variant(edges, #[trigger] fa[i], fb[i])
}

pub fn variant_spelling(edges: &Vec<(u32, u32)>, fa: &str, fb: &str) -> (r: bool)
    ensures
        r == spec_variant_spelling(edges@, fa@, fb@),
{
    if str_eq(fa, fb) {
        return false;
    }
    let ca = chars_of(fa);
    let cb = chars_of(fb);
    if ca.len() == 0 || ca.len() != cb.len() {
        return false;
    }
    for i in 0..ca.len()
        invariant
            ca@ == fa@,
            cb@ == fb@,
            ca@.len() == cb@.len(),
            forall|j: int| 0 <= j < i ==> spec_clean_variant(edges@, #[trigger] fa@[j], fb@[j]),
    {
        if !clean_variant_chars(edges, ca[i], cb[i]) {
            return false;
        }
    }
    true
}

/// What is known of one side of a same-form pair.
pub struct RelationSide {
    /// the lexeme's reading (romanised for Chinese)
    pub reading: Option<String>,
    pub variety: String,
    /// the primary surface form (else the headword)
    pub primary_form: String,
    /// the gloss of the primary sense, if any
    pub first_gloss: Option<String>,
}

pub open spec fn opt_seq(o: Option<String>) -> Option<Seq<char>> {
    match o {
        Some(s) => Some(s@),
        None => None,
    }
}

/// The meaning words of a side's primary sense (none without a gloss).
pub open spec fn side_words(s: RelationSide) -> Seq<Seq<char>> {
    match s.first_gloss {
        Some(g) => spec_content_words(g@),
        None => Seq::empty(),
    }
}

/// The primary senses of both sides carry meaning words and share none of them.
pub open spec fn spec_glosses_diverge(a: RelationSide, b: RelationSide) -> bool {
    let wa = side_words(a);
    let wb = side_words(b);
    wa.len() > 0 && wb.len() > 0 && !spec_glosses_overlap(wa, wb)
}

/// The relation of two same-form lexemes. A proper noun on either side is a plain sibling
/// (cognate); within one language a clean variant spelling is the same word; otherwise primary
/// senses that share no meaning word make a false friend, unless the two share a strong concept.
pub open spec fn spec_classify_relation(a: RelationSide, b: RelationSide, edges: Seq<(u32, u32)>, shares_concept: bool) -> Relation {
    if spec_is_proper_noun(opt_seq(a.reading)) || spec_is_proper_noun(opt_seq(b.reading)) {
        Relation::Cognate
    } else if a.variety@ == b.variety@ && spec_variant_spelling(edges, a.primary_form@, b.primary_form@) {
        Relation::Cognate
    } else if spec_glosses_diverge(a, b) && !shares_concept {
        Relation::FalseFriend
    } else {
        Relation::Cognate
    }
}

fn side_words_exec(s: &RelationSide) -> (r: Vec<String>)
    ensures
        r@.map_values(|w: String| w@) == side_words(*s),
{
    match &s.first_gloss {
        Some(g) => content_words(g.as_str()),
        None => {
            let r: Vec<String> = Vec::new();
            assert(r@.map_values(|w: String| w@) =~= Seq::<Seq<char>>::empty());
            r
        },
    }
}

/// Do the primary senses share no meaning word (both being glossed)? Only then does the strong
/// shared-concept check matter.
pub fn glosses_diverge(a: &RelationSide, b: &RelationSide) -> (r: bool)
    ensures
        r == spec_glosses_diverge(*a, *b),
{
    let wa = side_words_exec(a);
    let wb = side_words_exec(b);
    wa.len() > 0 && wb.len() > 0 && !glosses_overlap(&wa, &wb)
}

/// Classify the relation of two same-form lexemes; `shares_concept` tells whether some senses of
/// the two are tied to one concept by an exact-gloss link (it only matters when the primary
/// glosses diverge). `edges` are the identity edges `(child, parent)` of the characters of both
/// primary forms.
pub fn classify_relation(a: &RelationSide, b: &RelationSide, edges: &Vec<(u32, u32)>, shares_concept: bool) -> (r: Relation)
    ensures
        r == spec_classify_relation(*a, *b, edges@, shares_concept),
{
    let pa = match &a.reading {
        Some(s) => is_proper_noun(Some(s.as_str())),
        None => false,
    };
    let pb = match &b.reading {
        Some(s) => is_proper_noun(Some(s.as_str())),
        None => false,
    };
    if pa || pb {
        return Relation::Cognate;
    }
    if str_eq(a.variety.as_str(), b.variety.as_str()) && variant_spelling(edges, a.primary_form.as_str(), b.primary_form.as_str()) {
        return Relation::Cognate;
    }
    if glosses_diverge(a, b) && !shares_concept {
        Relation::FalseFriend
    } else {
        Relation::Cognate
    }
}

/// Across languages a shared spelling decides nothing: two words of different varieties, neither
/// a proper noun, whose primary senses both carry meaning words and share none, and which share
/// no strong concept, are false friends even when their forms are a clean variant spelling of
/// each other (会社 "company" vs 會社 "guild"). Within one language a clean variant spelling makes
/// them the same word.
pub proof fn law_variant_spelling_only_within_a_language(a: RelationSide, b: RelationSide, edges: Seq<(u32, u32)>, shares_concept: bool)
    ensures
        a.variety@ != b.variety@ && !spec_is_proper_noun(opt_seq(a.reading)) && !spec_is_proper_noun(opt_seq(b.reading))
            && side_words(a).len() > 0 && side_words(b).len() > 0 && !spec_glosses_overlap(side_words(a), side_words(b))
            && !shares_concept ==> spec_classify_relation(a, b, edges, shares_concept) == Relation::FalseFriend,
        a.variety@ == b.variety@ && spec_variant_spelling(edges, a.primary_form@, b.primary_form@)
            ==> spec_classify_relation(a, b, edges, shares_concept) == Relation::Cognate,
{
}

/// A false friend is never declared for a proper noun, and two glosses that share a meaning word
/// are never false friends: the classifier only flags a divergence it can see in the primary
/// senses.
pub proof fn law_false_friend_needs_divergence(a: RelationSide, b: RelationSide, edges: Seq<(u32, u32)>, shares_concept: bool)
    requires
        spec_classify_relation(a, b, edges, shares_concept) == Relation::FalseFriend,
    ensures
        !spec_is_proper_noun(opt_seq(a.reading)),
        !spec_is_proper_noun(opt_seq(b.reading)),
        side_words(a).len() > 0,
        side_words(b).len() > 0,
        !spec_glosses_overlap(side_words(a), side_words(b)),
        !shares_concept,
{
}


/// The fuzzy root match only ever adds agreement: two primary senses sharing a meaning word
/// overlap, so they are never a false friend.
pub proof fn law_shared_word_is_overlap(a: Seq<Seq<char>>, b: Seq<Seq<char>>, i: int, j: int)
    requires
        0 <= i < a.len(),
        0 <= j < b.len(),
        a[i] == b[j],
    ensures
        spec_glosses_overlap(a, b),
{
    assert(crate::words::words_agree(a[i], b[j]));
}

} // verus!

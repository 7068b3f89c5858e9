//! Meaning words of a gloss: which glosses carry real meaning, the short gloss of a breakdown,
//! cross-reference segments, content words and their overlap (the cognate / false-friend signal),
//! and Kangxi-radical glosses.
use vstd::prelude::*;
use crate::chars::{
    ascii_lower, ch_ascii_lower, ch_is_ascii_alpha, ch_is_ascii_digit, chars_of, contains_exec,
    contains_seq, ends_with, ends_with_exec, is_ascii_alpha, is_ascii_digit, lower_str, occurs_at,
    occurs_at_exec, seq_eq, slice_vec, starts_with, starts_with_exec, str_lowercase, string_of,
    trim, trim_vec,
};
use crate::gloss::{
    byte_len, byte_len_exec, clean_segment_vec, spec_clean_segment, split, split_from, split_vec,
};

verus! {

// ---------------------------------------------------------------------------------------------
// Meaningful glosses
// ---------------------------------------------------------------------------------------------
pub open spec fn minor_prefix(k: int) -> Seq<char> {
    if k == 0 {
        "used in"@
    } else if k == 1 {
        "variant of"@
    } else if k == 2 {
        "old variant of"@
    } else if k == 3 {
        "see "@
    } else if k == 4 {
        "surname "@
    } else {
        "abbr"@
    }
}

/// A gloss carries real meaning: non-empty after trimming, and (lowercased) not a bare
/// cross-reference ("used in …", "variant of …", "old variant of …", "see …", "surname …",
/// "abbr…").
pub open spec fn is_meaningful(g: Seq<char>) -> bool {
    let s = str_lowercase(trim(g));
    s.len() > 0 && forall|k: int| 0 <= k < 6 ==> !starts_with(s, #[trigger] minor_prefix(k))
}

pub fn is_meaningful_gloss(g: &str) -> (r: bool)
    ensures
        r == is_meaningful(g@),
{
    let cs = chars_of(g);
    let t = trim_vec(&cs);
    let ts = string_of(&t);
    let low = lower_str(ts.as_str());
    let s = chars_of(low.as_str());
    if s.len() == 0 {
        return false;
    }
    proof {
        reveal_strlit("used in");
        reveal_strlit("variant of");
        reveal_strlit("old variant of");
        reveal_strlit("see ");
        reveal_strlit("surname ");
        reveal_strlit("abbr");
    }
    let prefixes: [&str; 6] = ["used in", "variant of", "old variant of", "see ", "surname ", "abbr"];
    let mut k: usize = 0;
    while k < 6
        invariant
            k <= 6,
            forall|j: int| 0 <= j < 6 ==> #[trigger] prefixes@[j]@ == minor_prefix(j),
            forall|j: int| 0 <= j < k ==> !starts_with(s@, #[trigger] minor_prefix(j)),
            s@ == str_lowercase(trim(g@)),
            s@.len() > 0,
        decreases 6 - k,
    {
        let p = chars_of(prefixes[k]);
        if starts_with_exec(&s, &p) {
            assert(starts_with(s@, minor_prefix(k as int)));
            return false;
        }
        k += 1;
    }
    true
}

pub open spec fn count_meaningful(gs: Seq<Seq<char>>) -> nat
    decreases gs.len(),
{
    if gs.len() == 0 {
        0
    } else {
        count_meaningful(gs.drop_last()) + if is_meaningful(gs.last()) {
            1nat
        } else {
            0nat
        }
    }
}

/// How many glosses carry real meaning (bare cross-references ignored): a deterministic ranking
/// tiebreak so the richer reading of a homograph leads.
pub fn meaningful_gloss_count(glosses: &Vec<String>) -> (r: usize)
    ensures
        r == count_meaningful(glosses@.map_values(|g: String| g@)),
{
    let ghost gv = glosses@.map_values(|g: String| g@);
    let mut n: usize = 0;
    for i in 0..glosses.len()
        invariant
            gv == glosses@.map_values(|g: String| g@),
            n == count_meaningful(gv.take(i as int)),
            n <= i,
    {
        proof {
            assert(gv.take(i + 1).drop_last() =~= gv.take(i as int));
        }
        if is_meaningful_gloss(glosses[i].as_str()) {
            n += 1;
        }
    }
    proof {
        assert(gv.take(glosses.len() as int) =~= gv);
    }
    n
}

// ---------------------------------------------------------------------------------------------
// Short gloss
// ---------------------------------------------------------------------------------------------
pub open spec fn is_comma(c: char) -> bool {
    c == ','
}

/// The first comma clause of a cleaned segment, trimmed.
pub open spec fn first_clause(cleaned: Seq<char>) -> Seq<char> {
    trim(split(cleaned, |c: char| is_comma(c))[0])
}

/// The first segment (of `segs`) that cleans to something non-empty, reduced to its first
/// clause; empty when every segment cleans to nothing.
pub open spec fn first_short(segs: Seq<Seq<char>>) -> Seq<char>
    decreases segs.len(),
{
    if segs.len() == 0 {
        Seq::empty()
    } else if spec_clean_segment(segs[0]).len() > 0 {
        first_clause(spec_clean_segment(segs[0]))
    } else {
        first_short(segs.drop_first())
    }
}

pub open spec fn is_short_sep(c: char) -> bool {
    c == ';' || c == '|'
}

/// The first non-empty cleaned sense segment of a gloss (segments split on `;` and `|`), cut at
/// its first comma.
pub open spec fn spec_short_gloss(gloss: Seq<char>) -> Seq<char> {
    first_short(split(gloss, |c: char| is_short_sep(c)))
}

proof fn lemma_split_nonempty(s: Seq<char>, cur: Seq<char>, sep: spec_fn(char) -> bool)
    ensures
        split_from(s, cur, sep).len() > 0,
    decreases s.len(),
{
    if s.len() > 0 {
        if !sep(s[0]) {
            lemma_split_nonempty(s.drop_first(), cur.push(s[0]), sep);
        }
    }
}

fn first_clause_exec(cleaned: &Vec<char>) -> (r: Vec<char>)
    ensures
        r@ == first_clause(cleaned@),
{
    let seps = vec![','];
    let ghost sep = |c: char| is_comma(c);
    assert forall|c: char| sep(c) <==> seps@.contains(c) by {
        if c == ',' {
            assert(seps@[0] == ',');
        }
    }
    let parts = split_vec(cleaned, Ghost(sep), &seps);
    proof {
        lemma_split_nonempty(cleaned@, Seq::empty(), sep);
        assert(parts@.map_values(|t: Vec<char>| t@)[0] == parts@[0]@);
    }
    trim_vec(&parts[0])
}

fn first_short_exec(segs: &Vec<Vec<char>>) -> (r: Vec<char>)
    ensures
        r@ == first_short(segs@.map_values(|t: Vec<char>| t@)),
{
    let ghost sv = segs@.map_values(|t: Vec<char>| t@);
    let mut i: usize = 0;
    assert(sv.skip(0) =~= sv);
    while i < segs.len()
        invariant
            i <= segs.len(),
            sv == segs@.map_values(|t: Vec<char>| t@),
            first_short(sv.skip(i as int)) == first_short(sv),
        decreases segs.len() - i,
    {
        proof {
            assert(sv.skip(i as int).drop_first() =~= sv.skip(i + 1));
            assert(sv.skip(i as int)[0] == segs@[i as int]@);
        }
        let cleaned = clean_segment_vec(&segs[i]);
        if cleaned.len() > 0 {
            return first_clause_exec(&cleaned);
        }
        i += 1;
    }
    assert(sv.skip(i as int).len() == 0);
    Vec::new()
}

pub fn short_gloss_vec(gloss: &Vec<char>) -> (r: Vec<char>)
    ensures
        r@ == spec_short_gloss(gloss@),
{
    let seps = vec![';', '|'];
    let ghost sep = |c: char| is_short_sep(c);
    assert forall|c: char| sep(c) <==> seps@.contains(c) by {
        if c == ';' {
            assert(seps@[0] == ';');
        }
        if c == '|' {
            assert(seps@[1] == '|');
        }
    }
    let segs = split_vec(gloss, Ghost(sep), &seps);
    first_short_exec(&segs)
}

/// First non-empty cleaned sense segment of a gloss (split on `;` `|`, then cut at the first
/// comma); empty when nothing is left.
pub fn short_gloss(gloss: &str) -> (r: String)
    ensures
        r@ == spec_short_gloss(gloss@),
{
    let g = chars_of(gloss);
    let r = short_gloss_vec(&g);
    string_of(&r)
}

/// ASCII-case-insensitive equality (`str::eq_ignore_ascii_case`).
pub open spec fn eq_ignore_ascii_case(a: Seq<char>, b: Seq<char>) -> bool {
    a.len() == b.len() && forall|i: int| 0 <= i < a.len() ==> ascii_lower(a[i]) == ascii_lower(b[i])
}

fn eq_ignore_ascii_case_exec(a: &Vec<char>, b: &Vec<char>) -> (r: bool)
    ensures
        r == eq_ignore_ascii_case(a@, b@),
{
    if a.len() != b.len() {
        return false;
    }
    for i in 0..a.len()
        invariant
            a.len() == b.len(),
            forall|j: int| 0 <= j < i ==> ascii_lower(a@[j]) == ascii_lower(b@[j]),
    {
        if ch_ascii_lower(a[i]) != ch_ascii_lower(b[i]) {
            return false;
        }
    }
    true
}

pub open spec fn is_semicolon(c: char) -> bool {
    c == ';'
}

/// The first `;`-segment whose cleaned first clause is not the English look-alike itself; `None`
/// when every segment is empty or restates it.
pub open spec fn divergent_from(segs: Seq<Seq<char>>, eng: Seq<char>) -> Option<Seq<char>>
    decreases segs.len(),
{
    if segs.len() == 0 {
        None
    } else {
        let cleaned = spec_clean_segment(segs[0]);
        if cleaned.len() == 0 {
            divergent_from(segs.drop_first(), eng)
        } else if eq_ignore_ascii_case(first_clause(cleaned), eng) {
            divergent_from(segs.drop_first(), eng)
        } else {
            Some(first_clause(cleaned))
        }
    }
}

/// The real meaning of an English false friend: the first gloss clause that does not merely
/// restate the English look-alike, else the short gloss.
pub open spec fn spec_divergent_meaning(gloss: Seq<char>, eng: Seq<char>) -> Seq<char> {
    match divergent_from(split(gloss, |c: char| is_semicolon(c)), eng) {
        Some(c) => c,
        None => spec_short_gloss(gloss),
    }
}

pub fn divergent_meaning(gloss: &str, eng: &str) -> (r: String)
    ensures
        r@ == spec_divergent_meaning(gloss@, eng@),
{
    let g = chars_of(gloss);
    let e = chars_of(eng);
    let seps = vec![';'];
    let ghost sep = |c: char| is_semicolon(c);
    assert forall|c: char| sep(c) <==> seps@.contains(c) by {
        if c == ';' {
            assert(seps@[0] == ';');
        }
    }
    let segs = split_vec(&g, Ghost(sep), &seps);
    let ghost sv = segs@.map_values(|t: Vec<char>| t@);
    let mut i: usize = 0;
    assert(sv.skip(0) =~= sv);
    while i < segs.len()
        invariant
            i <= segs.len(),
            sv == segs@.map_values(|t: Vec<char>| t@),
            sv == split(g@, sep),
            sep == (|c: char| is_semicolon(c)),
            e@ == eng@,
            g@ == gloss@,
            divergent_from(sv.skip(i as int), e@) == divergent_from(sv, e@),
        decreases segs.len() - i,
    {
        proof {
            assert(sv.skip(i as int).drop_first() =~= sv.skip(i + 1));
            assert(sv.skip(i as int)[0] == segs@[i as int]@);
        }
        let cleaned = clean_segment_vec(&segs[i]);
        if cleaned.len() > 0 {
            let clause = first_clause_exec(&cleaned);
            if !eq_ignore_ascii_case_exec(&clause, &e) {
                return string_of(&clause);
            }
        }
        i += 1;
    }
    assert(sv.skip(i as int).len() == 0);
    let r = short_gloss_vec(&g);
    string_of(&r)
}

// ---------------------------------------------------------------------------------------------
// Cross-reference segments and content words
// ---------------------------------------------------------------------------------------------
pub open spec fn meta_phrase(k: int) -> Seq<char> {
    if k == 0 {
        "word for"@
    } else if k == 1 {
        "term for"@
    } else if k == 2 {
        "equivalent"@
    } else if k == 3 {
        "variant of"@
    } else if k == 4 {
        "used in"@
    } else if k == 5 {
        "abbr"@
    } else {
        "see also"@
    }
}

/// A gloss segment that points elsewhere ("the Japanese word for company", "variant of X", "see
/// also Y") rather than stating a meaning: its lowercase form contains a pointer phrase.
pub open spec fn spec_is_meta_segment(seg: Seq<char>) -> bool {
    exists|k: int| 0 <= k < 7 && contains_seq(str_lowercase(seg), #[trigger] meta_phrase(k))
}

pub fn is_meta_segment_vec(seg: &Vec<char>) -> (r: bool)
    ensures
        r == spec_is_meta_segment(seg@),
{
    let ss = string_of(seg);
    let low = lower_str(ss.as_str());
    let s = chars_of(low.as_str());
    proof {
        reveal_strlit("word for");
        reveal_strlit("term for");
        reveal_strlit("equivalent");
        reveal_strlit("variant of");
        reveal_strlit("used in");
        reveal_strlit("abbr");
        reveal_strlit("see also");
    }
    let metas: [&str; 7] = ["word for", "term for", "equivalent", "variant of", "used in", "abbr", "see also"];
    let mut k: usize = 0;
    while k < 7
        invariant
            k <= 7,
            s@ == str_lowercase(seg@),
            forall|j: int| 0 <= j < 7 ==> #[trigger] metas@[j]@ == meta_phrase(j),
            forall|j: int| 0 <= j < k ==> !contains_seq(s@, #[trigger] meta_phrase(j)),
        decreases 7 - k,
    {
        let m = chars_of(metas[k]);
        if contains_exec(&s, &m) {
            assert(contains_seq(s@, meta_phrase(k as int)));
            return true;
        }
        k += 1;
    }
    false
}

/// Is this gloss segment a cross-reference, not a meaning?
pub fn is_meta_segment(seg: &str) -> (r: bool)
    ensures
        r == spec_is_meta_segment(seg@),
{
    let v = chars_of(seg);
    is_meta_segment_vec(&v)
}

pub open spec fn deriv_suffix(k: int) -> Seq<char> {
    if k == 0 {
        "ations"@
    } else if k == 1 {
        "ation"@
    } else if k == 2 {
        "ings"@
    } else if k == 3 {
        "ing"@
    } else if k == 4 {
        "ments"@
    } else if k == 5 {
        "ment"@
    } else if k == 6 {
        "ness"@
    } else if k == 7 {
        "ities"@
    } else if k == 8 {
        "ion"@
    } else if k == 9 {
        "ies"@
    } else if k == 10 {
        "ed"@
    } else if k == 11 {
        "es"@
    } else if k == 12 {
        "ly"@
    } else {
        "s"@
    }
}

/// Suffixes `k..14` tried in order: the first that leaves a base of at least 3 bytes is removed.
pub open spec fn stem_from(t: Seq<char>, k: int) -> Seq<char>
    decreases 14 - k,
{
    if k >= 14 || k < 0 {
        t
    } else {
        let suf = deriv_suffix(k);
        if ends_with(t, suf) && byte_len(t.subrange(0, t.len() - suf.len())) >= 3 {
            t.subrange(0, t.len() - suf.len())
        } else {
            stem_from(t, k + 1)
        }
    }
}

/// The light derivational suffix stripper ("completion"/"complete", "cleaning"/"clean").
pub open spec fn spec_stem(t: Seq<char>) -> Seq<char> {
    stem_from(t, 0)
}

pub fn stem(t: &Vec<char>) -> (r: Vec<char>)
    ensures
        r@ == spec_stem(t@),
{
    proof {
        reveal_strlit("ations");
        reveal_strlit("ation");
        reveal_strlit("ings");
        reveal_strlit("ing");
        reveal_strlit("ments");
        reveal_strlit("ment");
        reveal_strlit("ness");
        reveal_strlit("ities");
        reveal_strlit("ion");
        reveal_strlit("ies");
        reveal_strlit("ed");
        reveal_strlit("es");
        reveal_strlit("ly");
        reveal_strlit("s");
    }
    let sufs: [&str; 14] = [
        "ations", "ation", "ings", "ing", "ments", "ment", "ness", "ities", "ion", "ies", "ed",
        "es", "ly", "s",
    ];
    let mut k: usize = 0;
    while k < 14
        invariant
            k <= 14,
            forall|j: int| 0 <= j < 14 ==> #[trigger] sufs@[j]@ == deriv_suffix(j),
            spec_stem(t@) == stem_from(t@, k as int),
        decreases 14 - k,
    {
        let suf = chars_of(sufs[k]);
        if ends_with_exec(t, &suf) {
            let base = slice_vec(t, 0, t.len() - suf.len());
            if byte_len_exec(&base) >= 3 {
                return base;
            }
        }
        k += 1;
    }
    slice_vec(t, 0, t.len())
}

pub open spec fn stopword(k: int) -> Seq<char> {
    if k == 0 { "the"@ } else if k == 1 { "and"@ } else if k == 2 { "for"@ } else if k == 3 {
        "with"@
    } else if k == 4 { "used"@ } else if k == 5 { "esp"@ } else if k == 6 { "etc"@ } else if k
        == 7 { "sth"@ } else if k == 8 { "someone"@ } else if k == 9 { "something"@ } else if k
        == 10 { "one"@ } else if k == 11 { "that"@ } else if k == 12 { "this"@ } else if k == 13 {
        "see"@
    } else if k == 14 { "also"@ } else if k == 15 { "form"@ } else if k == 16 { "kind"@ } else if k
        == 17 { "type"@ } else if k == 18 { "thing"@ } else if k == 19 { "person"@ } else if k
        == 20 { "make"@ } else if k == 21 { "made"@ } else if k == 22 { "way"@ } else if k == 23 {
        "part"@
    } else if k == 24 { "abbr"@ } else if k == 25 { "old"@ } else if k == 26 { "pron"@ } else if k
        == 27 { "var"@ } else if k == 28 { "from"@ } else if k == 29 { "into"@ } else if k == 30 {
        "out"@
    } else if k == 31 { "off"@ } else if k == 32 { "not"@ } else if k == 33 { "any"@ } else if k
        == 34 { "all"@ } else if k == 35 { "such"@ } else if k == 36 { "more"@ } else if k == 37 {
        "less"@
    } else if k == 38 { "very"@ } else if k == 39 { "his"@ } else if k == 40 { "her"@ } else if k
        == 41 { "its"@ } else if k == 42 { "who"@ } else if k == 43 { "whom"@ } else if k == 44 {
        "are"@
    } else if k == 45 { "cantonese"@ } else if k == 46 { "mandarin"@ } else if k == 47 {
        "japanese"@
    } else if k == 48 { "korean"@ } else if k == 49 { "chinese"@ } else { "cant"@ }
}

/// Words too generic to signal shared meaning, and language labels.
pub open spec fn is_stopword(t: Seq<char>) -> bool {
    exists|k: int| 0 <= k < 51 && t == #[trigger] stopword(k)
}

fn is_stopword_exec(t: &Vec<char>) -> (r: bool)
    ensures
        r == is_stopword(t@),
{
    let words: [&str; 51] = [
        "the", "and", "for", "with", "used", "esp", "etc", "sth", "someone", "something", "one",
        "that", "this", "see", "also", "form", "kind", "type", "thing", "person", "make", "made",
        "way", "part", "abbr", "old", "pron", "var", "from", "into", "out", "off", "not", "any",
        "all", "such", "more", "less", "very", "his", "her", "its", "who", "whom", "are",
        "cantonese", "mandarin", "japanese", "korean", "chinese", "cant",
    ];
    let mut k: usize = 0;
    while k < 51
        invariant
            k <= 51,
            words@ == seq![
                "the", "and", "for", "with", "used", "esp", "etc", "sth", "someone", "something",
                "one", "that", "this", "see", "also", "form", "kind", "type", "thing", "person",
                "make", "made", "way", "part", "abbr", "old", "pron", "var", "from", "into", "out",
                "off", "not", "any", "all", "such", "more", "less", "very", "his", "her", "its",
                "who", "whom", "are", "cantonese", "mandarin", "japanese", "korean", "chinese",
                "cant",
            ],
            forall|j: int| 0 <= j < k ==> t@ != #[trigger] stopword(j),
        decreases 51 - k,
    {
        let w = chars_of(words[k]);
        proof {
            lemma_stopword_table(words@, k as int);
        }
        if seq_eq(t, &w) {
            return true;
        }
        k += 1;
    }
    false
}

proof fn lemma_stopword_table(words: Seq<&str>, k: int)
    requires
        0 <= k < 51,
        words == seq![
            "the", "and", "for", "with", "used", "esp", "etc", "sth", "someone", "something",
            "one", "that", "this", "see", "also", "form", "kind", "type", "thing", "person",
            "make", "made", "way", "part", "abbr", "old", "pron", "var", "from", "into", "out",
            "off", "not", "any", "all", "such", "more", "less", "very", "his", "her", "its",
            "who", "whom", "are", "cantonese", "mandarin", "japanese", "korean", "chinese",
            "cant",
        ],
    ensures
        words[k]@ == stopword(k),
{
}

pub open spec fn not_ascii_alpha(c: char) -> bool {
    !is_ascii_alpha(c)
}

/// A token counts as content when it has at least 3 bytes and is not a stopword.
pub open spec fn is_content_token(t: Seq<char>) -> bool {
    byte_len(t) >= 3 && !is_stopword(t)
}

/// The content tokens of a text: lowercased, split on every non-ASCII-letter, filtered.
pub open spec fn content_tokens(text: Seq<char>) -> Seq<Seq<char>> {
    split(str_lowercase(text), |c: char| not_ascii_alpha(c)).filter(|t: Seq<char>| is_content_token(t))
}

pub open spec fn is_word_sep(c: char) -> bool {
    c == ';' || c == ','
}

/// Content tokens of the non-cross-reference segments (`;`/`,`-separated) of a gloss, in order.
pub open spec fn gloss_tokens(segs: Seq<Seq<char>>) -> Seq<Seq<char>>
    decreases segs.len(),
{
    if segs.len() == 0 {
        Seq::empty()
    } else {
        gloss_tokens(segs.drop_last()) + if spec_is_meta_segment(segs.last()) {
            Seq::<Seq<char>>::empty()
        } else {
            content_tokens(segs.last())
        }
    }
}

/// The meaning words of a primary gloss: stems of the content tokens of its non-cross-reference
/// segments.
pub open spec fn spec_content_words(gloss: Seq<char>) -> Seq<Seq<char>> {
    gloss_tokens(split(gloss, |c: char| is_word_sep(c))).map_values(|t: Seq<char>| spec_stem(t))
}

/// `str::split(|c| !c.is_ascii_alphabetic())`, as character vectors.
fn split_non_alpha(s: &Vec<char>) -> (r: Vec<Vec<char>>)
    ensures
        r@.map_values(|t: Vec<char>| t@) == split(s@, |c: char| not_ascii_alpha(c)),
{
    let ghost sep = |c: char| not_ascii_alpha(c);
    let mut out: Vec<Vec<char>> = Vec::new();
    let mut cur: Vec<char> = Vec::new();
    let mut i: usize = 0;
    assert(s@.skip(0) =~= s@);
    assert(cur@ =~= Seq::<char>::empty());
    assert(out@.map_values(|t: Vec<char>| t@) =~= Seq::<Seq<char>>::empty());
    while i < s.len()
        invariant
            i <= s.len(),
            sep == (|c: char| not_ascii_alpha(c)),
            out@.map_values(|t: Vec<char>| t@) + split_from(s@.skip(i as int), cur@, sep) == split(
                s@,
                sep,
            ),
        decreases s.len() - i,
    {
        proof {
            assert(s@.skip(i as int).drop_first() =~= s@.skip(i + 1));
            assert(s@.skip(i as int)[0] == s@[i as int]);
        }
        let c = s[i];
        if !ch_is_ascii_alpha(c) {
            let ghost o = out@;
            let ghost cv = cur@;
            out.push(cur);
            proof {
                assert(out@.map_values(|t: Vec<char>| t@) =~= o.map_values(|t: Vec<char>| t@)
                    + seq![cv]);
            }
            cur = Vec::new();
            proof {
                assert(cur@ =~= Seq::<char>::empty());
            }
        } else {
            cur.push(c);
        }
        i += 1;
    }
    proof {
        assert(s@.skip(i as int) =~= Seq::<char>::empty());
    }
    let ghost o = out@;
    let ghost cv = cur@;
    out.push(cur);
    proof {
        assert(out@.map_values(|t: Vec<char>| t@) =~= o.map_values(|t: Vec<char>| t@) + seq![cv]);
    }
    out
}

/// Content tokens of a text, as character vectors.
fn content_tokens_exec(text: &Vec<char>) -> (r: Vec<Vec<char>>)
    ensures
        r@.map_values(|t: Vec<char>| t@) == content_tokens(text@),
{
    let ts = string_of(text);
    let low = lower_str(ts.as_str());
    let lv = chars_of(low.as_str());
    let toks = split_non_alpha(&lv);
    let ghost tv = toks@.map_values(|t: Vec<char>| t@);
    let ghost pred = |t: Seq<char>| is_content_token(t);
    let mut out: Vec<Vec<char>> = Vec::new();
    for i in 0..toks.len()
        invariant
            tv == toks@.map_values(|t: Vec<char>| t@),
            pred == (|t: Seq<char>| is_content_token(t)),
            out@.map_values(|t: Vec<char>| t@) == tv.take(i as int).filter(pred),
    {
        proof {
            assert(tv.take(i as int).push(tv[i as int]) =~= tv.take(i + 1));
            tv.take(i as int).lemma_filter_push(tv[i as int], pred);
        }
        let keep = byte_len_exec(&toks[i]) >= 3 && !is_stopword_exec(&toks[i]);
        if keep {
            let ghost o = out@;
            let t = slice_vec(&toks[i], 0, toks[i].len());
            assert(t@ =~= tv[i as int]);
            out.push(t);
            proof {
                assert(out@.map_values(|t: Vec<char>| t@) =~= o.map_values(|t: Vec<char>| t@).push(tv[i as int]));
            }
        }
    }
    proof {
        assert(tv.take(toks.len() as int) =~= tv);
    }
    out
}

/// The meaning words of a lexeme's primary gloss (cross-reference segments skipped): stemmed
/// content tokens, in order of appearance.
pub fn content_words(gloss: &str) -> (r: Vec<String>)
    ensures
        r@.map_values(|w: String| w@) == spec_content_words(gloss@),
{
    let g = chars_of(gloss);
    let seps = vec![';', ','];
    let ghost sep = |c: char| is_word_sep(c);
    assert forall|c: char| sep(c) <==> seps@.contains(c) by {
        if c == ';' {
            assert(seps@[0] == ';');
        }
        if c == ',' {
            assert(seps@[1] == ',');
        }
    }
    let segs = split_vec(&g, Ghost(sep), &seps);
    let ghost sv = segs@.map_values(|t: Vec<char>| t@);
    let ghost stemf = |t: Seq<char>| spec_stem(t);
    let mut out: Vec<String> = Vec::new();
    for i in 0..segs.len()
        invariant
            sv == segs@.map_values(|t: Vec<char>| t@),
            stemf == (|t: Seq<char>| spec_stem(t)),
            out@.map_values(|w: String| w@) == gloss_tokens(sv.take(i as int)).map_values(stemf),
    {
        proof {
            assert(sv.take(i + 1).drop_last() =~= sv.take(i as int));
            assert(sv.take(i + 1).last() == sv[i as int]);
        }
        if !is_meta_segment_vec(&segs[i]) {
            let toks = content_tokens_exec(&segs[i]);
            let ghost tv = toks@.map_values(|t: Vec<char>| t@);
            let ghost o = out@.map_values(|w: String| w@);
            for j in 0..toks.len()
                invariant
                    tv == toks@.map_values(|t: Vec<char>| t@),
                    out@.map_values(|w: String| w@) == o + tv.take(j as int).map_values(stemf),
                    stemf == (|t: Seq<char>| spec_stem(t)),
            {
                let st = stem(&toks[j]);
                let ghost before = out@.map_values(|w: String| w@);
                out.push(string_of(&st));
                proof {
                    assert(out@.map_values(|w: String| w@) =~= before.push(st@));
                    assert(tv.take(j + 1).map_values(stemf) =~= tv.take(j as int).map_values(stemf).push(stemf(tv[j as int])));
                    assert(o + tv.take(j + 1).map_values(stemf) =~= (o + tv.take(j as int).map_values(stemf)).push(stemf(tv[j as int])));
                }
            }
            proof {
                assert(tv.take(toks.len() as int) =~= tv);
                assert((gloss_tokens(sv.take(i as int)) + tv).map_values(stemf) =~= gloss_tokens(sv.take(i as int)).map_values(stemf) + tv.map_values(stemf));
            }
        } else {
            proof {
                assert(gloss_tokens(sv.take(i as int)) + Seq::<Seq<char>>::empty() =~= gloss_tokens(sv.take(i as int)));
            }
        }
    }
    proof {
        assert(sv.take(segs.len() as int) =~= sv);
    }
    out
}

/// Content tokens (lowercased, at least 3 bytes, not stopwords) of a character's own gloss,
/// unstemmed, with no segment skipped.
pub open spec fn spec_char_gloss_words(gloss: Option<Seq<char>>) -> Seq<Seq<char>> {
    match gloss {
        Some(g) => content_tokens(g),
        None => Seq::empty(),
    }
}

pub fn char_gloss_words(gloss: Option<&str>) -> (r: Vec<String>)
    ensures
        r@.map_values(|w: String| w@) == spec_char_gloss_words(
            match gloss {
                Some(g) => Some(g@),
                None => None,
            },
        ),
{
    match gloss {
        None => {
            let r: Vec<String> = Vec::new();
            assert(r@.map_values(|w: String| w@) =~= Seq::<Seq<char>>::empty());
            r
        },
        Some(g) => {
            let gv = chars_of(g);
            let toks = content_tokens_exec(&gv);
            let mut out: Vec<String> = Vec::new();
            for j in 0..toks.len()
                invariant
                    out@.map_values(|w: String| w@) == toks@.map_values(|t: Vec<char>| t@).take(j as int),
            {
                let ghost before = out@.map_values(|w: String| w@);
                out.push(string_of(&toks[j]));
                proof {
                    assert(out@.map_values(|w: String| w@) =~= before.push(toks@[j as int]@));
                    assert(toks@.map_values(|t: Vec<char>| t@).take(j + 1) =~= toks@.map_values(|t: Vec<char>| t@).take(j as int).push(toks@[j as int]@));
                }
            }
            assert(toks@.map_values(|t: Vec<char>| t@).take(toks.len() as int) =~= toks@.map_values(|t: Vec<char>| t@));
            out
        },
    }
}

/// Length of the longest common prefix.
pub open spec fn common_prefix_len(x: Seq<char>, y: Seq<char>) -> nat
    decreases x.len(),
{
    if x.len() == 0 || y.len() == 0 || x[0] != y[0] {
        0
    } else {
        1 + common_prefix_len(x.drop_first(), y.drop_first())
    }
}

/// Two meaning words agree: equal, or sharing a root of at least 5 characters.
pub open spec fn words_agree(x: Seq<char>, y: Seq<char>) -> bool {
    x == y || common_prefix_len(x, y) >= 5
}

/// Two word sets share meaning: some word of one agrees with some word of the other.
pub open spec fn spec_glosses_overlap(a: Seq<Seq<char>>, b: Seq<Seq<char>>) -> bool {
    exists|i: int, j: int| 0 <= i < a.len() && 0 <= j < b.len() && words_agree(a[i], b[j])
}

fn common_prefix_at_least_5(x: &Vec<char>, y: &Vec<char>) -> (r: bool)
    ensures
        r == (common_prefix_len(x@, y@) >= 5),
{
    let mut i: usize = 0;
    while i < 5 && i < x.len() && i < y.len() && x[i] == y[i]
        invariant
            i <= 5,
            i <= x.len(),
            i <= y.len(),
            forall|k: int| 0 <= k < i ==> x@[k] == y@[k],
        decreases 5 - i,
    {
        i += 1;
    }
    proof {
        lemma_common_prefix(x@, y@, i as int);
    }
    i == 5
}

proof fn lemma_cpl(x: Seq<char>, y: Seq<char>, m: int)
    requires
        0 <= m,
    ensures
        (common_prefix_len(x, y) >= m) <==> (m <= x.len() && m <= y.len() && forall|k: int|
            0 <= k < m ==> x[k] == y[k]),
    decreases m,
{
    if m > 0 {
        lemma_cpl(x.drop_first(), y.drop_first(), m - 1);
        if x.len() > 0 && y.len() > 0 && x[0] == y[0] {
            if m <= x.len() && m <= y.len() && forall|k: int| 0 <= k < m ==> x[k] == y[k] {
                assert forall|k: int| 0 <= k < m - 1 implies x.drop_first()[k] == y.drop_first()[k] by {
                    assert(x[k + 1] == y[k + 1]);
                }
            }
            if common_prefix_len(x, y) >= m {
                assert forall|k: int| 0 <= k < m implies x[k] == y[k] by {
                    if k > 0 {
                        assert(x.drop_first()[k - 1] == y.drop_first()[k - 1]);
                    }
                }
            }
        } else {
            if m <= x.len() && m <= y.len() && forall|k: int| 0 <= k < m ==> x[k] == y[k] {
                assert(x[0] == y[0]);
            }
        }
    }
}

proof fn lemma_common_prefix(x: Seq<char>, y: Seq<char>, i: int)
    requires
        0 <= i <= 5,
        i <= x.len(),
        i <= y.len(),
        forall|k: int| 0 <= k < i ==> x[k] == y[k],
        i == 5 || i == x.len() || i == y.len() || x[i] != y[i],
    ensures
        (common_prefix_len(x, y) >= 5) == (i == 5),
{
    lemma_cpl(x, y, 5);
    if i < 5 && common_prefix_len(x, y) >= 5 {
        assert(x[i] == y[i]);
    }
}

/// Do two meaning-word sets share meaning? An exact shared word, or two words sharing a root
/// of at least 5 characters (marriage/married, stimulus/stimulant).
pub fn glosses_overlap(a: &Vec<String>, b: &Vec<String>) -> (r: bool)
    ensures
        r == spec_glosses_overlap(a@.map_values(|w: String| w@), b@.map_values(|w: String| w@)),
{
    let ghost av = a@.map_values(|w: String| w@);
    let ghost bv = b@.map_values(|w: String| w@);
    for i in 0..a.len()
        invariant
            av == a@.map_values(|w: String| w@),
            bv == b@.map_values(|w: String| w@),
            forall|p: int, q: int| 0 <= p < i && 0 <= q < bv.len() ==> !words_agree(av[p], bv[q]),
    {
        let x = chars_of(a[i].as_str());
        for j in 0..b.len()
            invariant
                av == a@.map_values(|w: String| w@),
                bv == b@.map_values(|w: String| w@),
                x@ == av[i as int],
                0 <= i < av.len(),
                forall|p: int, q: int| 0 <= p < i && 0 <= q < bv.len() ==> !words_agree(av[p], bv[q]),
                forall|q: int| 0 <= q < j ==> !words_agree(av[i as int], bv[q]),
        {
            let y = chars_of(b[j].as_str());
            if seq_eq(&x, &y) || common_prefix_at_least_5(&x, &y) {
                assert(words_agree(av[i as int], bv[j as int]));
                return true;
            }
        }
    }
    false
}

// ---------------------------------------------------------------------------------------------
// Radical glosses
// ---------------------------------------------------------------------------------------------
/// A gloss that flags a Kangxi radical ("Kangxi radical 60", "radical number 85", "rad. no 162").
pub open spec fn spec_is_radical_gloss(gloss: Option<Seq<char>>) -> bool {
    match gloss {
        Some(g) => {
            let l = str_lowercase(g);
            contains_seq(l, "kangxi radical"@) || contains_seq(l, "radical number"@) || contains_seq(
                l,
                "rad. no"@,
            )
        },
        None => false,
    }
}

pub fn is_radical_gloss(gloss: Option<&str>) -> (r: bool)
    ensures
        r == spec_is_radical_gloss(
            match gloss {
                Some(g) => Some(g@),
                None => None,
            },
        ),
{
    match gloss {
        None => false,
        Some(g) => {
            let low = lower_str(g);
            let l = chars_of(low.as_str());
            let a = chars_of("kangxi radical");
            let b = chars_of("radical number");
            let c = chars_of("rad. no");
            contains_exec(&l, &a) || contains_exec(&l, &b) || contains_exec(&l, &c)
        },
    }
}

pub open spec fn radical_keyword(k: int) -> Seq<char> {
    if k == 0 {
        "kangxi radical"@
    } else if k == 1 {
        "radical number"@
    } else if k == 2 {
        "rad. no."@
    } else if k == 3 {
        "rad. no"@
    } else {
        "radical"@
    }
}

/// Index of the first occurrence of `p` in `s`.
#[verifier::opaque]
pub open spec fn first_occurrence(s: Seq<char>, p: Seq<char>) -> int {
    choose|i: int| occurs_at(s, p, i) && forall|j: int| 0 <= j < i ==> !occurs_at(s, p, j)
}

pub open spec fn skip_non_digits(s: Seq<char>) -> Seq<char>
    decreases s.len(),
{
    if s.len() > 0 && !is_ascii_digit(s[0]) {
        skip_non_digits(s.drop_first())
    } else {
        s
    }
}

pub open spec fn leading_digits(s: Seq<char>) -> Seq<char>
    decreases s.len(),
{
    if s.len() > 0 && is_ascii_digit(s[0]) {
        seq![s[0]] + leading_digits(s.drop_first())
    } else {
        Seq::empty()
    }
}

/// The value of a run of decimal digits.
pub open spec fn digits_value(d: Seq<char>) -> nat
    decreases d.len(),
{
    if d.len() == 0 {
        0
    } else {
        digits_value(d.drop_last()) * 10 + ((d.last() as u32) - ('0' as u32)) as nat
    }
}

/// `str::parse::<i64>` of a run of ASCII digits: its value when non-empty and within `i64`.
pub open spec fn parse_digits(d: Seq<char>) -> Option<i64> {
    if d.len() > 0 && digits_value(d) <= i64::MAX {
        Some(digits_value(d) as i64)
    } else {
        None
    }
}

#[verifier::opaque]
pub open spec fn number_after_keyword(g: Seq<char>, kw: Seq<char>) -> Option<i64> {
    if contains_seq(g, kw) {
        parse_digits(leading_digits(skip_non_digits(g.skip(first_occurrence(g, kw) + kw.len()))))
    } else {
        None
    }
}

/// Keywords `k..5` tried in order: after the first occurrence of a keyword, the first run of
/// digits that parses gives the radical number.
pub open spec fn radical_number_from(g: Seq<char>, k: int) -> Option<i64>
    decreases 5 - k,
{
    if k >= 5 || k < 0 {
        None
    } else {
        match number_after_keyword(g, radical_keyword(k)) {
            Some(n) => Some(n),
            None => radical_number_from(g, k + 1),
        }
    }
}

pub open spec fn spec_radical_gloss_number(gloss: Option<Seq<char>>) -> Option<i64> {
    match gloss {
        Some(g) => radical_number_from(str_lowercase(g), 0),
        None => None,
    }
}

fn find_first(s: &Vec<char>, p: &Vec<char>) -> (r: Option<usize>)
    ensures
        r is Some <==> contains_seq(s@, p@),
        r matches Some(i) ==> i == first_occurrence(s@, p@) && occurs_at(s@, p@, i as int),
{
    let mut i: usize = 0;
    while i < s.len()
        invariant
            i <= s.len(),
            forall|k: int| 0 <= k < i ==> !occurs_at(s@, p@, k),
        decreases s.len() - i,
    {
        if occurs_at_exec(s, p, i) {
            proof {
                lemma_first_occurrence(s@, p@, i as int);
            }
            return Some(i);
        }
        i += 1;
    }
    if occurs_at_exec(s, p, i) {
        proof {
            lemma_first_occurrence(s@, p@, i as int);
        }
        return Some(i);
    }
    proof {
        assert forall|k: int| !occurs_at(s@, p@, k) by {
            if 0 <= k && k < i {
            }
        }
    }
    None
}

proof fn lemma_first_occurrence(s: Seq<char>, p: Seq<char>, i: int)
    requires
        occurs_at(s, p, i),
        forall|k: int| 0 <= k < i ==> !occurs_at(s, p, k),
    ensures
        first_occurrence(s, p) == i,
{
    reveal(first_occurrence);
    let f = first_occurrence(s, p);
    assert(occurs_at(s, p, i) && forall|j: int| 0 <= j < i ==> !occurs_at(s, p, j));
    if f < i {
        assert(!occurs_at(s, p, f));
    } else if f > i {
        assert(occurs_at(s, p, i));
    }
}

proof fn lemma_skip_non_digits_step(s: Seq<char>, i: int)
    requires
        0 <= i < s.len(),
        !is_ascii_digit(s[i]),
    ensures
        skip_non_digits(s.skip(i)) == skip_non_digits(s.skip(i + 1)),
{
    assert(s.skip(i).drop_first() =~= s.skip(i + 1));
}

/// The first run of digits at or after `start` (non-digits skipped), parsed as an `i64`.
fn parse_digits_after(l: &Vec<char>, start: usize) -> (r: Option<i64>)
    requires
        start <= l.len(),
    ensures
        r == parse_digits(leading_digits(skip_non_digits(l@.skip(start as int)))),
{
    let mut i = start;
    while i < l.len() && !ch_is_ascii_digit(l[i])
        invariant
            start <= i <= l.len(),
            skip_non_digits(l@.skip(start as int)) == skip_non_digits(l@.skip(i as int)),
        decreases l.len() - i,
    {
        proof {
            lemma_skip_non_digits_step(l@, i as int);
        }
        i += 1;
    }
    let d0 = i;
    proof {
        if i < l.len() {
            assert(l@.skip(i as int)[0] == l@[i as int]);
        }
        assert(skip_non_digits(l@.skip(i as int)) == l@.skip(i as int));
        assert(l@.subrange(d0 as int, i as int) =~= Seq::<char>::empty());
    }
    let mut value: i64 = 0;
    let mut overflow = false;
    while i < l.len() && ch_is_ascii_digit(l[i])
        invariant
            d0 <= i <= l.len(),
            leading_digits(l@.skip(d0 as int)) == l@.subrange(d0 as int, i as int) + leading_digits(
                l@.skip(i as int),
            ),
            value >= 0,
            !overflow ==> value as nat == digits_value(l@.subrange(d0 as int, i as int)),
            overflow ==> digits_value(l@.subrange(d0 as int, i as int)) > i64::MAX,
        decreases l.len() - i,
    {
        let d = (l[i] as u32 - '0' as u32) as i64;
        let ghost prev = l@.subrange(d0 as int, i as int);
        proof {
            assert(l@.skip(i as int).drop_first() =~= l@.skip(i + 1));
            assert(l@.skip(i as int)[0] == l@[i as int]);
            assert(l@.subrange(d0 as int, i + 1).drop_last() =~= prev);
            assert(l@.subrange(d0 as int, i + 1) =~= prev + seq![l@[i as int]]);
            assert(digits_value(l@.subrange(d0 as int, i + 1)) == digits_value(prev) * 10 + d);
        }
        if !overflow {
            if value > (i64::MAX - d) / 10 {
                overflow = true;
                proof {
                    assert(value * 10 + d > i64::MAX) by (nonlinear_arith)
                        requires
                            value > (i64::MAX - d) / 10,
                            0 <= d <= 9,
                    ;
                }
            } else {
                proof {
                    assert(value * 10 + d <= i64::MAX) by (nonlinear_arith)
                        requires
                            value <= (i64::MAX - d) / 10,
                            0 <= d <= 9,
                            value >= 0,
                    ;
                }
                value = value * 10 + d;
            }
        } else {
            proof {
                assert(digits_value(prev) * 10 + d >= digits_value(prev)) by (nonlinear_arith)
                    requires
                        0 <= d,
                ;
            }
        }
        i += 1;
    }
    proof {
        if i < l.len() {
            assert(l@.skip(i as int)[0] == l@[i as int]);
        }
        assert(leading_digits(l@.skip(i as int)) =~= Seq::<char>::empty());
        assert(leading_digits(l@.skip(d0 as int)) =~= l@.subrange(d0 as int, i as int));
    }
    if i > d0 && !overflow {
        Some(value)
    } else {
        None
    }
}

proof fn lemma_number_after_keyword(g: Seq<char>, kw: Seq<char>, pos: int)
    requires
        contains_seq(g, kw),
        pos == first_occurrence(g, kw),
    ensures
        number_after_keyword(g, kw) == parse_digits(
            leading_digits(skip_non_digits(g.skip(pos + kw.len()))),
        ),
{
    reveal(number_after_keyword);
}

proof fn lemma_number_after_keyword_none(g: Seq<char>, kw: Seq<char>)
    requires
        !contains_seq(g, kw),
    ensures
        number_after_keyword(g, kw) is None,
{
    reveal(number_after_keyword);
}

fn number_after_keyword_exec(l: &Vec<char>, kw: &Vec<char>) -> (r: Option<i64>)
    ensures
        r == number_after_keyword(l@, kw@),
{
    match find_first(l, kw) {
        Some(pos) => {
            assert(occurs_at(l@, kw@, pos as int));
            assert(pos + kw@.len() <= l@.len());
            assert(pos + kw.len() <= l.len());
            let r = parse_digits_after(l, pos + kw.len());
            proof {
                lemma_number_after_keyword(l@, kw@, pos as int);
            }
            r
        },
        None => {
            proof {
                lemma_number_after_keyword_none(l@, kw@);
            }
            None
        },
    }
}

proof fn lemma_radical_number_step(g: Seq<char>, k: int)
    requires
        0 <= k < 5,
    ensures
        radical_number_from(g, k) == match number_after_keyword(g, radical_keyword(k)) {
            Some(n) => Some(n),
            None => radical_number_from(g, k + 1),
        },
{
    reveal(number_after_keyword);
}

/// Parse the Kangxi radical number out of a radical gloss ("…Kangxi radical 60" → 60).
pub fn radical_gloss_number(gloss: Option<&str>) -> (r: Option<i64>)
    ensures
        r == spec_radical_gloss_number(
            match gloss {
                Some(g) => Some(g@),
                None => None,
            },
        ),
{
    let g = match gloss {
        Some(g) => g,
        None => return None,
    };
    let low = lower_str(g);
    let l = chars_of(low.as_str());
    proof {
        reveal_strlit("kangxi radical");
        reveal_strlit("radical number");
        reveal_strlit("rad. no.");
        reveal_strlit("rad. no");
        reveal_strlit("radical");
    }
    let kws: [&str; 5] = ["kangxi radical", "radical number", "rad. no.", "rad. no", "radical"];
    let mut k: usize = 0;
    while k < 5
        invariant
            k <= 5,
            l@ == str_lowercase(g@),
            gloss == Some(g),
            forall|j: int| 0 <= j < 5 ==> #[trigger] kws@[j]@ == radical_keyword(j),
            radical_number_from(l@, 0) == radical_number_from(l@, k as int),
        decreases 5 - k,
    {
        let kw = chars_of(kws[k]);
        proof {
            lemma_radical_number_step(l@, k as int);
        }
        if let Some(n) = number_after_keyword_exec(&l, &kw) {
            assert(radical_number_from(l@, k as int) == Some(n));
            assert(spec_radical_gloss_number(Some(g@)) == radical_number_from(l@, 0));
            assert(gloss == Some(g));
            return Some(n);
        }
        k += 1;
    }
    assert(gloss == Some(g));
    None
}

} // verus!

//! Writing systems: which characters are Han or kana, the hiragana/katakana fold, how a query is
//! classified, wildcard detection, and the small fixed tables that name scripts and reforms.
use vstd::prelude::*;
use crate::chars::{
    ch_is_ascii_alpha, char_from_u32, chars_of, is_ascii_alpha, seq_eq, string_of, trim, trim_vec,
};

verus! {

/// A Han ideograph: CJK Unified Ideographs (with Extension A), the supplementary ideographic
/// planes, and the compatibility ideographs.
pub open spec fn spec_is_han(c: char) -> bool {
    let u = c as u32;
    (0x3400 <= u <= 0x9FFF) || (0x20000 <= u <= 0x3FFFF) || (0xF900 <= u <= 0xFAFF)
}

/// Hiragana, katakana, and halfwidth katakana.
pub open spec fn spec_is_kana(c: char) -> bool {
    let u = c as u32;
    (0x3040 <= u <= 0x30FF) || (0xFF66 <= u <= 0xFF9D)
}

/// A Han character usable as a component of an ideographic description (BMP ideographs,
/// compatibility ideographs, and the iteration mark 々).
pub open spec fn spec_is_han_component(c: char) -> bool {
    let u = c as u32;
    (0x3400 <= u <= 0x9FFF) || (0xF900 <= u <= 0xFAFF) || c == '々'
}

pub fn is_han(ch: char) -> (r: bool)
    ensures
        r == spec_is_han(ch),
{
    let c = ch as u32;
    (0x3400 <= c && c <= 0x9FFF) || (0x20000 <= c && c <= 0x3FFFF) || (0xF900 <= c && c <= 0xFAFF)
}

pub fn is_kana(ch: char) -> (r: bool)
    ensures
        r == spec_is_kana(ch),
{
    let c = ch as u32;
    (0x3040 <= c && c <= 0x30FF) || (0xFF66 <= c && c <= 0xFF9D)
}

pub fn is_han_component(c: char) -> (r: bool)
    ensures
        r == spec_is_han_component(c),
{
    let u = c as u32;
    (0x3400 <= u && u <= 0x9FFF) || (0xF900 <= u && u <= 0xFAFF) || c == '々'
}

/// Hiragana U+3041..U+3096 shifted to the matching katakana (+0x60); anything else unchanged.
pub open spec fn kata_char(c: char) -> char {
    let u = c as u32;
    if 0x3041 <= u <= 0x3096 {
        ((u + 0x60) as u32) as char
    } else {
        c
    }
}

/// Katakana U+30A1..U+30F6 shifted to the matching hiragana (-0x60); anything else unchanged.
pub open spec fn hira_char(c: char) -> char {
    let u = c as u32;
    if 0x30A1 <= u <= 0x30F6 {
        ((u - 0x60) as u32) as char
    } else {
        c
    }
}

pub open spec fn spec_to_katakana(s: Seq<char>) -> Seq<char> {
    Seq::new(s.len(), |i: int| kata_char(s[i]))
}

pub open spec fn spec_to_hiragana(s: Seq<char>) -> Seq<char> {
    Seq::new(s.len(), |i: int| hira_char(s[i]))
}

pub proof fn lemma_char_of_u32(k: char, u: u32)
    requires
        k as u32 == u,
    ensures
        u as char == k,
{
}

fn kata_char_exec(c: char) -> (r: char)
    ensures
        r == kata_char(c),
{
    let u = c as u32;
    if 0x3041 <= u && u <= 0x3096 {
        let v: u32 = u + 0x60;
        match char_from_u32(v) {
            Some(k) => {
                proof { lemma_char_of_u32(k, v); }
                k
            },
            None => c,
        }
    } else {
        c
    }
}

fn hira_char_exec(c: char) -> (r: char)
    ensures
        r == hira_char(c),
{
    let u = c as u32;
    if 0x30A1 <= u && u <= 0x30F6 {
        let v: u32 = u - 0x60;
        match char_from_u32(v) {
            Some(h) => {
                proof { lemma_char_of_u32(h, v); }
                h
            },
            None => c,
        }
    } else {
        c
    }
}

/// Fold hiragana to katakana, so a hiragana query also finds katakana-stored loanwords.
pub fn to_katakana(s: &str) -> (r: String)
    ensures
        r@ == spec_to_katakana(s@),
{
    let cs = chars_of(s);
    let mut out: Vec<char> = Vec::new();
    for i in 0..cs.len()
        invariant
            cs@ == s@,
            out@ =~= spec_to_katakana(s@).take(i as int),
    {
        out.push(kata_char_exec(cs[i]));
    }
    string_of(&out)
}

/// Fold katakana to hiragana.
pub fn to_hiragana(s: &str) -> (r: String)
    ensures
        r@ == spec_to_hiragana(s@),
{
    let cs = chars_of(s);
    let mut out: Vec<char> = Vec::new();
    for i in 0..cs.len()
        invariant
            cs@ == s@,
            out@ =~= spec_to_hiragana(s@).take(i as int),
    {
        out.push(hira_char_exec(cs[i]));
    }
    string_of(&out)
}

/// The kana folds shift whole blocks, character by character: every hiragana U+3041..=U+3096
/// (ぁ to ゖ, ん included) becomes the katakana 0x60 above it under `to_katakana`, every katakana
/// U+30A1..=U+30F6 (ァ to ヶ, ン included) becomes the hiragana 0x60 below it under
/// `to_hiragana`, and every other character is left as it is; the length never changes.
pub proof fn law_kana_folds_shift_blocks(s: Seq<char>, i: int)
    requires
        0 <= i < s.len(),
    ensures
        spec_to_katakana(s).len() == s.len(),
        spec_to_hiragana(s).len() == s.len(),
        0x3041 <= s[i] as u32 <= 0x3096 ==> spec_to_katakana(s)[i] as u32 == s[i] as u32 + 0x60,
        !(0x3041 <= s[i] as u32 <= 0x3096) ==> spec_to_katakana(s)[i] == s[i],
        0x30A1 <= s[i] as u32 <= 0x30F6 ==> spec_to_hiragana(s)[i] as u32 == s[i] as u32 - 0x60,
        !(0x30A1 <= s[i] as u32 <= 0x30F6) ==> spec_to_hiragana(s)[i] == s[i],
{
    let u = s[i] as u32;
    if 0x3041 <= u <= 0x3096 {
        assert(((u + 0x60) as u32) as char as u32 == u + 0x60);
    }
    if 0x30A1 <= u <= 0x30F6 {
        assert(((u - 0x60) as u32) as char as u32 == u - 0x60);
    }
}

/// Folding to one kana script forgets which script the input used: folding to katakana after a
/// hiragana fold is the same as folding to katakana directly, and vice versa. This is what lets a
/// folded query and a folded stored reading meet regardless of how either was written.
pub proof fn law_kana_fold_forgets_script(s: Seq<char>)
    ensures
        spec_to_katakana(spec_to_hiragana(s)) == spec_to_katakana(s),
        spec_to_hiragana(spec_to_katakana(s)) == spec_to_hiragana(s),
{
    assert(spec_to_katakana(spec_to_hiragana(s)) =~= spec_to_katakana(s));
    assert(spec_to_hiragana(spec_to_katakana(s)) =~= spec_to_hiragana(s));
}

/// How a search query is read.
#[derive(Clone, Copy, PartialEq, Eq, Debug, Structural)]
pub enum Kind {
    Han,
    Kana,
    Latin,
    Other,
}

pub open spec fn any_char(s: Seq<char>, p: spec_fn(char) -> bool) -> bool {
    exists|i: int| 0 <= i < s.len() && p(s[i])
}

/// A query is classified after trimming: empty is `Other`; any kana makes it `Kana` (mixed
/// kanji+kana words are kana queries); otherwise any Han makes it `Han`; otherwise any ASCII
/// letter makes it `Latin`; anything else is `Other`.
pub open spec fn spec_classify(q: Seq<char>) -> Kind {
    let t = trim(q);
    if t.len() == 0 {
        Kind::Other
    } else if any_char(t, |c: char| spec_is_kana(c)) {
        Kind::Kana
    } else if any_char(t, |c: char| spec_is_han(c)) {
        Kind::Han
    } else if any_char(t, |c: char| is_ascii_alpha(c)) {
        Kind::Latin
    } else {
        Kind::Other
    }
}

pub fn any_kana(v: &Vec<char>) -> (r: bool)
    ensures
        r == any_char(v@, |c: char| spec_is_kana(c)),
{
    for i in 0..v.len()
        invariant
            forall|j: int| 0 <= j < i ==> !spec_is_kana(v@[j]),
    {
        if is_kana(v[i]) {
            return true;
        }
    }
    false
}

pub fn any_han(v: &Vec<char>) -> (r: bool)
    ensures
        r == any_char(v@, |c: char| spec_is_han(c)),
{
    for i in 0..v.len()
        invariant
            forall|j: int| 0 <= j < i ==> !spec_is_han(v@[j]),
    {
        if is_han(v[i]) {
            return true;
        }
    }
    false
}

pub fn any_ascii_alpha(v: &Vec<char>) -> (r: bool)
    ensures
        r == any_char(v@, |c: char| is_ascii_alpha(c)),
{
    for i in 0..v.len()
        invariant
            forall|j: int| 0 <= j < i ==> !is_ascii_alpha(v@[j]),
    {
        if ch_is_ascii_alpha(v[i]) {
            return true;
        }
    }
    false
}

/// Classify a query as Han, kana, Latin (a romanised reading or English) or other.
pub fn classify(q: &str) -> (k: Kind)
    ensures
        k == spec_classify(q@),
{
    let cs = chars_of(q);
    let t = trim_vec(&cs);
    if t.len() == 0 {
        Kind::Other
    } else if any_kana(&t) {
        Kind::Kana
    } else if any_han(&t) {
        Kind::Han
    } else if any_ascii_alpha(&t) {
        Kind::Latin
    } else {
        Kind::Other
    }
}

impl Kind {
    pub open spec fn name(self) -> Seq<char> {
        match self {
            Kind::Han => "han"@,
            Kind::Kana => "kana"@,
            Kind::Latin => "latin"@,
            Kind::Other => "other"@,
        }
    }

    /// The label reported back as `classified_as`.
    pub fn as_str(self) -> (r: &'static str)
        ensures
            r@ == self.name(),
    {
        match self {
            Kind::Han => "han",
            Kind::Kana => "kana",
            Kind::Latin => "latin",
            Kind::Other => "other",
        }
    }
}

pub open spec fn is_wildcard_char(c: char) -> bool {
    c == '*' || c == '?' || c == '＊' || c == '？'
}

/// A query carries a wildcard when it contains `*` or `?`, or their fullwidth forms.
pub open spec fn spec_is_wildcard(q: Seq<char>) -> bool {
    any_char(q, |c: char| is_wildcard_char(c))
}

pub fn is_wildcard(q: &str) -> (r: bool)
    ensures
        r == spec_is_wildcard(q@),
{
    let cs = chars_of(q);
    for i in 0..cs.len()
        invariant
            cs@ == q@,
            forall|j: int| 0 <= j < i ==> !is_wildcard_char(q@[j]),
    {
        let c = cs[i];
        if c == '*' || c == '?' || c == '＊' || c == '？' {
            return true;
        }
    }
    false
}

/// Kana, CJK Unified Ideographs, or Extension A: glyphs a device font renders.
pub open spec fn is_cjk_renderable(c: char) -> bool {
    let u = c as u32;
    (0x3040 <= u <= 0x30FF) || (0x4E00 <= u <= 0x9FFF) || (0x3400 <= u <= 0x4DBF)
}

/// A headword that will render: it holds Han or kana and no ASCII letter.
pub open spec fn spec_renderable_cjk(s: Seq<char>) -> bool {
    any_char(s, |c: char| is_cjk_renderable(c)) && !any_char(s, |c: char| is_ascii_alpha(c))
}

pub fn renderable_cjk(s: &str) -> (r: bool)
    ensures
        r == spec_renderable_cjk(s@),
{
    let cs = chars_of(s);
    let mut has_cjk = false;
    for i in 0..cs.len()
        invariant
            cs@ == s@,
            has_cjk == exists|j: int| 0 <= j < i && is_cjk_renderable(s@[j]),
    {
        let u = cs[i] as u32;
        if (0x3040 <= u && u <= 0x30FF) || (0x4E00 <= u && u <= 0x9FFF) || (0x3400 <= u && u
            <= 0x4DBF) {
            has_cjk = true;
        }
    }
    has_cjk && !any_ascii_alpha(&cs)
}

/// Radical-variant forms and the character whose meaning they carry (亻→人, 氵→水, …).
pub open spec fn spec_radical_parent(c: char) -> char {
    if c == '亻' {
        '人'
    } else if c == '氵' {
        '水'
    } else if c == '扌' {
        '手'
    } else if c == '艹' {
        '艸'
    } else if c == '灬' {
        '火'
    } else if c == '忄' || c == '㣺' {
        '心'
    } else if c == '訁' {
        '言'
    } else if c == '糹' || c == '纟' {
        '糸'
    } else if c == '釒' || c == '钅' {
        '金'
    } else if c == '刂' {
        '刀'
    } else if c == '辶' {
        '辵'
    } else if c == '礻' {
        '示'
    } else if c == '衤' {
        '衣'
    } else if c == '罒' {
        '网'
    } else if c == '冫' {
        '冰'
    } else if c == '飠' || c == '饣' {
        '食'
    } else if c == '⺹' {
        '老'
    } else {
        c
    }
}

pub fn radical_parent(c: char) -> (r: char)
    ensures
        r == spec_radical_parent(c),
{
    if c == '亻' {
        '人'
    } else if c == '氵' {
        '水'
    } else if c == '扌' {
        '手'
    } else if c == '艹' {
        '艸'
    } else if c == '灬' {
        '火'
    } else if c == '忄' || c == '㣺' {
        '心'
    } else if c == '訁' {
        '言'
    } else if c == '糹' || c == '纟' {
        '糸'
    } else if c == '釒' || c == '钅' {
        '金'
    } else if c == '刂' {
        '刀'
    } else if c == '辶' {
        '辵'
    } else if c == '礻' {
        '示'
    } else if c == '衤' {
        '衣'
    } else if c == '罒' {
        '网'
    } else if c == '冫' {
        '冰'
    } else if c == '飠' || c == '饣' {
        '食'
    } else if c == '⺹' {
        '老'
    } else {
        c
    }
}

/// String equality on string slices.
pub fn str_eq(a: &str, b: &str) -> (r: bool)
    ensures
        r == (a@ == b@),
{
    let x = chars_of(a);
    let y = chars_of(b);
    seq_eq(&x, &y)
}

/// The script an identity edge produces.
pub open spec fn spec_script_of(edge_type: Seq<char>) -> Seq<char> {
    if edge_type == "simplification"@ {
        "simplified"@
    } else if edge_type == "shinjitai"@ {
        "shinjitai"@
    } else if edge_type == "z-variant"@ {
        "z-variant"@
    } else {
        "variant"@
    }
}

pub fn script_of(edge_type: &str) -> (r: &'static str)
    ensures
        r@ == spec_script_of(edge_type@),
{
    if str_eq(edge_type, "simplification") {
        "simplified"
    } else if str_eq(edge_type, "shinjitai") {
        "shinjitai"
    } else if str_eq(edge_type, "z-variant") {
        "z-variant"
    } else {
        "variant"
    }
}

/// Plain-language name of a reform id; an unknown id names itself.
pub open spec fn spec_reform_label(id: Seq<char>) -> Seq<char> {
    if id == "opencc"@ || id == "prc-1956"@ || id == "prc-1964"@ {
        "PRC simplification"@
    } else if id == "jp-toyo"@ {
        "Tōyō shinjitai"@
    } else if id == "jp-joyo"@ {
        "Jōyō shinjitai"@
    } else if id == "hk-std"@ {
        "HK standard"@
    } else if id == "tw-std"@ {
        "TW standard"@
    } else if id == "unihan-variant"@ {
        "variant"@
    } else {
        id
    }
}

pub fn reform_label(reform_id: Option<&str>) -> (r: Option<String>)
    ensures
        reform_id is None ==> r is None,
        reform_id matches Some(id) ==> (r matches Some(l) && l@ == spec_reform_label(id@)),
{
    let id = match reform_id {
        Some(id) => id,
        None => return None,
    };
    let label = if str_eq(id, "opencc") || str_eq(id, "prc-1956") || str_eq(id, "prc-1964") {
        "PRC simplification"
    } else if str_eq(id, "jp-toyo") {
        "Tōyō shinjitai"
    } else if str_eq(id, "jp-joyo") {
        "Jōyō shinjitai"
    } else if str_eq(id, "hk-std") {
        "HK standard"
    } else if str_eq(id, "tw-std") {
        "TW standard"
    } else if str_eq(id, "unihan-variant") {
        "variant"
    } else {
        return Some(id.to_owned());
    };
    Some(label.to_owned())
}

} // verus!

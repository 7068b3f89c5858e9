//! Query folding: toneless pinyin, canonical romaji, LIKE escaping, the English full-text query,
//! and the GLOB pattern of a wildcard search.
use vstd::prelude::*;
use crate::chars::{
    ascii_lower, ch_ascii_lower, ch_is_ascii_alpha, char_alphanumeric, char_lowercase, chars_of,
    is_alphanumeric, is_ascii_alpha, is_ascii_lower, lower_char, lower_str, occurs_at,
    occurs_at_exec, str_lowercase, string_of, append_vec,
};

verus! {

// ---------------------------------------------------------------------------------------------
// Pinyin
// ---------------------------------------------------------------------------------------------
/// The toneless key a single character contributes to a pinyin fold: tone-marked vowels lose the
/// mark, ü (any tone) becomes `v`, ASCII letters are lowercased, and anything else (spaces,
/// tone digits, apostrophes) contributes nothing.
pub open spec fn pinyin_base(c: char) -> Option<char> {
    if c == 'ā' || c == 'á' || c == 'ǎ' || c == 'à' || c == 'a' {
        Some('a')
    } else if c == 'ē' || c == 'é' || c == 'ě' || c == 'è' || c == 'e' {
        Some('e')
    } else if c == 'ī' || c == 'í' || c == 'ǐ' || c == 'ì' || c == 'i' {
        Some('i')
    } else if c == 'ō' || c == 'ó' || c == 'ǒ' || c == 'ò' || c == 'o' {
        Some('o')
    } else if c == 'ū' || c == 'ú' || c == 'ǔ' || c == 'ù' || c == 'u' {
        Some('u')
    } else if c == 'ǖ' || c == 'ǘ' || c == 'ǚ' || c == 'ǜ' || c == 'ü' {
        Some('v')
    } else if is_ascii_alpha(c) {
        Some(ascii_lower(c))
    } else {
        None
    }
}

pub open spec fn spec_pinyin_plain(s: Seq<char>) -> Seq<char>
    decreases s.len(),
{
    if s.len() == 0 {
        Seq::empty()
    } else {
        let rest = spec_pinyin_plain(s.drop_last());
        match pinyin_base(s.last()) {
            Some(b) => rest.push(b),
            None => rest,
        }
    }
}

fn pinyin_base_exec(c: char) -> (r: Option<char>)
    ensures
        r == pinyin_base(c),
{
    if c == 'ā' || c == 'á' || c == 'ǎ' || c == 'à' || c == 'a' {
        Some('a')
    } else if c == 'ē' || c == 'é' || c == 'ě' || c == 'è' || c == 'e' {
        Some('e')
    } else if c == 'ī' || c == 'í' || c == 'ǐ' || c == 'ì' || c == 'i' {
        Some('i')
    } else if c == 'ō' || c == 'ó' || c == 'ǒ' || c == 'ò' || c == 'o' {
        Some('o')
    } else if c == 'ū' || c == 'ú' || c == 'ǔ' || c == 'ù' || c == 'u' {
        Some('u')
    } else if c == 'ǖ' || c == 'ǘ' || c == 'ǚ' || c == 'ǜ' || c == 'ü' {
        Some('v')
    } else if ch_is_ascii_alpha(c) {
        Some(ch_ascii_lower(c))
    } else {
        None
    }
}

/// Tone-mark, tone-number and toneless pinyin all fold to the same toneless key.
pub fn pinyin_plain(q: &str) -> (r: String)
    ensures
        r@ == spec_pinyin_plain(q@),
{
    let cs = chars_of(q);
    let mut out: Vec<char> = Vec::new();
    for i in 0..cs.len()
        invariant
            cs@ == q@,
            out@ == spec_pinyin_plain(q@.take(i as int)),
    {
        proof {
            assert(q@.take(i + 1).drop_last() =~= q@.take(i as int));
        }
        match pinyin_base_exec(cs[i]) {
            Some(b) => out.push(b),
            None => {},
        }
    }
    proof {
        assert(q@.take(cs.len() as int) =~= q@);
    }
    string_of(&out)
}

pub open spec fn all_ascii_lower(s: Seq<char>) -> bool {
    forall|i: int| 0 <= i < s.len() ==> is_ascii_lower(#[trigger] s[i])
}

/// What one more character adds to a pinyin key: ü with any tone mark or none (ǖ ǘ ǚ ǜ ü) adds
/// `v`; u with any tone mark or none (ū ú ǔ ù u) adds `u`, and likewise for a, e, i, o; a tone
/// number, a space or an apostrophe adds nothing. So "nǚ" keys as "nv", apart from "nǔ" ("nu").
pub proof fn law_pinyin_vowels(s: Seq<char>, c: char)
    ensures
        (c == 'ǖ' || c == 'ǘ' || c == 'ǚ' || c == 'ǜ' || c == 'ü') ==> spec_pinyin_plain(s.push(c))
            == spec_pinyin_plain(s).push('v'),
        (c == 'ū' || c == 'ú' || c == 'ǔ' || c == 'ù' || c == 'u') ==> spec_pinyin_plain(s.push(c))
            == spec_pinyin_plain(s).push('u'),
        (c == 'ā' || c == 'á' || c == 'ǎ' || c == 'à' || c == 'a') ==> spec_pinyin_plain(s.push(c))
            == spec_pinyin_plain(s).push('a'),
        (c == 'ē' || c == 'é' || c == 'ě' || c == 'è' || c == 'e') ==> spec_pinyin_plain(s.push(c))
            == spec_pinyin_plain(s).push('e'),
        (c == 'ī' || c == 'í' || c == 'ǐ' || c == 'ì' || c == 'i') ==> spec_pinyin_plain(s.push(c))
            == spec_pinyin_plain(s).push('i'),
        (c == 'ō' || c == 'ó' || c == 'ǒ' || c == 'ò' || c == 'o') ==> spec_pinyin_plain(s.push(c))
            == spec_pinyin_plain(s).push('o'),
        ('0' <= c <= '9' || c == ' ' || c == '\'') ==> spec_pinyin_plain(s.push(c)) == spec_pinyin_plain(s),
        spec_pinyin_plain(s.push('ǚ')) != spec_pinyin_plain(s.push('ǔ')),
{
    assert(s.push(c).drop_last() =~= s);
    assert(s.push('ǚ').drop_last() =~= s);
    assert(s.push('ǔ').drop_last() =~= s);
    let a = spec_pinyin_plain(s.push('ǚ'));
    let b = spec_pinyin_plain(s.push('ǔ'));
    assert(a.last() == 'v' && b.last() == 'u');
}

proof fn lemma_pinyin_fixes_lower(s: Seq<char>)
    requires
        all_ascii_lower(s),
    ensures
        spec_pinyin_plain(s) == s,
    decreases s.len(),
{
    if s.len() > 0 {
        lemma_pinyin_fixes_lower(s.drop_last());
        assert(is_ascii_lower(s.last()));
        assert(s.drop_last().push(s.last()) =~= s);
    }
}

/// A pinyin key is made only of lowercase ASCII letters, and folding a key again changes
/// nothing: the fold is a normal form, so stored keys and query keys compare directly.
pub proof fn law_pinyin_fold_normal_form(s: Seq<char>)
    ensures
        all_ascii_lower(spec_pinyin_plain(s)),
        spec_pinyin_plain(spec_pinyin_plain(s)) == spec_pinyin_plain(s),
    decreases s.len(),
{
    if s.len() > 0 {
        law_pinyin_fold_normal_form(s.drop_last());
    }
    lemma_pinyin_fixes_lower(spec_pinyin_plain(s));
}

// ---------------------------------------------------------------------------------------------
// Romaji
// ---------------------------------------------------------------------------------------------
/// Macron and circumflex vowels, lowercase or capital, unfolded to the plain lowercase vowel.
pub open spec fn romaji_unmark(c: char) -> char {
    if c == 'ā' || c == 'â' || c == 'Ā' || c == 'Â' {
        'a'
    } else if c == 'ī' || c == 'î' || c == 'Ī' || c == 'Î' {
        'i'
    } else if c == 'ū' || c == 'û' || c == 'Ū' || c == 'Û' {
        'u'
    } else if c == 'ē' || c == 'ê' || c == 'Ē' || c == 'Ê' {
        'e'
    } else if c == 'ō' || c == 'ô' || c == 'Ō' || c == 'Ô' {
        'o'
    } else {
        c
    }
}

pub open spec fn ascii_alpha_only(s: Seq<char>) -> Seq<char> {
    s.filter(|c: char| is_ascii_alpha(c))
}

/// Letters of a romaji query: each character unmarked, lowercased, and only ASCII letters kept.
pub open spec fn romaji_letters(s: Seq<char>) -> Seq<char>
    decreases s.len(),
{
    if s.len() == 0 {
        Seq::empty()
    } else {
        romaji_letters(s.drop_last()) + ascii_alpha_only(char_lowercase(romaji_unmark(s.last())))
    }
}

/// `str::replace`: every non-overlapping occurrence of `a`, scanning left to right, becomes `b`.
pub open spec fn replace_all(s: Seq<char>, a: Seq<char>, b: Seq<char>) -> Seq<char>
    recommends
        a.len() > 0,
    decreases s.len(),
{
    if s.len() == 0 || a.len() == 0 {
        s
    } else if occurs_at(s, a, 0) {
        b + replace_all(s.skip(a.len() as int), a, b)
    } else {
        seq![s[0]] + replace_all(s.drop_first(), a, b)
    }
}

/// The canonical romaji key: wapuro/kunrei digraphs to Hepburn, `m` before a labial to `n`, then
/// long vowels collapsed (tokyo = toukyou = tōkyō, shinbun = shimbun).
pub open spec fn spec_romaji_plain(q: Seq<char>) -> Seq<char> {
    let s0 = romaji_letters(q);
    let s1 = replace_all(s0, "jy"@, "j"@);
    let s2 = replace_all(s1, "zy"@, "j"@);
    let s3 = replace_all(s2, "sy"@, "sh"@);
    let s4 = replace_all(s3, "ty"@, "ch"@);
    let s5 = replace_all(s4, "mb"@, "nb"@);
    let s6 = replace_all(s5, "mp"@, "np"@);
    let s7 = replace_all(s6, "mm"@, "nm"@);
    let s8 = replace_all(s7, "ou"@, "o"@);
    let s9 = replace_all(s8, "oo"@, "o"@);
    let s10 = replace_all(s9, "uu"@, "u"@);
    let s11 = replace_all(s10, "ee"@, "e"@);
    let s12 = replace_all(s11, "ei"@, "e"@);
    let s13 = replace_all(s12, "aa"@, "a"@);
    replace_all(s13, "ii"@, "i"@)
}

fn romaji_unmark_exec(c: char) -> (r: char)
    ensures
        r == romaji_unmark(c),
{
    if c == 'ā' || c == 'â' || c == 'Ā' || c == 'Â' {
        'a'
    } else if c == 'ī' || c == 'î' || c == 'Ī' || c == 'Î' {
        'i'
    } else if c == 'ū' || c == 'û' || c == 'Ū' || c == 'Û' {
        'u'
    } else if c == 'ē' || c == 'ê' || c == 'Ē' || c == 'Ê' {
        'e'
    } else if c == 'ō' || c == 'ô' || c == 'Ō' || c == 'Ô' {
        'o'
    } else {
        c
    }
}

/// `x` directly followed by `y` occurs nowhere in `s`.
pub open spec fn no_pair(s: Seq<char>, x: char, y: char) -> bool {
    forall|i: int| 0 <= i < s.len() - 1 ==> !(#[trigger] s[i] == x && s[i + 1] == y)
}

/// A replacement's output starts with the replacement (at an occurrence) or with the first
/// character, and is empty only for an empty string.
proof fn lemma_replace_head(s: Seq<char>, a: Seq<char>, b: Seq<char>)
    requires
        a.len() > 0,
        b.len() > 0,
    ensures
        s.len() > 0 ==> replace_all(s, a, b).len() > 0 && if occurs_at(s, a, 0) {
            replace_all(s, a, b)[0] == b[0]
        } else {
            replace_all(s, a, b)[0] == s[0]
        },
{
}

/// Replacing every `x y` by `z y` (`x`, `y`, `z` all different) leaves no `x y` behind.
proof fn lemma_replace_kills_pair(s: Seq<char>, x: char, y: char, z: char)
    requires
        x != y,
        z != y,
        z != x,
    ensures
        no_pair(replace_all(s, seq![x, y], seq![z, y]), x, y),
    decreases s.len(),
{
    let a = seq![x, y];
    let b = seq![z, y];
    if s.len() > 0 {
        let r = replace_all(s, a, b);
        if occurs_at(s, a, 0) {
            let rest = s.skip(2);
            lemma_replace_kills_pair(rest, x, y, z);
            lemma_replace_head(rest, a, b);
            let rr = replace_all(rest, a, b);
            assert(r =~= b + rr);
            assert forall|i: int| 0 <= i < r.len() - 1 implies !(#[trigger] r[i] == x && r[i + 1] == y) by {
                if i >= 2 {
                    assert(r[i] == rr[i - 2] && r[i + 1] == rr[i - 1]);
                }
            }
        } else {
            let rest = s.drop_first();
            lemma_replace_kills_pair(rest, x, y, z);
            lemma_replace_head(rest, a, b);
            let rr = replace_all(rest, a, b);
            assert(r =~= seq![s[0]] + rr);
            assert forall|i: int| 0 <= i < r.len() - 1 implies !(#[trigger] r[i] == x && r[i + 1] == y) by {
                if i >= 1 {
                    assert(r[i] == rr[i - 1] && r[i + 1] == rr[i]);
                } else {
                    if rest.len() > 0 && !occurs_at(rest, a, 0) && s[0] == x && rest[0] == y {
                        assert(s.subrange(0, 2) =~= a);
                    }
                }
            }
        }
    }
}

/// A replacement keeps a string free of `x y` when the replacement text has no `x y` inside,
/// does not start with `y`, and ends either not with `x` or with the last character of what
/// it replaces.
proof fn lemma_replace_keeps_pair_free(s: Seq<char>, a: Seq<char>, b: Seq<char>, x: char, y: char)
    requires
        a.len() > 0,
        b.len() > 0,
        no_pair(s, x, y),
        no_pair(b, x, y),
        b[0] != y,
        b.last() != x || b.last() == a.last(),
    ensures
        no_pair(replace_all(s, a, b), x, y),
    decreases s.len(),
{
    if s.len() > 0 {
        let r = replace_all(s, a, b);
        if occurs_at(s, a, 0) {
            let rest = s.skip(a.len() as int);
            assert(no_pair(rest, x, y)) by {
                assert forall|i: int| 0 <= i < rest.len() - 1 implies !(#[trigger] rest[i] == x && rest[i + 1] == y) by {
                    assert(rest[i] == s[i + a.len()] && rest[i + 1] == s[i + 1 + a.len()]);
                }
            }
            lemma_replace_keeps_pair_free(rest, a, b, x, y);
            lemma_replace_head(rest, a, b);
            let rr = replace_all(rest, a, b);
            assert(r =~= b + rr);
            assert forall|i: int| 0 <= i < r.len() - 1 implies !(#[trigger] r[i] == x && r[i + 1] == y) by {
                if i < b.len() - 1 {
                    assert(r[i] == b[i] && r[i + 1] == b[i + 1]);
                } else if i == b.len() - 1 {
                    assert(r[i] == b.last());
                    assert(r[i + 1] == rr[0]);
                    if b.last() == x && rr[0] == y {
                        assert(b.last() == a.last());
                        assert(s.subrange(0, a.len() as int) == a);
                        assert(s[a.len() - 1] == a.last());
                        if occurs_at(rest, a, 0) {
                            assert(rr[0] == b[0]);
                        } else {
                            assert(rr[0] == rest[0]);
                            assert(rest[0] == s[a.len() as int]);
                        }
                    }
                } else {
                    assert(r[i] == rr[i - b.len()] && r[i + 1] == rr[i + 1 - b.len()]);
                }
            }
        } else {
            let rest = s.drop_first();
            assert(no_pair(rest, x, y)) by {
                assert forall|i: int| 0 <= i < rest.len() - 1 implies !(#[trigger] rest[i] == x && rest[i + 1] == y) by {
                    assert(rest[i] == s[i + 1] && rest[i + 1] == s[i + 2]);
                }
            }
            lemma_replace_keeps_pair_free(rest, a, b, x, y);
            lemma_replace_head(rest, a, b);
            let rr = replace_all(rest, a, b);
            assert(r =~= seq![s[0]] + rr);
            assert forall|i: int| 0 <= i < r.len() - 1 implies !(#[trigger] r[i] == x && r[i + 1] == y) by {
                if i >= 1 {
                    assert(r[i] == rr[i - 1] && r[i + 1] == rr[i]);
                } else if rest.len() > 0 {
                    if occurs_at(rest, a, 0) {
                        assert(rr[0] == b[0]);
                    } else {
                        assert(rr[0] == rest[0] && rest[0] == s[1]);
                    }
                }
            }
        }
    }
}

proof fn lemma_vowel_pass_keeps(s: Seq<char>, a: Seq<char>, b: Seq<char>)
    requires
        a.len() > 0,
        b.len() > 0,
        forall|k: int| 0 <= k < b.len() ==> #[trigger] b[k] != 'm' && b[k] != 'b' && b[k] != 'p',
        no_pair(s, 'm', 'b'),
        no_pair(s, 'm', 'p'),
    ensures
        no_pair(replace_all(s, a, b), 'm', 'b'),
        no_pair(replace_all(s, a, b), 'm', 'p'),
{
    assert(b[0] != 'b' && b[0] != 'p' && b.last() != 'm');
    assert(no_pair(b, 'm', 'b') && no_pair(b, 'm', 'p'));
    lemma_replace_keeps_pair_free(s, a, b, 'm', 'b');
    lemma_replace_keeps_pair_free(s, a, b, 'm', 'p');
}

/// In a romaji key `m` never stands before `b` or `p`: it is written `n` there (tempura and
/// tenpura, kampai and kanpai, sempai and senpai key alike), whatever the query.
pub proof fn law_romaji_n_before_labials(q: Seq<char>)
    ensures
        no_pair(spec_romaji_plain(q), 'm', 'b'),
        no_pair(spec_romaji_plain(q), 'm', 'p'),
{
    reveal_strlit("jy");
    reveal_strlit("zy");
    reveal_strlit("sy");
    reveal_strlit("ty");
    reveal_strlit("j");
    reveal_strlit("sh");
    reveal_strlit("ch");
    reveal_strlit("mb");
    reveal_strlit("nb");
    reveal_strlit("mp");
    reveal_strlit("np");
    reveal_strlit("mm");
    reveal_strlit("nm");
    reveal_strlit("ou");
    reveal_strlit("oo");
    reveal_strlit("uu");
    reveal_strlit("ee");
    reveal_strlit("ei");
    reveal_strlit("aa");
    reveal_strlit("ii");
    reveal_strlit("o");
    reveal_strlit("u");
    reveal_strlit("e");
    reveal_strlit("a");
    reveal_strlit("i");
    let s0 = romaji_letters(q);
    let s1 = replace_all(s0, "jy"@, "j"@);
    let s2 = replace_all(s1, "zy"@, "j"@);
    let s3 = replace_all(s2, "sy"@, "sh"@);
    let s4 = replace_all(s3, "ty"@, "ch"@);
    let s5 = replace_all(s4, "mb"@, "nb"@);
    let s6 = replace_all(s5, "mp"@, "np"@);
    let s7 = replace_all(s6, "mm"@, "nm"@);
    let s8 = replace_all(s7, "ou"@, "o"@);
    let s9 = replace_all(s8, "oo"@, "o"@);
    let s10 = replace_all(s9, "uu"@, "u"@);
    let s11 = replace_all(s10, "ee"@, "e"@);
    let s12 = replace_all(s11, "ei"@, "e"@);
    let s13 = replace_all(s12, "aa"@, "a"@);
    assert("mb"@ =~= seq!['m', 'b'] && "nb"@ =~= seq!['n', 'b']);
    assert("mp"@ =~= seq!['m', 'p'] && "np"@ =~= seq!['n', 'p']);
    lemma_replace_kills_pair(s4, 'm', 'b', 'n');
    lemma_replace_kills_pair(s5, 'm', 'p', 'n');
    // s6 keeps s5 free of "mb": "np" neither starts with b nor ends with m
    assert(no_pair("np"@, 'm', 'b'));
    lemma_replace_keeps_pair_free(s5, "mp"@, "np"@, 'm', 'b');
    // s7: "nm" replaces "mm", ending in the m it replaces
    assert(no_pair("nm"@, 'm', 'b') && no_pair("nm"@, 'm', 'p'));
    lemma_replace_keeps_pair_free(s6, "mm"@, "nm"@, 'm', 'b');
    lemma_replace_keeps_pair_free(s6, "mm"@, "nm"@, 'm', 'p');
    lemma_vowel_pass_keeps(s7, "ou"@, "o"@);
    lemma_vowel_pass_keeps(s8, "oo"@, "o"@);
    lemma_vowel_pass_keeps(s9, "uu"@, "u"@);
    lemma_vowel_pass_keeps(s10, "ee"@, "e"@);
    lemma_vowel_pass_keeps(s11, "ei"@, "e"@);
    lemma_vowel_pass_keeps(s12, "aa"@, "a"@);
    lemma_vowel_pass_keeps(s13, "ii"@, "i"@);
}

proof fn lemma_replace_all_step(s: Seq<char>, a: Seq<char>, b: Seq<char>, i: int)
    requires
        a.len() > 0,
        0 <= i < s.len(),
    ensures
        occurs_at(s, a, i) ==> replace_all(s.skip(i), a, b) == b + replace_all(
            s.skip(i + a.len()),
            a,
            b,
        ),
        !occurs_at(s, a, i) ==> replace_all(s.skip(i), a, b) == seq![s[i]] + replace_all(
            s.skip(i + 1),
            a,
            b,
        ),
{
    let t = s.skip(i);
    assert(t.len() > 0);
    if occurs_at(s, a, i) {
        assert(t.subrange(0, a.len() as int) =~= s.subrange(i, i + a.len()));
        assert(t.skip(a.len() as int) =~= s.skip(i + a.len()));
    } else {
        if occurs_at(t, a, 0) {
            assert(t.subrange(0, a.len() as int) =~= s.subrange(i, i + a.len()));
        }
        assert(t.drop_first() =~= s.skip(i + 1));
    }
}

/// `str::replace` on a character vector.
fn replace_vec(s: &Vec<char>, a: &Vec<char>, b: &Vec<char>) -> (r: Vec<char>)
    requires
        a.len() > 0,
    ensures
        r@ == replace_all(s@, a@, b@),
{
    let mut out: Vec<char> = Vec::new();
    let mut i: usize = 0;
    assert(s@.skip(0) =~= s@);
    while i < s.len()
        invariant
            a.len() > 0,
            i <= s.len(),
            out@ + replace_all(s@.skip(i as int), a@, b@) == replace_all(s@, a@, b@),
        decreases s.len() - i,
    {
        proof {
            lemma_replace_all_step(s@, a@, b@, i as int);
        }
        if occurs_at_exec(s, a, i) {
            let ghost o = out@;
            append_vec(&mut out, b);
            assert(out@ + replace_all(s@.skip(i + a.len()), a@, b@) =~= o + (b@ + replace_all(
                s@.skip(i + a.len()),
                a@,
                b@,
            )));
            i = i + a.len();
        } else {
            let ghost o = out@;
            out.push(s[i]);
            assert(out@ + replace_all(s@.skip(i + 1), a@, b@) =~= o + (seq![s@[i as int]]
                + replace_all(s@.skip(i + 1), a@, b@)));
            i = i + 1;
        }
    }
    proof {
        assert(s@.skip(i as int).len() == 0);
        assert(out@ + replace_all(s@.skip(i as int), a@, b@) =~= out@);
    }
    out
}

fn replace_str(s: &Vec<char>, a: &str, b: &str) -> (r: Vec<char>)
    requires
        a@.len() > 0,
    ensures
        r@ == replace_all(s@, a@, b@),
{
    let av = chars_of(a);
    let bv = chars_of(b);
    replace_vec(s, &av, &bv)
}

fn ascii_alpha_only_exec(v: &Vec<char>) -> (r: Vec<char>)
    ensures
        r@ == ascii_alpha_only(v@),
{
    let mut out: Vec<char> = Vec::new();
    for i in 0..v.len()
        invariant
            out@ == ascii_alpha_only(v@.take(i as int)),
    {
        proof {
            assert(v@.take(i + 1).drop_last() =~= v@.take(i as int));
            v@.take(i as int).lemma_filter_push(v@[i as int], |c: char| is_ascii_alpha(c));
            assert(v@.take(i as int).push(v@[i as int]) =~= v@.take(i + 1));
        }
        if ch_is_ascii_alpha(v[i]) {
            out.push(v[i]);
        }
    }
    proof {
        assert(v@.take(v.len() as int) =~= v@);
    }
    out
}

/// Fold a romaji query to the canonical key stored for Japanese readings.
pub fn romaji_plain(q: &str) -> (r: String)
    ensures
        r@ == spec_romaji_plain(q@),
{
    let cs = chars_of(q);
    let mut s: Vec<char> = Vec::new();
    for i in 0..cs.len()
        invariant
            cs@ == q@,
            s@ == romaji_letters(q@.take(i as int)),
    {
        proof {
            assert(q@.take(i + 1).drop_last() =~= q@.take(i as int));
        }
        let low = lower_char(romaji_unmark_exec(cs[i]));
        let kept = ascii_alpha_only_exec(&low);
        append_vec(&mut s, &kept);
    }
    proof {
        assert(q@.take(cs.len() as int) =~= q@);
        reveal_strlit("jy");
        reveal_strlit("zy");
        reveal_strlit("sy");
        reveal_strlit("ty");
        reveal_strlit("mb");
        reveal_strlit("mp");
        reveal_strlit("mm");
        reveal_strlit("ou");
        reveal_strlit("oo");
        reveal_strlit("uu");
        reveal_strlit("ee");
        reveal_strlit("ei");
        reveal_strlit("aa");
        reveal_strlit("ii");
    }
    let s = replace_str(&s, "jy", "j");
    let s = replace_str(&s, "zy", "j");
    let s = replace_str(&s, "sy", "sh");
    let s = replace_str(&s, "ty", "ch");
    let s = replace_str(&s, "mb", "nb");
    let s = replace_str(&s, "mp", "np");
    let s = replace_str(&s, "mm", "nm");
    let s = replace_str(&s, "ou", "o");
    let s = replace_str(&s, "oo", "o");
    let s = replace_str(&s, "uu", "u");
    let s = replace_str(&s, "ee", "e");
    let s = replace_str(&s, "ei", "e");
    let s = replace_str(&s, "aa", "a");
    let s = replace_str(&s, "ii", "i");
    string_of(&s)
}

// ---------------------------------------------------------------------------------------------
// LIKE escaping
// ---------------------------------------------------------------------------------------------
pub open spec fn like_special(c: char) -> bool {
    c == '%' || c == '_' || c == '\\'
}

/// Each `%`, `_` and `\` gets a preceding `\`, so a typed wildcard matches literally.
pub open spec fn spec_escape_like(s: Seq<char>) -> Seq<char>
    decreases s.len(),
{
    if s.len() == 0 {
        Seq::empty()
    } else if like_special(s.last()) {
        spec_escape_like(s.drop_last()).push('\\').push(s.last())
    } else {
        spec_escape_like(s.drop_last()).push(s.last())
    }
}

pub fn escape_like(s: &str) -> (r: String)
    ensures
        r@ == spec_escape_like(s@),
{
    let cs = chars_of(s);
    let mut o: Vec<char> = Vec::new();
    for i in 0..cs.len()
        invariant
            cs@ == s@,
            o@ == spec_escape_like(s@.take(i as int)),
    {
        proof {
            assert(s@.take(i + 1).drop_last() =~= s@.take(i as int));
        }
        let c = cs[i];
        if c == '%' || c == '_' || c == '\\' {
            o.push('\\');
        }
        o.push(c);
    }
    proof {
        assert(s@.take(cs.len() as int) =~= s@);
    }
    string_of(&o)
}

// ---------------------------------------------------------------------------------------------
// English full-text query
// ---------------------------------------------------------------------------------------------
/// The maximal non-empty runs of characters for which `sep` is false, in order, starting with a
/// pending run `cur`.
pub open spec fn words_from(s: Seq<char>, cur: Seq<char>, sep: spec_fn(char) -> bool) -> Seq<
    Seq<char>,
>
    decreases s.len(),
{
    if s.len() == 0 {
        if cur.len() > 0 {
            seq![cur]
        } else {
            Seq::empty()
        }
    } else if sep(s[0]) {
        (if cur.len() > 0 {
            seq![cur]
        } else {
            Seq::empty()
        }) + words_from(s.drop_first(), Seq::empty(), sep)
    } else {
        words_from(s.drop_first(), cur.push(s[0]), sep)
    }
}

/// The non-empty pieces of `s` between separator characters.
pub open spec fn words(s: Seq<char>, sep: spec_fn(char) -> bool) -> Seq<Seq<char>> {
    words_from(s, Seq::empty(), sep)
}

/// Pieces joined with `sep` between consecutive pieces.
pub open spec fn join(parts: Seq<Seq<char>>, sep: Seq<char>) -> Seq<char>
    decreases parts.len(),
{
    if parts.len() == 0 {
        Seq::empty()
    } else if parts.len() == 1 {
        parts[0]
    } else {
        join(parts.drop_last(), sep) + sep + parts.last()
    }
}

/// Strings joined with `sep` between consecutive ones.
pub fn join_strings(parts: &Vec<String>, sep: &str) -> (r: String)
    ensures
        r@ == join(parts@.map_values(|p: String| p@), sep@),
{
    let ghost pv = parts@.map_values(|p: String| p@);
    let sv = chars_of(sep);
    let mut out: Vec<char> = Vec::new();
    for i in 0..parts.len()
        invariant
            pv == parts@.map_values(|p: String| p@),
            sv@ == sep@,
            out@ == join(pv.take(i as int), sep@),
    {
        if i > 0 {
            append_vec(&mut out, &sv);
        }
        let pc = chars_of(parts[i].as_str());
        append_vec(&mut out, &pc);
        proof {
            assert(pv.take(i + 1).drop_last() =~= pv.take(i as int));
            assert(pv.take(i + 1).last() == pv[i as int]);
            if i == 0 {
                assert(out@ =~= pv[0]);
            } else {
                assert(out@ =~= join(pv.take(i as int), sep@) + sep@ + pv[i as int]);
            }
        }
    }
    proof {
        assert(pv.take(parts.len() as int) =~= pv);
    }
    string_of(&out)
}

pub open spec fn not_alphanumeric(c: char) -> bool {
    !char_alphanumeric(c)
}

pub open spec fn fts_term(t: Seq<char>) -> Seq<char> {
    seq!['"'] + str_lowercase(t) + seq!['"']
}

/// The FTS5 query: every alphanumeric token of the query, lowercased and quoted, joined with
/// `AND` so word order never changes the result; `None` when the query has no token.
pub open spec fn spec_fts_query(q: Seq<char>) -> Option<Seq<char>> {
    let toks = words(q, |c: char| not_alphanumeric(c));
    if toks.len() == 0 {
        None
    } else {
        Some(join(toks.map_values(|t: Seq<char>| fts_term(t)), " AND "@))
    }
}

/// The quoted, lowercased terms a query's FTS conjunction is made of, in query order.
pub open spec fn fts_terms(q: Seq<char>) -> Seq<Seq<char>> {
    words(q, |c: char| not_alphanumeric(c)).map_values(|t: Seq<char>| fts_term(t))
}

/// Word order never changes an English search: two queries made of the same words, in any
/// order, give FTS conjunctions of the same terms (and `AND` does not depend on the order or
/// repetition of its terms).
pub proof fn law_fts_terms_ignore_order(q1: Seq<char>, q2: Seq<char>)
    requires
        words(q1, |c: char| not_alphanumeric(c)).to_set() == words(q2, |c: char| not_alphanumeric(c)).to_set(),
    ensures
        fts_terms(q1).to_set() == fts_terms(q2).to_set(),
        spec_fts_query(q1) is Some <==> spec_fts_query(q2) is Some,
{
    let w1 = words(q1, |c: char| not_alphanumeric(c));
    let w2 = words(q2, |c: char| not_alphanumeric(c));
    let t1 = fts_terms(q1);
    let t2 = fts_terms(q2);
    assert forall|x: Seq<char>| t1.to_set().contains(x) implies t2.to_set().contains(x) by {
        let i = choose|i: int| 0 <= i < t1.len() && t1[i] == x;
        assert(w1.to_set().contains(w1[i]));
        assert(w2.to_set().contains(w1[i]));
        let j = choose|j: int| 0 <= j < w2.len() && w2[j] == w1[i];
        assert(t2[j] == x);
    }
    assert forall|x: Seq<char>| t2.to_set().contains(x) implies t1.to_set().contains(x) by {
        let j = choose|j: int| 0 <= j < t2.len() && t2[j] == x;
        assert(w2.to_set().contains(w2[j]));
        assert(w1.to_set().contains(w2[j]));
        let i = choose|i: int| 0 <= i < w1.len() && w1[i] == w2[j];
        assert(t1[i] == x);
    }
    assert(t1.to_set() =~= t2.to_set());
    if w1.len() > 0 {
        assert(w1.to_set().contains(w1[0]));
        assert(w2.to_set().contains(w1[0]));
    }
    if w2.len() > 0 {
        assert(w2.to_set().contains(w2[0]));
        assert(w1.to_set().contains(w2[0]));
    }
}

proof fn lemma_words_step(s: Seq<char>, i: int, cur: Seq<char>, sep: spec_fn(char) -> bool)
    requires
        0 <= i < s.len(),
    ensures
        words_from(s.skip(i), cur, sep) == (if sep(s[i]) {
            (if cur.len() > 0 {
                seq![cur]
            } else {
                Seq::<Seq<char>>::empty()
            }) + words_from(s.skip(i + 1), Seq::empty(), sep)
        } else {
            words_from(s.skip(i + 1), cur.push(s[i]), sep)
        }),
{
    assert(s.skip(i).drop_first() =~= s.skip(i + 1));
    assert(s.skip(i)[0] == s[i]);
}

/// The tokens of a query split on non-alphanumeric characters.
fn alnum_tokens(q: &Vec<char>) -> (r: Vec<Vec<char>>)
    ensures
        r@.map_values(|t: Vec<char>| t@) == words(q@, |c: char| not_alphanumeric(c)),
{
    let ghost sep = |c: char| not_alphanumeric(c);
    let mut out: Vec<Vec<char>> = Vec::new();
    let mut cur: Vec<char> = Vec::new();
    let mut i: usize = 0;
    assert(q@.skip(0) =~= q@);
    assert(cur@ =~= Seq::<char>::empty());
    assert(out@.map_values(|t: Vec<char>| t@) =~= Seq::<Seq<char>>::empty());
    while i < q.len()
        invariant
            i <= q.len(),
            sep == (|c: char| not_alphanumeric(c)),
            out@.map_values(|t: Vec<char>| t@) + words_from(q@.skip(i as int), cur@, sep) == words(
                q@,
                sep,
            ),
        decreases q.len() - i,
    {
        proof {
            lemma_words_step(q@, i as int, cur@, sep);
        }
        let c = q[i];
        if !is_alphanumeric(c) {
            if cur.len() > 0 {
                let ghost o = out@;
                let ghost cv = cur@;
                out.push(cur);
                proof {
                    assert(out@.map_values(|t: Vec<char>| t@) =~= o.map_values(|t: Vec<char>| t@).push(cv));
                    assert(o.map_values(|t: Vec<char>| t@).push(cv) =~= o.map_values(|t: Vec<char>| t@) + seq![cv]);
                }
            }
            cur = Vec::new();
            proof {
                assert(cur@ =~= Seq::<char>::empty());
            }
        } else {
            cur.push(c);
        }
        i += 1;
    }
    proof {
        assert(q@.skip(i as int) =~= Seq::<char>::empty());
    }
    if cur.len() > 0 {
        let ghost o = out@;
        let ghost cv = cur@;
        out.push(cur);
        proof {
            assert(out@.map_values(|t: Vec<char>| t@) =~= o.map_values(|t: Vec<char>| t@) + seq![cv]);
        }
    } else {
        proof {
            assert(out@.map_values(|t: Vec<char>| t@) =~= out@.map_values(|t: Vec<char>| t@) + Seq::<Seq<char>>::empty());
        }
    }
    out
}

/// Build a safe FTS5 AND-query from an English query; `None` when it has no word.
pub fn fts_query(q: &str) -> (r: Option<String>)
    ensures
        r is None <==> spec_fts_query(q@) is None,
        r matches Some(s) ==> spec_fts_query(q@) == Some(s@),
{
    let cs = chars_of(q);
    let toks = alnum_tokens(&cs);
    let ghost tv = toks@.map_values(|t: Vec<char>| t@);
    if toks.len() == 0 {
        return None;
    }
    let ghost terms = tv.map_values(|t: Seq<char>| fts_term(t));
    let mut out: Vec<char> = Vec::new();
    let mut i: usize = 0;
    while i < toks.len()
        invariant
            0 < toks.len(),
            i <= toks.len(),
            tv == toks@.map_values(|t: Vec<char>| t@),
            terms == tv.map_values(|t: Seq<char>| fts_term(t)),
            i > 0 ==> out@ == join(terms.take(i as int), " AND "@),
            i == 0 ==> out@.len() == 0,
        decreases toks.len() - i,
    {
        proof {
            reveal_strlit(" AND ");
        }
        if i > 0 {
            let sep = chars_of(" AND ");
            append_vec(&mut out, &sep);
        }
        let ts = string_of(&toks[i]);
        let low = lower_str(ts.as_str());
        let lowv = chars_of(low.as_str());
        out.push('"');
        append_vec(&mut out, &lowv);
        out.push('"');
        proof {
            assert(terms[i as int] == fts_term(toks@[i as int]@));
            assert(terms.take(i + 1).drop_last() =~= terms.take(i as int));
            assert(terms.take(i + 1).last() == terms[i as int]);
            assert(fts_term(toks@[i as int]@) =~= seq!['"'] + lowv@ + seq!['"']);
            if i == 0 {
                assert(out@ =~= terms[0]);
            } else {
                assert(out@ =~= join(terms.take(i as int), " AND "@) + " AND "@ + terms[i as int]);
            }
        }
        i += 1;
    }
    proof {
        assert(terms.take(toks.len() as int) =~= terms);
    }
    Some(string_of(&out))
}

// ---------------------------------------------------------------------------------------------
// Wildcard GLOB pattern
// ---------------------------------------------------------------------------------------------
/// What one query character becomes in the GLOB pattern: `*`/`＊` → `*`, `?`/`？` → `?`, a literal
/// `[` → `[[]` (GLOB has no ESCAPE clause), anything else itself.
pub open spec fn glob_piece(c: char) -> Seq<char> {
    if c == '*' || c == '＊' {
        seq!['*']
    } else if c == '?' || c == '？' {
        seq!['?']
    } else if c == '[' {
        "[[]"@
    } else {
        seq![c]
    }
}

pub open spec fn is_glob_literal(c: char) -> bool {
    !(c == '*' || c == '＊' || c == '?' || c == '？' || c == '[')
}

pub open spec fn spec_glob_pattern(q: Seq<char>) -> Seq<char>
    decreases q.len(),
{
    if q.len() == 0 {
        Seq::empty()
    } else {
        spec_glob_pattern(q.drop_last()) + glob_piece(q.last())
    }
}

/// The GLOB pattern of a wildcard query, or `None` when the query has no literal character
/// (a bare `*` or `?` would otherwise dump the whole corpus).
pub open spec fn spec_wildcard_glob(q: Seq<char>) -> Option<Seq<char>> {
    if q.filter(|c: char| is_glob_literal(c)).len() == 0 {
        None
    } else {
        Some(spec_glob_pattern(q))
    }
}

pub fn wildcard_glob(q: &str) -> (r: Option<String>)
    ensures
        r is None <==> spec_wildcard_glob(q@) is None,
        r matches Some(p) ==> spec_wildcard_glob(q@) == Some(p@),
{
    let cs = chars_of(q);
    let mut pat: Vec<char> = Vec::new();
    let mut literals: usize = 0;
    for i in 0..cs.len()
        invariant
            cs@ == q@,
            pat@ == spec_glob_pattern(q@.take(i as int)),
            literals == q@.take(i as int).filter(|c: char| is_glob_literal(c)).len(),
            literals <= i,
    {
        proof {
            assert(q@.take(i + 1).drop_last() =~= q@.take(i as int));
            q@.take(i as int).lemma_filter_push(q@[i as int], |c: char| is_glob_literal(c));
            assert(q@.take(i as int).push(q@[i as int]) =~= q@.take(i + 1));
            q@.take(i as int).lemma_filter_len(|c: char| is_glob_literal(c));
        }
        let c = cs[i];
        if c == '*' || c == '＊' {
            pat.push('*');
        } else if c == '?' || c == '？' {
            pat.push('?');
        } else if c == '[' {
            pat.push('[');
            pat.push('[');
            pat.push(']');
            proof {
                reveal_strlit("[[]");
                assert(pat@ =~= spec_glob_pattern(q@.take(i as int)) + "[[]"@);
            }
        } else {
            pat.push(c);
            literals = literals + 1;
        }
    }
    proof {
        assert(q@.take(cs.len() as int) =~= q@);
    }
    if literals == 0 {
        None
    } else {
        Some(string_of(&pat))
    }
}


// ---------------------------------------------------------------------------------------------
// How the database reads a pattern
// ---------------------------------------------------------------------------------------------
/// One unit of a LIKE or GLOB pattern as the database reads it.
pub enum PatternToken {
    /// exactly this character
    Lit(char),
    /// any run of characters (`%` in LIKE, `*` in GLOB)
    AnyRun,
    /// exactly one character (`_` in LIKE, `?` in GLOB)
    AnyOne,
    /// a GLOB character class `[...]`, with its members
    Class(Seq<char>),
}

/// A character read literally.
pub open spec fn lit(c: char) -> PatternToken {
    PatternToken::Lit(c)
}

/// Each character of `s` read literally.
pub open spec fn literals(s: Seq<char>) -> Seq<PatternToken> {
    s.map_values(|c: char| lit(c))
}

/// A LIKE pattern with `ESCAPE '\'`: `\` makes the next character literal, `%` and `_` are the
/// wildcards, anything else is literal.
pub open spec fn like_tokens(p: Seq<char>) -> Seq<PatternToken>
    decreases p.len(),
{
    if p.len() == 0 {
        Seq::empty()
    } else if p[0] == '\\' && p.len() >= 2 {
        seq![PatternToken::Lit(p[1])] + like_tokens(p.skip(2))
    } else if p[0] == '%' {
        seq![PatternToken::AnyRun] + like_tokens(p.drop_first())
    } else if p[0] == '_' {
        seq![PatternToken::AnyOne] + like_tokens(p.drop_first())
    } else {
        seq![PatternToken::Lit(p[0])] + like_tokens(p.drop_first())
    }
}

/// What one character of a query becomes in its escaped LIKE pattern.
pub open spec fn escape_piece(c: char) -> Seq<char> {
    if like_special(c) {
        seq!['\\', c]
    } else {
        seq![c]
    }
}

proof fn lemma_escape_front(s: Seq<char>)
    requires
        s.len() > 0,
    ensures
        spec_escape_like(s) == escape_piece(s[0]) + spec_escape_like(s.drop_first()),
    decreases s.len(),
{
    if s.len() == 1 {
        assert(s.drop_first() =~= Seq::<char>::empty());
        assert(s.drop_last() =~= Seq::<char>::empty());
        assert(spec_escape_like(s.drop_last()) == Seq::<char>::empty());
        assert(spec_escape_like(s) =~= escape_piece(s[0]));
    } else {
        lemma_escape_front(s.drop_last());
        assert(s.drop_last().drop_first() =~= s.drop_first().drop_last());
        assert(s.drop_last()[0] == s[0]);
        assert(s.drop_first().last() == s.last());
        assert(spec_escape_like(s) =~= escape_piece(s[0]) + spec_escape_like(s.drop_first()));
    }
}

proof fn lemma_escaped_reads_literally(s: Seq<char>, t: Seq<char>)
    ensures
        like_tokens(spec_escape_like(s) + t) == literals(s) + like_tokens(t),
    decreases s.len(),
{
    if s.len() == 0 {
        assert(spec_escape_like(s) + t =~= t);
        assert(literals(s).len() == 0);
        assert(literals(s) + like_tokens(t) =~= like_tokens(t));
    } else {
        lemma_escape_front(s);
        lemma_escaped_reads_literally(s.drop_first(), t);
        let x = spec_escape_like(s.drop_first()) + t;
        let p = spec_escape_like(s) + t;
        assert(p =~= escape_piece(s[0]) + x);
        if like_special(s[0]) {
            assert(p.skip(2) =~= x);
        } else {
            assert(p.drop_first() =~= x);
        }
        assert(literals(s) =~= seq![lit(s[0])] + literals(s.drop_first()));
        assert(like_tokens(p) =~= literals(s) + like_tokens(t));
    }
}

/// A typed `%`, `_` or `\\` is matched literally: the escaped query reads back as exactly its own
/// characters, and with a `%` appended (the autocomplete pattern) as "these characters, then
/// anything".
pub proof fn law_escaped_like_is_literal(s: Seq<char>)
    ensures
        like_tokens(spec_escape_like(s)) == literals(s),
        like_tokens(spec_escape_like(s).push('%')) == literals(s).push(PatternToken::AnyRun),
{
    lemma_escaped_reads_literally(s, Seq::empty());
    assert(spec_escape_like(s) + Seq::<char>::empty() =~= spec_escape_like(s));
    assert(literals(s) + like_tokens(Seq::<char>::empty()) =~= literals(s));
    lemma_escaped_reads_literally(s, seq!['%']);
    assert(spec_escape_like(s) + seq!['%'] =~= spec_escape_like(s).push('%'));
    assert(seq!['%'].drop_first() =~= Seq::<char>::empty());
    assert(seq!['%'][0] == '%');
    assert(like_tokens(seq!['%']) =~= seq![PatternToken::AnyRun] + like_tokens(Seq::<char>::empty()));
    assert(literals(s) + like_tokens(seq!['%']) =~= literals(s).push(PatternToken::AnyRun));
}

/// The first `]` at or after position `k`, or -1.
pub open spec fn close_at(p: Seq<char>, k: int) -> int
    decreases p.len() - k,
{
    if k < 0 || k >= p.len() {
        -1
    } else if p[k] == ']' {
        k
    } else {
        close_at(p, k + 1)
    }
}

pub proof fn lemma_close_at_bound(p: Seq<char>, k: int)
    ensures
        close_at(p, k) == -1 || (k <= close_at(p, k) < p.len()),
    decreases p.len() - k,
{
    if 0 <= k < p.len() && p[k] != ']' {
        lemma_close_at_bound(p, k + 1);
    }
}

/// A GLOB pattern: `*` and `?` are the wildcards, `[` opens a character class closed by the
/// first `]` after its first member, anything else is literal.
pub open spec fn glob_tokens(p: Seq<char>) -> Seq<PatternToken>
    decreases p.len(),
{
    if p.len() == 0 {
        Seq::empty()
    } else if p[0] == '*' {
        seq![PatternToken::AnyRun] + glob_tokens(p.drop_first())
    } else if p[0] == '?' {
        seq![PatternToken::AnyOne] + glob_tokens(p.drop_first())
    } else if p[0] == '[' && close_at(p, 2) >= 2 {
        proof {
            lemma_close_at_bound(p, 2);
        }
        seq![PatternToken::Class(p.subrange(1, close_at(p, 2)))] + glob_tokens(p.skip(close_at(p, 2) + 1))
    } else {
        seq![PatternToken::Lit(p[0])] + glob_tokens(p.drop_first())
    }
}

/// What a wildcard query character means: `*`/`＊` any run, `?`/`？` one character, `[` the
/// class of just `[` (that is, a literal `[`), anything else itself.
pub open spec fn wildcard_meaning(c: char) -> PatternToken {
    if c == '*' || c == '＊' {
        PatternToken::AnyRun
    } else if c == '?' || c == '？' {
        PatternToken::AnyOne
    } else if c == '[' {
        PatternToken::Class(seq!['['])
    } else {
        PatternToken::Lit(c)
    }
}

proof fn lemma_glob_front(q: Seq<char>)
    requires
        q.len() > 0,
    ensures
        spec_glob_pattern(q) == glob_piece(q[0]) + spec_glob_pattern(q.drop_first()),
    decreases q.len(),
{
    if q.len() == 1 {
        assert(q.drop_first() =~= Seq::<char>::empty());
        assert(q.drop_last() =~= Seq::<char>::empty());
        assert(spec_glob_pattern(q.drop_last()) == Seq::<char>::empty());
        assert(spec_glob_pattern(q) =~= glob_piece(q[0]));
    } else {
        lemma_glob_front(q.drop_last());
        assert(q.drop_last().drop_first() =~= q.drop_first().drop_last());
        assert(q.drop_last()[0] == q[0]);
        assert(q.drop_first().last() == q.last());
        assert(spec_glob_pattern(q) =~= glob_piece(q[0]) + spec_glob_pattern(q.drop_first()));
    }
}

proof fn lemma_glob_reads_back(q: Seq<char>)
    ensures
        glob_tokens(spec_glob_pattern(q)) == q.map_values(|c: char| wildcard_meaning(c)),
    decreases q.len(),
{
    if q.len() == 0 {
        assert(q.map_values(|c: char| wildcard_meaning(c)) =~= Seq::<PatternToken>::empty());
    } else {
        lemma_glob_front(q);
        lemma_glob_reads_back(q.drop_first());
        let x = spec_glob_pattern(q.drop_first());
        let p = spec_glob_pattern(q);
        assert(p =~= glob_piece(q[0]) + x);
        let c = q[0];
        if c == '*' || c == '＊' || c == '?' || c == '？' {
            assert(p.drop_first() =~= x);
        } else if c == '[' {
            reveal_strlit("[[]");
            assert(p[0] == '[' && p[1] == '[' && p[2] == ']');
            assert(close_at(p, 2) == 2);
            assert(p.subrange(1, 2) =~= seq!['[']);
            assert(p.skip(3) =~= x);
        } else {
            assert(p.drop_first() =~= x);
        }
        assert(q.map_values(|c: char| wildcard_meaning(c)) =~= seq![wildcard_meaning(q[0])] + q.drop_first().map_values(
            |c: char| wildcard_meaning(c),
        ));
    }
}

/// A wildcard query means what it says: its GLOB pattern reads back as `*`/`＊` any run,
/// `?`/`？` one character, and every other character (a `[` included) literally.
pub proof fn law_wildcard_pattern_reads_back(q: Seq<char>)
    ensures
        spec_wildcard_glob(q) matches Some(p) ==> glob_tokens(p) == q.map_values(|c: char| wildcard_meaning(c)),
{
    lemma_glob_reads_back(q);
}

} // verus!

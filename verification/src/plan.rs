//! What a search or an autocomplete request looks up, decided from the query alone: the query's
//! kind, the folded keys and patterns each lookup uses, which lookups apply, the substrings probed
//! when a Han/kana query is not itself a word, and the request limits.
use vstd::prelude::*;
use crate::chars::{
    ch_is_ascii_alnum, chars_of, is_ascii_alnum, str_lowercase, string_of, trim, trim_vec,
    lower_str,
};
use crate::fold::{
    escape_like, fts_query, pinyin_plain, romaji_plain, spec_escape_like, spec_fts_query,
    spec_pinyin_plain, spec_romaji_plain,
};
use crate::gloss::{byte_len, byte_len_exec};
use crate::rank::{partial_weight, spec_partial_weight, Scope};
use crate::model::SuggestItem;
use crate::fold::spec_wildcard_glob;
use crate::fold::wildcard_glob;
use crate::script::{
    any_han, any_kana, any_ascii_alpha, any_char, classify, is_han, spec_classify, spec_is_han,
    spec_is_kana, spec_to_hiragana, spec_to_katakana, to_hiragana, to_katakana, Kind,
    is_wildcard, spec_is_wildcard,
};

verus! {

// ---------------------------------------------------------------------------------------------
// Search
// ---------------------------------------------------------------------------------------------
/// The lookups a (non-wildcard) search runs and the keys it runs them with.
pub struct SearchPlan {
    /// the trimmed query
    pub query: String,
    pub kind: Kind,
    /// the query holds Han: expand through the backbone key
    pub backbone: bool,
    /// kana queries: the query folded to hiragana and to katakana
    pub hira: String,
    pub kata: String,
    /// kana queries of at least 2 kana: the as-you-type reading prefixes (`hira%`, `kata%`)
    pub kana_prefix: Option<(String, String)>,
    /// kana queries of at least 2 characters: the surface-form prefix (`query%`)
    pub surface_prefix: Option<String>,
    /// Latin queries: the lowercased query, matched against curated English aliases
    pub alias_term: String,
    /// the toneless pinyin / jyutping key, when not empty
    pub pinyin: Option<String>,
    /// the folded romaji key, when at least 2 bytes long
    pub romaji: Option<String>,
    /// the full-text AND query over the English glosses, when the query has a word
    pub fts: Option<String>,
    /// the lowercased query is a single word (no space)
    pub single_word: bool,
}

pub open spec fn has_char(s: Seq<char>, c: char) -> bool {
    exists|i: int| 0 <= i < s.len() && s[i] == c
}

pub open spec fn percent_suffixed(s: Seq<char>) -> Seq<char> {
    s.push('%')
}

impl SearchPlan {
    /// The plan is what the query (trimmed first) makes it.
    pub open spec fn of(self, raw: Seq<char>) -> bool {
        let q = trim(raw);
        let ql = str_lowercase(trim(q));
        let hira = spec_to_hiragana(q);
        let kata = spec_to_katakana(q);
        &&& self.query@ == q
        &&& self.kind == spec_classify(q)
        &&& self.backbone == any_char(q, |c: char| spec_is_han(c))
        &&& self.hira@ == hira
        &&& self.kata@ == kata
        &&& (match self.kana_prefix {
            Some((h, k)) => hira.len() >= 2 && h@ == percent_suffixed(hira) && k@ == percent_suffixed(kata),
            None => hira.len() < 2,
        })
        &&& (match self.surface_prefix {
            Some(p) => q.len() >= 2 && p@ == percent_suffixed(q),
            None => q.len() < 2,
        })
        &&& self.alias_term@ == ql
        &&& (match self.pinyin {
            Some(p) => p@ == spec_pinyin_plain(q) && p@.len() > 0,
            None => spec_pinyin_plain(q).len() == 0,
        })
        &&& (match self.romaji {
            Some(r) => r@ == spec_romaji_plain(q) && byte_len(r@) >= 2,
            None => byte_len(spec_romaji_plain(q)) < 2,
        })
        &&& (match self.fts {
            Some(f) => spec_fts_query(q) == Some(f@),
            None => spec_fts_query(q) is None,
        })
        &&& self.single_word == !has_char(ql, ' ')
    }
}

fn push_percent(s: &String) -> (r: String)
    ensures
        r@ == percent_suffixed(s@),
{
    let mut v = chars_of(s.as_str());
    v.push('%');
    string_of(&v)
}

fn has_char_exec(v: &Vec<char>, c: char) -> (r: bool)
    ensures
        r == has_char(v@, c),
{
    for i in 0..v.len()
        invariant
            forall|j: int| 0 <= j < i ==> v@[j] != c,
    {
        if v[i] == c {
            return true;
        }
    }
    false
}

/// Decide the lookups of a search for `raw`.
pub fn plan_search(raw: &str) -> (p: SearchPlan)
    ensures
        p.of(raw@),
{
    let cs = chars_of(raw);
    let t = trim_vec(&cs);
    let query = string_of(&t);
    let kind = classify(query.as_str());
    let backbone = any_han(&t);
    let hira = to_hiragana(query.as_str());
    let kata = to_katakana(query.as_str());
    let kana_prefix = if chars_of(hira.as_str()).len() >= 2 {
        Some((push_percent(&hira), push_percent(&kata)))
    } else {
        None
    };
    let surface_prefix = if t.len() >= 2 {
        Some(push_percent(&query))
    } else {
        None
    };
    let t2 = trim_vec(&t);
    let t2s = string_of(&t2);
    let alias_term = lower_str(t2s.as_str());
    let pin = pinyin_plain(query.as_str());
    let pinyin = if chars_of(pin.as_str()).len() > 0 {
        Some(pin)
    } else {
        None
    };
    let rom = romaji_plain(query.as_str());
    let romaji = if byte_len_exec(&chars_of(rom.as_str())) >= 2 {
        Some(rom)
    } else {
        None
    };
    let fts = fts_query(query.as_str());
    let single_word = !has_char_exec(&chars_of(alias_term.as_str()), ' ');
    SearchPlan {
        query,
        kind,
        backbone,
        hira,
        kata,
        kana_prefix,
        surface_prefix,
        alias_term,
        pinyin,
        romaji,
        fts,
        single_word,
    }
}


// ---------------------------------------------------------------------------------------------
// Partial lookups
// ---------------------------------------------------------------------------------------------
/// The substrings of length `len`, left to right, each with its partial weight.
pub open spec fn probes_at(q: Seq<char>, len: nat) -> Seq<(Seq<char>, nat)> {
    Seq::new(
        (q.len() - len + 1) as nat,
        |s: int| (q.subrange(s, s + len), spec_partial_weight(len, q.len())),
    )
}

/// The substrings of length `len` down to 2, longest first.
pub open spec fn probes_down(q: Seq<char>, len: int) -> Seq<(Seq<char>, nat)>
    decreases len,
{
    if len < 2 {
        Seq::empty()
    } else {
        probes_at(q, len as nat) + probes_down(q, len - 1)
    }
}

/// A Han or kana query of 3 to 24 characters that found no whole word is probed for the words it
/// contains: every proper substring of at least 2 characters, longest first, left to right.
pub open spec fn spec_partial_probes(q: Seq<char>, kind: Kind, has_whole: bool) -> Seq<(Seq<char>, nat)> {
    if !has_whole && 3 <= q.len() <= 24 && (kind == Kind::Han || kind == Kind::Kana) {
        probes_down(q, q.len() - 1)
    } else {
        Seq::empty()
    }
}

/// The substrings to look up (with their partial weights) for the trimmed query `q`.
pub fn partial_probes(q: &str, kind: Kind, has_whole: bool) -> (r: Vec<(String, u64)>)
    ensures
        r@.map_values(|p: (String, u64)| (p.0@, p.1 as nat)) == spec_partial_probes(q@, kind, has_whole),
{
    let cs = chars_of(q);
    let n = cs.len();
    let mut out: Vec<(String, u64)> = Vec::new();
    if has_whole || n < 3 || n > 24 || !(kind == Kind::Han || kind == Kind::Kana) {
        proof {
            assert(out@.map_values(|p: (String, u64)| (p.0@, p.1 as nat)) =~= Seq::<(Seq<char>, nat)>::empty());
        }
        return out;
    }
    let mut len = n - 1;
    while len >= 2
        invariant
            cs@ == q@,
            n == q@.len(),
            3 <= n <= 24,
            1 <= len < n,
            out@.map_values(|p: (String, u64)| (p.0@, p.1 as nat)) + probes_down(q@, len as int)
                == probes_down(q@, n - 1),
        decreases len,
    {
        let w = partial_weight(len, n);
        let ghost before = out@.map_values(|p: (String, u64)| (p.0@, p.1 as nat));
        let mut start: usize = 0;
        while start <= n - len
            invariant
                cs@ == q@,
                n == q@.len(),
                2 <= len < n,
                start <= n - len + 1,
                w == spec_partial_weight(len as nat, n as nat),
                out@.map_values(|p: (String, u64)| (p.0@, p.1 as nat)) == before + probes_at(q@, len as nat).take(start as int),
            decreases n - start,
        {
            let mut sub: Vec<char> = Vec::new();
            let mut k: usize = start;
            while k < start + len
                invariant
                    cs@ == q@,
                    n == cs@.len(),
                    start + len <= n,
                    start <= k <= start + len,
                    sub@ == q@.subrange(start as int, k as int),
                decreases start + len - k,
            {
                sub.push(cs[k]);
                proof {
                    assert(sub@ =~= q@.subrange(start as int, k + 1));
                }
                k += 1;
            }
            let ghost o = out@.map_values(|p: (String, u64)| (p.0@, p.1 as nat));
            out.push((string_of(&sub), w));
            proof {
                assert(out@.map_values(|p: (String, u64)| (p.0@, p.1 as nat)) =~= o.push((sub@, w as nat)));
                assert(probes_at(q@, len as nat).take(start + 1) =~= probes_at(q@, len as nat).take(start as int).push(
                    probes_at(q@, len as nat)[start as int]));
            }
            start += 1;
        }
        proof {
            assert(probes_at(q@, len as nat).take(start as int) =~= probes_at(q@, len as nat));
            assert(probes_down(q@, len as int) == probes_at(q@, len as nat) + probes_down(q@, len - 1));
            assert(before + probes_at(q@, len as nat) + probes_down(q@, len - 1) =~= before + (probes_at(q@, len as nat) + probes_down(q@, len - 1)));
        }
        len -= 1;
    }
    proof {
        assert(out@.map_values(|p: (String, u64)| (p.0@, p.1 as nat)) + probes_down(q@, len as int) =~= out@.map_values(|p: (String, u64)| (p.0@, p.1 as nat)));
    }
    out
}

/// Longer substrings weigh more: along the probe list weights never rise, and a longer probe
/// always outweighs a shorter one.
pub proof fn law_longer_probes_weigh_more(q: Seq<char>, kind: Kind, has_whole: bool, i: int, j: int)
    requires
        0 <= i < j < spec_partial_probes(q, kind, has_whole).len(),
    ensures
        spec_partial_probes(q, kind, has_whole)[i].1 >= spec_partial_probes(q, kind, has_whole)[j].1,
        spec_partial_probes(q, kind, has_whole)[i].0.len() > spec_partial_probes(q, kind, has_whole)[j].0.len()
            ==> spec_partial_probes(q, kind, has_whole)[i].1 > spec_partial_probes(q, kind, has_whole)[j].1,
{
    let n = q.len();
    lemma_probes_shape(q, n - 1, i);
    lemma_probes_shape(q, n - 1, j);
    let li = spec_partial_probes(q, kind, has_whole)[i].0.len();
    let lj = spec_partial_probes(q, kind, has_whole)[j].0.len();
    lemma_probe_order(q, n - 1, i, j);
    let d = 5354228880nat / n;
    assert(d > 0) by {
        assert(n <= 24);
        assert(5354228880nat / 24 > 0);
        assert(5354228880nat / n >= 5354228880nat / 24) by (nonlinear_arith)
            requires 1 <= n <= 24;
    }
    assert(45 * li * d >= 45 * lj * d) by (nonlinear_arith)
        requires li >= lj, d > 0;
    if li > lj {
        assert(45 * li * d > 45 * lj * d) by (nonlinear_arith)
            requires li > lj, d > 0;
    }
}

/// Every probe is a substring of the length it names, with that length's weight, 2 <= len <= top.
proof fn lemma_probes_shape(q: Seq<char>, top: int, i: int)
    requires
        top < q.len(),
        0 <= i < probes_down(q, top).len(),
    ensures
        2 <= probes_down(q, top)[i].0.len() <= top,
        probes_down(q, top)[i].1 == spec_partial_weight(probes_down(q, top)[i].0.len(), q.len()),
    decreases top,
{
    if top >= 2 {
        let a = probes_at(q, top as nat);
        if i < a.len() {
            assert(probes_down(q, top)[i] == a[i]);
        } else {
            lemma_probes_shape(q, top - 1, i - a.len());
            assert(probes_down(q, top)[i] == probes_down(q, top - 1)[i - a.len()]);
        }
    }
}

/// Probes come longest first.
proof fn lemma_probe_order(q: Seq<char>, top: int, i: int, j: int)
    requires
        top < q.len(),
        0 <= i < j < probes_down(q, top).len(),
    ensures
        probes_down(q, top)[i].0.len() >= probes_down(q, top)[j].0.len(),
    decreases top,
{
    if top >= 2 {
        let a = probes_at(q, top as nat);
        if j < a.len() {
        } else if i < a.len() {
            lemma_probes_shape(q, top - 1, j - a.len());
            assert(probes_down(q, top)[j] == probes_down(q, top - 1)[j - a.len()]);
        } else {
            lemma_probe_order(q, top - 1, i - a.len(), j - a.len());
        }
    }
}

// ---------------------------------------------------------------------------------------------
// After ranking
// ---------------------------------------------------------------------------------------------
/// A single Han character that matched nothing still gets a character page: the character to
/// look up, when the query is exactly one character of a Han query with no hits.
pub open spec fn spec_kokuji_fallback(q: Seq<char>, kind: Kind, no_hits: bool) -> Option<char> {
    if kind == Kind::Han && no_hits && q.len() == 1 {
        Some(q[0])
    } else {
        None
    }
}

pub fn kokuji_fallback(q: &str, kind: Kind, no_hits: bool) -> (r: Option<char>)
    ensures
        r == spec_kokuji_fallback(q@, kind, no_hits),
{
    let cs = chars_of(q);
    if kind == Kind::Han && no_hits && cs.len() == 1 {
        Some(cs[0])
    } else {
        None
    }
}

/// For a Han query, the small script-priority nudge (in hundredths) that lets the Chinese, then
/// the Cantonese, reading of a shared glyph win a near-tie: 6 for zh, 4 for yue, else 0.
pub open spec fn spec_variety_nudge(kind: Kind, variety: Seq<char>) -> nat {
    if kind != Kind::Han {
        0
    } else if variety == "zh"@ {
        6
    } else if variety == "yue"@ {
        4
    } else {
        0
    }
}

pub fn variety_nudge(kind: Kind, variety: &str) -> (r: u64)
    ensures
        r == spec_variety_nudge(kind, variety@),
{
    if kind != Kind::Han {
        0
    } else if crate::script::str_eq(variety, "zh") {
        6
    } else if crate::script::str_eq(variety, "yue") {
        4
    } else {
        0
    }
}

/// The hits a language filter keeps: with a language, the positions whose variety is it, in
/// order; without one, every position.
pub open spec fn lang_kept(varieties: Seq<Seq<char>>, lang: Option<Seq<char>>) -> Seq<usize>
    decreases varieties.len(),
{
    if varieties.len() == 0 {
        Seq::empty()
    } else {
        lang_kept(varieties.drop_last(), lang) + if lang is None || varieties.last() == lang->0 {
            seq![(varieties.len() - 1) as usize]
        } else {
            Seq::<usize>::empty()
        }
    }
}

/// The positions of the hits (by their varieties) that the language filter `lang` keeps.
pub fn keep_language(varieties: &Vec<String>, lang: Option<&str>) -> (r: Vec<usize>)
    ensures
        r@ == lang_kept(varieties@.map_values(|v: String| v@), match lang {
            Some(l) => Some(l@),
            None => None,
        }),
{
    let ghost vv = varieties@.map_values(|v: String| v@);
    let ghost lv = match lang {
        Some(l) => Some(l@),
        None => None::<Seq<char>>,
    };
    let mut r: Vec<usize> = Vec::new();
    for i in 0..varieties.len()
        invariant
            vv == varieties@.map_values(|v: String| v@),
            lv == match lang {
                Some(l) => Some(l@),
                None => None::<Seq<char>>,
            },
            r@ == lang_kept(vv.take(i as int), lv),
    {
        proof {
            assert(vv.take(i + 1).drop_last() =~= vv.take(i as int));
            assert(vv.take(i + 1).last() == varieties@[i as int]@);
        }
        let keep = match lang {
            Some(l) => crate::script::str_eq(varieties[i].as_str(), l),
            None => true,
        };
        if keep {
            r.push(i);
        }
        proof {
            assert(r@ =~= lang_kept(vv.take(i + 1), lv));
        }
    }
    proof {
        assert(vv.take(varieties.len() as int) =~= vv);
    }
    r
}

/// English queries with more hits than the run cap get the variety reflow.
pub const CAP_RUN: usize = 3;



// ---------------------------------------------------------------------------------------------
// Wildcard search
// ---------------------------------------------------------------------------------------------
/// The GLOB patterns a wildcard search runs: over the written form unless only sounds are wanted,
/// and (lowercased, as the romanised keys are stored) over the reading keys unless only meanings
/// are wanted.
pub struct WildcardPlan {
    pub form_glob: Option<String>,
    pub reading_glob: Option<String>,
}

/// `None` when the pattern has no literal character (it would match the whole dictionary).
pub open spec fn spec_plan_wildcard(q: Seq<char>, scope: Scope) -> Option<(Option<Seq<char>>, Option<Seq<char>>)> {
    match spec_wildcard_glob(q) {
        None => None,
        Some(p) => Some(
            (
                if scope != Scope::Sound { Some(p) } else { None },
                if scope != Scope::Meaning { Some(str_lowercase(p)) } else { None },
            ),
        ),
    }
}

pub open spec fn opt_view(o: Option<String>) -> Option<Seq<char>> {
    match o {
        Some(s) => Some(s@),
        None => None,
    }
}

pub fn plan_wildcard(q: &str, scope: Scope) -> (r: Option<WildcardPlan>)
    ensures
        match r {
            None => spec_plan_wildcard(q@, scope) is None,
            Some(p) => spec_plan_wildcard(q@, scope) == Some((opt_view(p.form_glob), opt_view(p.reading_glob))),
        },
{
    match wildcard_glob(q) {
        None => None,
        Some(pat) => {
            let reading_glob = if scope != Scope::Meaning {
                Some(lower_str(pat.as_str()))
            } else {
                None
            };
            let form_glob = if scope != Scope::Sound {
                Some(pat)
            } else {
                None
            };
            Some(WildcardPlan { form_glob, reading_glob })
        },
    }
}

// ---------------------------------------------------------------------------------------------
// Autocomplete
// ---------------------------------------------------------------------------------------------
/// Which prefix lookups an autocomplete request runs, with their LIKE / FTS patterns.
pub enum SuggestLookup {
    /// empty or a half-typed wildcard: nothing is looked up
    Nothing,
    /// a Han prefix of a written form
    Form { pattern: String },
    /// a kana reading prefix (folded to hiragana)
    Kana { pattern: String },
    /// a romanised reading prefix, then (when room remains) an English gloss-term prefix
    Latin { reading: String, term: Option<String> },
}

pub struct SuggestPlan {
    /// the trimmed query
    pub query: String,
    /// how many suggestions at most (1..=20)
    pub cap: usize,
    pub lookup: SuggestLookup,
}

pub open spec fn clamp(x: int, lo: int, hi: int) -> int {
    if x < lo {
        lo
    } else if x > hi {
        hi
    } else {
        x
    }
}

/// The quoted prefix query `"term"*` (a bare FTS keyword becomes a literal).
pub open spec fn fts_prefix(t: Seq<char>) -> Seq<char> {
    seq!['"'] + t + seq!['"', '*']
}

pub open spec fn alnum_only(q: Seq<char>) -> Seq<char> {
    q.filter(|c: char| is_ascii_alnum(c))
}

impl SuggestPlan {
    pub open spec fn of(self, raw: Seq<char>, limit: usize) -> bool {
        let q = trim(raw);
        &&& self.query@ == q
        &&& self.cap == clamp(limit as int, 1, 20)
        &&& if q.len() == 0 || spec_is_wildcard(q) {
            self.lookup is Nothing
        } else if any_char(q, |c: char| spec_is_han(c)) {
            self.lookup matches SuggestLookup::Form { pattern } && pattern@ == percent_suffixed(spec_escape_like(q))
        } else if any_char(q, |c: char| spec_is_kana(c)) {
            self.lookup matches SuggestLookup::Kana { pattern } && pattern@ == percent_suffixed(
                spec_escape_like(spec_to_hiragana(q)),
            )
        } else if any_char(q, |c: char| crate::chars::is_ascii_alpha(c)) {
            self.lookup matches SuggestLookup::Latin { reading, term } && reading@ == percent_suffixed(
                spec_escape_like(spec_pinyin_plain(q)),
            ) && opt_view(term) == if alnum_only(q).len() > 0 {
                Some(fts_prefix(alnum_only(q)))
            } else {
                None
            }
        } else {
            self.lookup is Nothing
        }
    }
}

/// Decide the lookups of an autocomplete request.
pub fn plan_suggest(raw: &str, limit: usize) -> (p: SuggestPlan)
    ensures
        p.of(raw@, limit),
{
    let cs = chars_of(raw);
    let t = trim_vec(&cs);
    let query = string_of(&t);
    let cap = if limit < 1 {
        1
    } else if limit > 20 {
        20
    } else {
        limit
    };
    let lookup = if t.len() == 0 || is_wildcard(query.as_str()) {
        SuggestLookup::Nothing
    } else if any_han(&t) {
        let e = escape_like(query.as_str());
        SuggestLookup::Form { pattern: push_percent(&e) }
    } else if any_kana(&t) {
        let h = to_hiragana(query.as_str());
        let e = escape_like(h.as_str());
        SuggestLookup::Kana { pattern: push_percent(&e) }
    } else if any_ascii_alpha(&t) {
        let pp = pinyin_plain(query.as_str());
        let e = escape_like(pp.as_str());
        let mut term: Vec<char> = Vec::new();
        let ghost pred = |c: char| is_ascii_alnum(c);
        for i in 0..t.len()
            invariant
                pred == (|c: char| is_ascii_alnum(c)),
                term@ == t@.take(i as int).filter(pred),
        {
            proof {
                assert(t@.take(i as int).push(t@[i as int]) =~= t@.take(i + 1));
                t@.take(i as int).lemma_filter_push(t@[i as int], pred);
            }
            if ch_is_ascii_alnum(t[i]) {
                term.push(t[i]);
            }
        }
        proof {
            assert(t@.take(t.len() as int) =~= t@);
        }
        let term_q = if term.len() > 0 {
            let mut v: Vec<char> = Vec::new();
            v.push('"');
            let ghost v0 = v@;
            crate::chars::append_vec(&mut v, &term);
            v.push('"');
            v.push('*');
            proof {
                assert(v@ =~= fts_prefix(term@));
            }
            Some(string_of(&v))
        } else {
            None
        };
        SuggestLookup::Latin { reading: push_percent(&e), term: term_q }
    } else {
        SuggestLookup::Nothing
    };
    SuggestPlan { query, cap, lookup }
}

/// Add rows to the suggestions in order, skipping a headword already present, until `cap` are
/// held.
pub open spec fn absorb_spec(out: Seq<SuggestItem>, rows: Seq<SuggestItem>, cap: nat) -> Seq<SuggestItem>
    decreases rows.len(),
{
    if out.len() >= cap || rows.len() == 0 {
        out
    } else {
        let r = rows[0];
        let seen = exists|i: int| 0 <= i < out.len() && out[i].headword@ == r.headword@;
        absorb_spec(if seen { out } else { out.push(r) }, rows.drop_first(), cap)
    }
}

pub open spec fn distinct_headwords(s: Seq<SuggestItem>) -> bool {
    forall|i: int, j: int| 0 <= i < j < s.len() ==> (#[trigger] s[i]).headword@ != (#[trigger] s[j]).headword@
}

proof fn lemma_absorb(out: Seq<SuggestItem>, rows: Seq<SuggestItem>, cap: nat)
    requires
        distinct_headwords(out),
    ensures
        distinct_headwords(absorb_spec(out, rows, cap)),
        absorb_spec(out, rows, cap).len() <= if out.len() >= cap { out.len() } else { cap },
        out.len() <= absorb_spec(out, rows, cap).len(),
        absorb_spec(out, rows, cap).take(out.len() as int) == out,
    decreases rows.len(),
{
    if out.len() >= cap || rows.len() == 0 {
        assert(out.take(out.len() as int) =~= out);
    } else {
        let r = rows[0];
        let seen = exists|i: int| 0 <= i < out.len() && out[i].headword@ == r.headword@;
        let next = if seen { out } else { out.push(r) };
        if !seen {
            assert forall|i: int, j: int| 0 <= i < j < next.len() implies (#[trigger] next[i]).headword@ != (#[trigger] next[j]).headword@ by {
                if j == out.len() {
                    assert(next[i] == out[i]);
                } else {
                    assert(next[i] == out[i] && next[j] == out[j]);
                }
            }
        }
        lemma_absorb(next, rows.drop_first(), cap);
        let res = absorb_spec(next, rows.drop_first(), cap);
        assert(res.take(next.len() as int) == next);
        assert(res.take(out.len() as int) =~= next.take(out.len() as int));
        assert(next.take(out.len() as int) =~= out);
    }
}

/// Append one lookup's rows to the suggestions: in order, skipping a headword already present,
/// stopping once `cap` are held. What was there stays first, headwords stay distinct, and no more
/// than `cap` are ever added up to.
pub fn absorb_suggestions(out: &mut Vec<SuggestItem>, rows: Vec<SuggestItem>, cap: usize)
    ensures
        final(out)@ == absorb_spec(old(out)@, rows@, cap as nat),
        distinct_headwords(old(out)@) ==> distinct_headwords(final(out)@),
        final(out)@.len() <= if old(out)@.len() >= cap { old(out)@.len() } else { cap as nat },
        final(out)@.take(old(out)@.len() as int) == old(out)@,
{
    let ghost o0 = out@;
    let ghost r0 = rows@;
    let mut i: usize = 0;
    assert(r0.skip(0) =~= r0);
    while i < rows.len() && out.len() < cap
        invariant
            i <= rows@.len(),
            rows@ == r0,
            absorb_spec(out@, r0.skip(i as int), cap as nat) == absorb_spec(o0, r0, cap as nat),
        decreases rows@.len() - i,
    {
        let r = &rows[i];
        let hw = chars_of(r.headword.as_str());
        let mut seen = false;
        let mut j: usize = 0;
        while j < out.len()
            invariant
                j <= out@.len(),
                hw@ == r.headword@,
                seen <==> exists|k: int| 0 <= k < j && out@[k].headword@ == r.headword@,
            decreases out@.len() - j,
        {
            if crate::script::str_eq(out[j].headword.as_str(), r.headword.as_str()) {
                seen = true;
            }
            j += 1;
        }
        proof {
            assert(r0.skip(i as int).drop_first() =~= r0.skip(i + 1));
            assert(r0.skip(i as int)[0] == rows@[i as int]);
        }
        if !seen {
            out.push(r.copy());
            proof {
                assert(out@.last() == rows@[i as int]);
            }
        }
        i += 1;
    }
    proof {
        if i == rows.len() {
            assert(r0.skip(i as int).len() == 0);
        }
        if distinct_headwords(o0) {
            lemma_absorb(o0, r0, cap as nat);
        }
        lemma_absorb_prefix(o0, r0, cap as nat);
    }
}

proof fn lemma_absorb_prefix(out: Seq<SuggestItem>, rows: Seq<SuggestItem>, cap: nat)
    ensures
        absorb_spec(out, rows, cap).len() <= if out.len() >= cap { out.len() } else { cap },
        out.len() <= absorb_spec(out, rows, cap).len(),
        absorb_spec(out, rows, cap).take(out.len() as int) == out,
    decreases rows.len(),
{
    if out.len() >= cap || rows.len() == 0 {
        assert(out.take(out.len() as int) =~= out);
    } else {
        let r = rows[0];
        let seen = exists|i: int| 0 <= i < out.len() && out[i].headword@ == r.headword@;
        let next = if seen { out } else { out.push(r) };
        lemma_absorb_prefix(next, rows.drop_first(), cap);
        let res = absorb_spec(next, rows.drop_first(), cap);
        assert(res.take(out.len() as int) =~= next.take(out.len() as int));
        assert(next.take(out.len() as int) =~= out);
    }
}

} // verus!

//! Request parameters and what they mean once defaulted and clamped: result limits, the
//! language filter, the scope of a search, and the batch of entry ids a request names.
use vstd::prelude::*;
use crate::chars::{chars_of, is_ascii_digit, ch_is_ascii_digit, trim, trim_vec};
use crate::model::ApiError;
use crate::plan::clamp;
use crate::rank::{spec_from_param, Scope};
use crate::script::str_eq;

verus! {

pub open spec fn opt_view(o: Option<String>) -> Option<Seq<char>> {
    match o {
        Some(s) => Some(s@),
        None => None,
    }
}

fn clamp_usize(x: usize, lo: usize, hi: usize) -> (r: usize)
    requires
        lo <= hi,
    ensures
        r == clamp(x as int, lo as int, hi as int),
{
    if x < lo {
        lo
    } else if x > hi {
        hi
    } else {
        x
    }
}

/// /search parameters.
pub struct SearchParams {
    /// Han (any script), kana, a romanized reading, or English
    pub q: String,
    /// preferred Han script for the displayed form ("trad", "simp", "kana", "shinjitai")
    pub script: Option<String>,
    /// "sound", "meaning", or unset / "auto"
    pub scope: Option<String>,
    /// "zh", "yue" or "ja"; anything else means every language
    pub lang: Option<String>,
    /// maximum number of hits (default 50, clamped to 1..=200)
    pub limit: Option<usize>,
}

/// The language filter: only zh, yue and ja restrict.
pub open spec fn spec_lang_filter(lang: Option<Seq<char>>) -> Option<Seq<char>> {
    match lang {
        Some(l) => if l == "zh"@ || l == "yue"@ || l == "ja"@ { Some(l) } else { None },
        None => None,
    }
}

impl SearchParams {
    pub fn limit_value(&self) -> (r: usize)
        ensures
            r == clamp(
                match self.limit {
                    Some(l) => l as int,
                    None => 50,
                },
                1,
                200,
            ),
    {
        let l = match self.limit {
            Some(l) => l,
            None => 50,
        };
        clamp_usize(l, 1, 200)
    }

    pub fn lang_filter(&self) -> (r: Option<String>)
        ensures
            opt_view(r) == spec_lang_filter(opt_view(self.lang)),
    {
        match &self.lang {
            Some(l) => if str_eq(l.as_str(), "zh") || str_eq(l.as_str(), "yue") || str_eq(l.as_str(), "ja") {
                Some(l.clone())
            } else {
                None
            },
            None => None,
        }
    }

    pub fn scope_value(&self) -> (r: Scope)
        ensures
            r == spec_from_param(opt_view(self.scope)),
    {
        match &self.scope {
            Some(s) => Scope::from_param(Some(s.as_str())),
            None => Scope::from_param(None),
        }
    }
}

/// /suggest parameters.
pub struct SuggestParams {
    /// the typed prefix to complete
    pub q: String,
    /// maximum number of suggestions (default 8, clamped to 1..=20)
    pub limit: Option<usize>,
}

impl SuggestParams {
    pub fn limit_value(&self) -> (r: usize)
        ensures
            r == clamp(
                match self.limit {
                    Some(l) => l as int,
                    None => 8,
                },
                1,
                20,
            ),
    {
        let l = match self.limit {
            Some(l) => l,
            None => 8,
        };
        clamp_usize(l, 1, 20)
    }
}

/// /interesting parameters.
pub struct InterestingParams {
    /// maximum number of items (default 8, clamped to 1..=30)
    pub limit: Option<usize>,
}

impl InterestingParams {
    pub fn limit_value(&self) -> (r: usize)
        ensures
            r == clamp(
                match self.limit {
                    Some(l) => l as int,
                    None => 8,
                },
                1,
                30,
            ),
    {
        let l = match self.limit {
            Some(l) => l,
            None => 8,
        };
        clamp_usize(l, 1, 30)
    }
}

/// /translate parameters: an English term.
pub struct TranslateParams {
    pub q: String,
}

/// /segment parameters: text holding Han characters.
pub struct SegmentParams {
    pub q: String,
}

/// /mt parameters.
pub struct MtParams {
    /// text to translate to English (at most 200 characters)
    pub q: String,
    /// source language hint (zh-CN / zh-TW / ja / yue); auto-detect when unset
    pub sl: Option<String>,
}

/// /tts/ja parameters.
pub struct TtsParams {
    /// the kana reading to speak (at most 32 characters)
    pub kana: String,
    /// downstep index ("0" = heiban .. n)
    pub accent: Option<String>,
}

// ---------------------------------------------------------------------------------------------
// Entry ids
// ---------------------------------------------------------------------------------------------
/// /entries parameters: comma-separated lexeme ids (negative = character entry).
pub struct EntriesParams {
    pub ids: String,
}

/// The value of a run of ASCII digits.
pub open spec fn digits_val(d: Seq<char>) -> int
    decreases d.len(),
{
    if d.len() == 0 {
        0
    } else {
        digits_val(d.drop_last()) * 10 + (d.last() as int - '0' as int)
    }
}

pub open spec fn all_digits(d: Seq<char>) -> bool {
    forall|i: int| 0 <= i < d.len() ==> is_ascii_digit(#[trigger] d[i])
}

/// `i64::from_str`: an optional `+` or `-`, then one or more ASCII digits, the value in range.
pub open spec fn spec_parse_i64(s: Seq<char>) -> Option<i64> {
    let neg = s.len() > 0 && s[0] == '-';
    let body = if s.len() > 0 && (s[0] == '-' || s[0] == '+') { s.drop_first() } else { s };
    let v = if neg { -digits_val(body) } else { digits_val(body) };
    if body.len() > 0 && all_digits(body) && i64::MIN <= v <= i64::MAX {
        Some(v as i64)
    } else {
        None
    }
}

proof fn lemma_digits_nonneg(d: Seq<char>)
    requires
        all_digits(d),
    ensures
        digits_val(d) >= 0,
    decreases d.len(),
{
    if d.len() > 0 {
        assert(all_digits(d.drop_last())) by {
            assert forall|i: int| 0 <= i < d.drop_last().len() implies is_ascii_digit(#[trigger] d.drop_last()[i]) by {
                assert(d.drop_last()[i] == d[i]);
            }
        }
        lemma_digits_nonneg(d.drop_last());
        assert(is_ascii_digit(d[d.len() - 1]));
    }
}

proof fn lemma_digits_mono(d: Seq<char>, k: int)
    requires
        all_digits(d),
        0 <= k <= d.len(),
    ensures
        digits_val(d.take(k)) <= digits_val(d),
    decreases d.len() - k,
{
    if k < d.len() {
        lemma_digits_mono(d, k + 1);
        assert(d.take(k + 1).drop_last() =~= d.take(k));
        assert(all_digits(d.take(k + 1))) by {
            assert forall|i: int| 0 <= i < d.take(k + 1).len() implies is_ascii_digit(#[trigger] d.take(k + 1)[i]) by {
                assert(d.take(k + 1)[i] == d[i]);
            }
        }
        assert(all_digits(d.take(k))) by {
            assert forall|i: int| 0 <= i < d.take(k).len() implies is_ascii_digit(#[trigger] d.take(k)[i]) by {
                assert(d.take(k)[i] == d[i]);
            }
        }
        lemma_digits_nonneg(d.take(k));
        assert(is_ascii_digit(d[k]));
    } else {
        assert(d.take(k) =~= d);
    }
}

/// Parse a decimal `i64` the way `str::parse::<i64>` does.
pub fn parse_i64(s: &Vec<char>) -> (r: Option<i64>)
    ensures
        r == spec_parse_i64(s@),
{
    let n = s.len();
    if n == 0 {
        return None;
    }
    let neg = s[0] == '-';
    let start: usize = if s[0] == '-' || s[0] == '+' {
        1
    } else {
        0
    };
    let ghost body = if s@[0] == '-' || s@[0] == '+' { s@.drop_first() } else { s@ };
    proof {
        assert(body =~= s@.skip(start as int));
    }
    if start == n {
        return None;
    }
    // accumulate the magnitude, negative side for '-' so i64::MIN parses
    let mut acc: i128 = 0;
    let mut i = start;
    while i < n
        invariant
            start <= i <= n,
            n == s@.len(),
            body == s@.skip(start as int),
            all_digits(body.take(i - start)),
            acc == digits_val(body.take(i - start)),
            0 <= acc <= 9223372036854775808,
            n > 0,
            body == (if s@[0] == '-' || s@[0] == '+' { s@.drop_first() } else { s@ }),
            neg == (s@[0] == '-'),
        decreases n - i,
    {
        let c = s[i];
        if !ch_is_ascii_digit(c) {
            proof {
                assert(body[i - start] == c);
                assert(!all_digits(body));
            }
            return None;
        }
        let d = (c as u32 - '0' as u32) as i128;
        let next = acc * 10 + d;
        proof {
            lemma_digits_nonneg(body.take(i - start));
            assert(body.take(i - start + 1).drop_last() =~= body.take(i - start));
            assert(body.take(i - start + 1).last() == c);
            assert(all_digits(body.take(i - start + 1))) by {
                assert forall|k: int| 0 <= k < body.take(i - start + 1).len() implies is_ascii_digit(#[trigger] body.take(i - start + 1)[k]) by {
                    if k < i - start {
                        assert(body.take(i - start + 1)[k] == body.take(i - start)[k]);
                    }
                }
            }
        }
        if next > 9223372036854775808 {
            proof {
                // the value only grows with more digits
                if all_digits(body) {
                    lemma_digits_mono(body, i - start + 1);
                }
            }
            return None;
        }
        acc = next;
        i += 1;
    }
    proof {
        assert(body.take(n - start) =~= body);
    }
    if neg {
        if acc > 9223372036854775808 {
            return None;
        }
        Some((0 - acc) as i64)
    } else {
        if acc > 9223372036854775807 {
            return None;
        }
        Some(acc as i64)
    }
}

pub open spec fn is_comma(c: char) -> bool {
    c == ','
}

/// Remove consecutive duplicates (`Vec::dedup`).
pub open spec fn dedup_consecutive(v: Seq<i64>) -> Seq<i64>
    decreases v.len(),
{
    if v.len() == 0 {
        Seq::empty()
    } else {
        let pre = dedup_consecutive(v.drop_last());
        if v.len() >= 2 && v[v.len() - 2] == v.last() {
            pre
        } else {
            pre.push(v.last())
        }
    }
}

/// The ids a batch request names: each comma-separated piece trimmed and parsed as an `i64`
/// (pieces that don't parse are skipped), consecutive repeats dropped, at most 50 kept.
pub open spec fn spec_entry_ids(ids: Seq<char>) -> Seq<i64> {
    let parsed = crate::gloss::split(ids, |c: char| is_comma(c)).filter(|p: Seq<char>| spec_parse_i64(trim(p)) is Some).map_values(
        |p: Seq<char>| spec_parse_i64(trim(p))->0,
    );
    let d = dedup_consecutive(parsed);
    if d.len() <= 50 {
        d
    } else {
        d.take(50)
    }
}

impl EntriesParams {
    /// The ids to fetch, or the "no valid ids" error when none parse.
    pub fn entry_ids(&self) -> (r: Result<Vec<i64>, ApiError>)
        ensures
            match r {
                Ok(v) => v@ == spec_entry_ids(self.ids@) && v@.len() > 0,
                Err(e) => spec_entry_ids(self.ids@).len() == 0 && e.error@ == "no valid ids"@,
            },
    {
        let cs = chars_of(self.ids.as_str());
        let seps = vec![','];
        let ghost sep = |c: char| is_comma(c);
        assert forall|c: char| sep(c) <==> seps@.contains(c) by {
            if c == ',' {
                assert(seps@[0] == ',');
            }
        }
        let pieces = crate::gloss::split_vec(&cs, Ghost(sep), &seps);
        let ghost pv = pieces@.map_values(|t: Vec<char>| t@);
        let ghost ok = |p: Seq<char>| spec_parse_i64(trim(p)) is Some;
        let ghost val = |p: Seq<char>| spec_parse_i64(trim(p))->0;
        let mut out: Vec<i64> = Vec::new();
        for i in 0..pieces.len()
            invariant
                pv == pieces@.map_values(|t: Vec<char>| t@),
                ok == (|p: Seq<char>| spec_parse_i64(trim(p)) is Some),
                val == (|p: Seq<char>| spec_parse_i64(trim(p))->0),
                out@ == dedup_consecutive(pv.take(i as int).filter(ok).map_values(val)),
        {
            proof {
                assert(pv.take(i as int).push(pv[i as int]) =~= pv.take(i + 1));
                pv.take(i as int).lemma_filter_push(pv[i as int], ok);
            }
            let t = trim_vec(&pieces[i]);
            let ghost before = pv.take(i as int).filter(ok).map_values(val);
            match parse_i64(&t) {
                Some(v) => {
                    let ghost after = pv.take(i + 1).filter(ok).map_values(val);
                    proof {
                        assert(after =~= before.push(v));
                        assert(after.drop_last() =~= before);
                    }
                    let dup = out.len() > 0 && out[out.len() - 1] == v;
                    proof {
                        lemma_dedup_last(before);
                    }
                    if !dup {
                        out.push(v);
                    }
                    proof {
                        if before.len() > 0 {
                            assert(after[after.len() - 2] == before.last());
                        }
                    }
                },
                None => {
                    proof {
                        assert(pv.take(i + 1).filter(ok) =~= pv.take(i as int).filter(ok));
                    }
                },
            }
        }
        proof {
            assert(pv.take(pieces.len() as int) =~= pv);
            assert(pv == crate::gloss::split(self.ids@, sep));
        }
        if out.len() > 50 {
            out.truncate(50);
        }
        if out.len() == 0 {
            let msg = crate::chars::string_of(&chars_of("no valid ids"));
            proof {
                reveal_strlit("no valid ids");
            }
            return Err(ApiError { error: msg });
        }
        Ok(out)
    }
}

/// The last kept id is the last parsed one.
proof fn lemma_dedup_last(v: Seq<i64>)
    ensures
        v.len() > 0 ==> dedup_consecutive(v).len() > 0 && dedup_consecutive(v).last() == v.last(),
        v.len() == 0 ==> dedup_consecutive(v).len() == 0,
    decreases v.len(),
{
    if v.len() > 0 {
        lemma_dedup_last(v.drop_last());
        if v.len() >= 2 {
            assert(v.drop_last().last() == v[v.len() - 2]);
        }
    }
}

} // verus!

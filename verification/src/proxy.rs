//! What the proxy endpoints accept and send on: language codes for the translation and
//! handwriting services, the strict pronunciation-clip names (so the clip proxy can't be turned
//! into an open proxy), the kana a speech request may carry, the translation cache key, and the
//! merge of handwriting candidates across languages.
use vstd::prelude::*;
use crate::chars::{append_vec, chars_of, ch_is_ascii_digit, ch_is_ascii_lower, is_ascii_digit, is_ascii_lower, string_of, trim, trim_vec};
use crate::gloss::{byte_len, byte_len_exec};
use crate::plan::clamp;
use crate::script::str_eq;
use crate::model::RecognizeResponse;
use crate::fold::join;

verus! {

// ---------------------------------------------------------------------------------------------
// Language codes
// ---------------------------------------------------------------------------------------------
/// The MyMemory source language for a hint: ja stays ja; zh-TW and yue read as zh-TW; anything
/// else as zh-CN.
pub open spec fn spec_mm_lang(sl: Seq<char>) -> Seq<char> {
    if sl == "ja"@ {
        "ja"@
    } else if sl == "zh-TW"@ || sl == "yue"@ {
        "zh-TW"@
    } else {
        "zh-CN"@
    }
}

pub fn mm_lang(sl: &str) -> (r: &'static str)
    ensures
        r@ == spec_mm_lang(sl@),
{
    if str_eq(sl, "ja") {
        "ja"
    } else if str_eq(sl, "zh-TW") || str_eq(sl, "yue") {
        "zh-TW"
    } else {
        "zh-CN"
    }
}

/// The handwriting service's language code for a tag; an unknown tag passes through.
pub open spec fn spec_google_lang(tag: Seq<char>) -> Seq<char> {
    if tag == "zh"@ || tag == "zh-CN"@ || tag == "zh-Hans"@ {
        "zh"@
    } else if tag == "zh_TW"@ || tag == "zh-TW"@ || tag == "zh-Hant"@ {
        "zh_TW"@
    } else if tag == "ja"@ {
        "ja"@
    } else if tag == "yue"@ || tag == "zh-HK"@ {
        "yue-hant-t-i0-und"@
    } else {
        tag
    }
}

pub fn google_lang<'a>(tag: &'a str) -> (r: &'a str)
    ensures
        r@ == spec_google_lang(tag@),
{
    if str_eq(tag, "zh") || str_eq(tag, "zh-CN") || str_eq(tag, "zh-Hans") {
        "zh"
    } else if str_eq(tag, "zh_TW") || str_eq(tag, "zh-TW") || str_eq(tag, "zh-Hant") {
        "zh_TW"
    } else if str_eq(tag, "ja") {
        "ja"
    } else if str_eq(tag, "yue") || str_eq(tag, "zh-HK") {
        "yue-hant-t-i0-und"
    } else {
        tag
    }
}

// ---------------------------------------------------------------------------------------------
// Pronunciation clips
// ---------------------------------------------------------------------------------------------
/// Where Mandarin (numbered-pinyin) clips come from.
pub open spec fn zh_base() -> Seq<char> {
    "https://cdn.jsdelivr.net/gh/davinfifield/mp3-chinese-pinyin-sound@master/mp3/"@
}

/// Where Cantonese (jyutping) clips come from.
pub open spec fn yue_base() -> Seq<char> {
    "https://jyutping.org/audio/"@
}

/// Why a clip request is refused.
#[derive(Clone, Copy, PartialEq, Eq, Debug, Structural)]
pub enum ClipError {
    /// not zh or yue (404)
    UnknownVariety,
    /// not a strict syllable file name (400)
    BadClip,
}

/// A clip to fetch: the upstream URL and the cache key.
pub struct ClipFetch {
    pub url: String,
    pub key: String,
}

/// A tone digit from 1 to `top` (5 for Mandarin, 6 for Cantonese).
pub open spec fn is_tone(c: char, top: char) -> bool {
    '1' <= c && c <= top
}

/// The highest tone of a variety's syllables: 5 for zh (four tones and the neutral one), 6 for
/// yue.
pub open spec fn top_tone(variety: Seq<char>) -> char {
    if variety == "yue"@ {
        '6'
    } else {
        '5'
    }
}

/// A strict syllable: 1 to 12 bytes, lowercase ASCII letters with a tone digit (1 to `top`)
/// last, starting with a letter (the check is on byte positions, so any non-ASCII character
/// fails it).
pub open spec fn spec_syllable_ok(syl: Seq<char>, top: char) -> bool {
    &&& syl.len() > 0
    &&& byte_len(syl) <= 12
    &&& forall|i: int|
        0 <= i < syl.len() ==> if i + 1 == byte_len(syl) {
            is_tone(#[trigger] syl[i], top)
        } else {
            is_ascii_lower(syl[i])
        }
    &&& is_ascii_lower(syl[0])
}

pub open spec fn mp3() -> Seq<char> {
    ".mp3"@
}

/// The clip for `variety` / `file`: the base URL of the variety, the file's syllable (its name
/// without `.mp3`), the URL `base + syllable + ".mp3"` and the cache key `variety/syllable`.
pub open spec fn spec_clip(variety: Seq<char>, file: Seq<char>) -> Result<(Seq<char>, Seq<char>), ClipError> {
    let base = if variety == "zh"@ { Some(zh_base()) } else if variety == "yue"@ { Some(yue_base()) } else { None };
    match base {
        None => Err(ClipError::UnknownVariety),
        Some(b) => if file.len() >= 4 && file.subrange(file.len() - 4, file.len() as int) == mp3() {
            let syl = file.subrange(0, file.len() - 4);
            if spec_syllable_ok(syl, top_tone(variety)) {
                Ok((b + syl + mp3(), variety + "/"@ + syl))
            } else {
                Err(ClipError::BadClip)
            }
        } else {
            Err(ClipError::BadClip)
        },
    }
}

fn syllable_ok(syl: &Vec<char>, top: char) -> (r: bool)
    ensures
        r == spec_syllable_ok(syl@, top),
{
    if syl.len() == 0 {
        return false;
    }
    let bl = byte_len_exec(syl);
    if bl > 12 {
        return false;
    }
    for i in 0..syl.len()
        invariant
            bl == byte_len(syl@),
            bl <= 12,
            forall|j: int|
                0 <= j < i ==> if j + 1 == byte_len(syl@) {
                    is_tone(#[trigger] syl@[j], top)
                } else {
                    is_ascii_lower(syl@[j])
                },
    {
        let ok = if (i as u128) + 1 == bl {
            '1' <= syl[i] && syl[i] <= top
        } else {
            ch_is_ascii_lower(syl[i])
        };
        if !ok {
            return false;
        }
    }
    ch_is_ascii_lower(syl[0])
}

pub fn clip_request(variety: &str, file: &str) -> (r: Result<ClipFetch, ClipError>)
    ensures
        match r {
            Ok(c) => spec_clip(variety@, file@) == Ok::<(Seq<char>, Seq<char>), ClipError>((c.url@, c.key@)),
            Err(e) => spec_clip(variety@, file@) == Err::<(Seq<char>, Seq<char>), ClipError>(e),
        },
{
    let base = if str_eq(variety, "zh") {
        "https://cdn.jsdelivr.net/gh/davinfifield/mp3-chinese-pinyin-sound@master/mp3/"
    } else if str_eq(variety, "yue") {
        "https://jyutping.org/audio/"
    } else {
        return Err(ClipError::UnknownVariety);
    };
    let f = chars_of(file);
    let suffix = chars_of(".mp3");
    proof {
        reveal_strlit(".mp3");
    }
    if f.len() < 4 || !crate::chars::ends_with_exec(&f, &suffix) {
        proof {
            if f@.len() >= 4 {
                assert(!(f@.subrange(f@.len() - 4, f@.len() as int) == mp3()));
            }
        }
        return Err(ClipError::BadClip);
    }
    let syl = crate::chars::slice_vec(&f, 0, f.len() - 4);
    let top = if str_eq(variety, "yue") {
        '6'
    } else {
        '5'
    };
    if !syllable_ok(&syl, top) {
        return Err(ClipError::BadClip);
    }
    let mut url = chars_of(base);
    append_vec(&mut url, &syl);
    append_vec(&mut url, &suffix);
    let mut key = chars_of(variety);
    key.push('/');
    append_vec(&mut key, &syl);
    proof {
        reveal_strlit("/");
        assert(key@ =~= variety@ + "/"@ + syl@);
    }
    Ok(ClipFetch { url: string_of(&url), key: string_of(&key) })
}

/// An upstream clip is accepted only when served as audio (a missing syllable can come back as
/// a 200 HTML page).
pub open spec fn spec_clip_is_audio(content_type: Seq<char>) -> bool {
    crate::chars::starts_with(content_type, "audio"@)
}

pub fn clip_is_audio(content_type: &str) -> (r: bool)
    ensures
        r == spec_clip_is_audio(content_type@),
{
    proof {
        reveal_strlit("audio");
    }
    crate::chars::starts_with_exec(&chars_of(content_type), &chars_of("audio"))
}

/// How many clips the in-memory cache holds at most.
pub const CLIP_CACHE_CAP: usize = 6000;

// ---------------------------------------------------------------------------------------------
// Speech and translation requests
// ---------------------------------------------------------------------------------------------
/// The kana a speech request may carry: trimmed, 1 to 32 characters; otherwise `None` (400).
pub open spec fn spec_tts_kana(kana: Seq<char>) -> Option<Seq<char>> {
    let k = trim(kana);
    if k.len() == 0 || k.len() > 32 {
        None
    } else {
        Some(k)
    }
}

pub fn tts_kana(kana: &str) -> (r: Option<String>)
    ensures
        match r {
            Some(k) => spec_tts_kana(kana@) == Some(k@),
            None => spec_tts_kana(kana@) is None,
        },
{
    let t = trim_vec(&chars_of(kana));
    if t.len() == 0 || t.len() > 32 {
        None
    } else {
        Some(string_of(&t))
    }
}

/// The accent hint is sent only when not empty.
pub fn tts_accent(accent: Option<&str>) -> (r: Option<&str>)
    ensures
        match r {
            Some(a) => accent == Some(a) && a@.len() > 0,
            None => accent is None || accent.unwrap()@.len() == 0,
        },
{
    match accent {
        Some(a) => if chars_of(a).len() > 0 {
            Some(a)
        } else {
            None
        },
        None => None,
    }
}

/// A translation request: nothing to translate (an empty or over-long text, answered with an
/// empty translation), or the trimmed text, the source hint ("auto" when unset) and the cache
/// key `sl|q`.
pub enum MtRequest {
    Nothing,
    Translate { q: String, sl: String, key: String },
}

pub open spec fn spec_mt(q: Seq<char>, sl: Option<Seq<char>>) -> Option<(Seq<char>, Seq<char>, Seq<char>)> {
    let t = trim(q);
    if t.len() == 0 || t.len() > 200 {
        None
    } else {
        let s = match sl {
            Some(x) => x,
            None => "auto"@,
        };
        Some((t, s, s + "|"@ + t))
    }
}

pub fn mt_request(q: &str, sl: Option<&str>) -> (r: MtRequest)
    ensures
        match r {
            MtRequest::Nothing => spec_mt(q@, match sl { Some(x) => Some(x@), None => None }) is None,
            MtRequest::Translate { q: tq, sl: s, key } => spec_mt(q@, match sl { Some(x) => Some(x@), None => None })
                == Some((tq@, s@, key@)),
        },
{
    let t = trim_vec(&chars_of(q));
    if t.len() == 0 || t.len() > 200 {
        return MtRequest::Nothing;
    }
    let s = match sl {
        Some(x) => chars_of(x),
        None => chars_of("auto"),
    };
    proof {
        reveal_strlit("auto");
    }
    let mut key: Vec<char> = Vec::new();
    append_vec(&mut key, &s);
    key.push('|');
    append_vec(&mut key, &t);
    proof {
        reveal_strlit("|");
        assert(key@ =~= s@ + "|"@ + t@);
    }
    MtRequest::Translate { q: string_of(&t), sl: string_of(&s), key: string_of(&key) }
}

/// How many translations the in-memory cache holds before it is cleared.
pub const MT_CACHE_CAP: usize = 5000;

// ---------------------------------------------------------------------------------------------
// Handwriting
// ---------------------------------------------------------------------------------------------
/// The recogniser languages: those asked for, or Chinese (a Han superset) when none are.
pub fn recognize_languages(languages: &Vec<String>) -> (r: Vec<String>)
    ensures
        languages@.len() == 0 ==> r@.len() == 1 && r@[0]@ == "zh"@,
        languages@.len() > 0 ==> r@ == languages@,
{
    if languages.len() == 0 {
        let mut v: Vec<String> = Vec::new();
        v.push(string_of(&chars_of("zh")));
        proof {
            reveal_strlit("zh");
        }
        v
    } else {
        let mut v: Vec<String> = Vec::new();
        for i in 0..languages.len()
            invariant
                v@ == languages@.take(i as int),
        {
            v.push(languages[i].clone());
            proof {
                assert(v@ =~= languages@.take(i + 1));
            }
        }
        proof {
            assert(languages@.take(languages.len() as int) =~= languages@);
        }
        v
    }
}

/// How many candidates to return (default 20, clamped to 1..=50).
pub fn recognize_limit(limit: Option<usize>) -> (r: usize)
    ensures
        r == clamp(
            match limit {
                Some(l) => l as int,
                None => 20,
            },
            1,
            50,
        ),
{
    let l = match limit {
        Some(l) => l,
        None => 20,
    };
    if l < 1 {
        1
    } else if l > 50 {
        50
    } else {
        l
    }
}

/// Candidates of one more language appended in order, skipping any already present.
pub open spec fn merged_with(merged: Seq<Seq<char>>, cands: Seq<Seq<char>>) -> Seq<Seq<char>>
    decreases cands.len(),
{
    if cands.len() == 0 {
        merged
    } else {
        let pre = merged_with(merged, cands.drop_last());
        if pre.contains(cands.last()) {
            pre
        } else {
            pre.push(cands.last())
        }
    }
}

pub fn merge_candidates(merged: &mut Vec<String>, cands: &Vec<String>)
    ensures
        final(merged)@.map_values(|s: String| s@) == merged_with(
            old(merged)@.map_values(|s: String| s@),
            cands@.map_values(|s: String| s@),
        ),
{
    let ghost m0 = merged@.map_values(|s: String| s@);
    let ghost cv = cands@.map_values(|s: String| s@);
    for i in 0..cands.len()
        invariant
            cv == cands@.map_values(|s: String| s@),
            merged@.map_values(|s: String| s@) == merged_with(m0, cv.take(i as int)),
    {
        proof {
            assert(cv.take(i + 1).drop_last() =~= cv.take(i as int));
            assert(cv.take(i + 1).last() == cv[i as int]);
        }
        let ghost mv = merged@.map_values(|s: String| s@);
        let mut present = false;
        for j in 0..merged.len()
            invariant
                mv == merged@.map_values(|s: String| s@),
                present <==> exists|k: int| 0 <= k < j && mv[k] == cv[i as int],
                cv == cands@.map_values(|s: String| s@),
                0 <= i < cv.len(),
        {
            proof {
                assert(mv[j as int] == merged@[j as int]@);
                assert(cv[i as int] == cands@[i as int]@);
            }
            if str_eq(merged[j].as_str(), cands[i].as_str()) {
                present = true;
            }
        }
        proof {
            if present {
                let k = choose|k: int| 0 <= k < mv.len() && mv[k] == cv[i as int];
                assert(mv.contains(cv[i as int]));
            }
            if mv.contains(cv[i as int]) {
                let k = choose|k: int| 0 <= k < mv.len() && mv[k] == cv[i as int];
                assert(0 <= k < merged@.len());
            }
        }
        if !present {
            merged.push(cands[i].clone());
            proof {
                assert(merged@.map_values(|s: String| s@) =~= mv.push(cv[i as int]));
            }
        }
    }
    proof {
        assert(cv.take(cands.len() as int) =~= cv);
    }
}


/// The recognizer's answer: the first `limit` merged candidates (all of them when fewer) and
/// the languages that were asked.
pub fn recognize_reply(merged: Vec<String>, languages: Vec<String>, limit: usize) -> (r: RecognizeResponse)
    ensures
        r.candidates@ == merged@.take(if limit < merged@.len() { limit as int } else { merged@.len() as int }),
        r.languages@ == languages@,
{
    let mut merged = merged;
    merged.truncate(limit);
    RecognizeResponse { candidates: merged, languages }
}


// ---------------------------------------------------------------------------------------------
// Reading the replies
// ---------------------------------------------------------------------------------------------
/// The strings among some reply values, in order.
pub open spec fn strings_of(v: Seq<Option<Seq<char>>>) -> Seq<Seq<char>>
    decreases v.len(),
{
    if v.len() == 0 {
        Seq::empty()
    } else {
        strings_of(v.drop_last()) + match v.last() {
            Some(s) => seq![s],
            None => Seq::empty(),
        }
    }
}

pub open spec fn opt_strs(v: Seq<Option<String>>) -> Seq<Option<Seq<char>>> {
    v.map_values(|o: Option<String>| match o {
        Some(s) => Some(s@),
        None => None,
    })
}

fn strings_exec(v: &Vec<Option<String>>) -> (r: Vec<String>)
    ensures
        r@.map_values(|s: String| s@) == strings_of(opt_strs(v@)),
{
    let ghost ov = opt_strs(v@);
    let mut out: Vec<String> = Vec::new();
    for i in 0..v.len()
        invariant
            ov == opt_strs(v@),
            out@.map_values(|s: String| s@) == strings_of(ov.take(i as int)),
    {
        proof {
            assert(ov.take(i + 1).drop_last() =~= ov.take(i as int));
            assert(ov.take(i + 1).last() == ov[i as int]);
        }
        match &v[i] {
            Some(s) => {
                out.push(s.clone());
                proof {
                    assert(out@.map_values(|s: String| s@) =~= strings_of(ov.take(i as int)) + seq![ov[i as int]->0]);
                }
            },
            None => {
                proof {
                    assert(strings_of(ov.take(i + 1)) =~= strings_of(ov.take(i as int)));
                }
            },
        }
    }
    proof {
        assert(ov.take(v.len() as int) =~= ov);
    }
    out
}

/// The handwriting reply's candidates: none unless its status is "SUCCESS"; otherwise the
/// strings of the first result's candidate list, in order.
pub open spec fn spec_recognized(status: Option<Seq<char>>, items: Option<Seq<Option<Seq<char>>>>) -> Seq<Seq<char>> {
    if status != Some("SUCCESS"@) {
        Seq::empty()
    } else {
        match items {
            Some(v) => strings_of(v),
            None => Seq::empty(),
        }
    }
}

/// `status` is the reply's first value when it is a string; `items` the first result's
/// candidate list when there is one, each value taken when it is a string.
pub fn recognized_candidates(status: Option<&str>, items: Option<Vec<Option<String>>>) -> (r: Vec<String>)
    ensures
        r@.map_values(|s: String| s@) == spec_recognized(
            match status {
                Some(x) => Some(x@),
                None => None,
            },
            match items {
                Some(v) => Some(opt_strs(v@)),
                None => None,
            },
        ),
{
    let ok = match status {
        Some(x) => {
            proof {
                reveal_strlit("SUCCESS");
            }
            str_eq(x, "SUCCESS")
        },
        None => false,
    };
    if !ok {
        let r: Vec<String> = Vec::new();
        proof {
            assert(r@.map_values(|s: String| s@) =~= Seq::<Seq<char>>::empty());
        }
        return r;
    }
    match items {
        Some(v) => strings_exec(&v),
        None => {
            let r: Vec<String> = Vec::new();
            proof {
                assert(r@.map_values(|s: String| s@) =~= Seq::<Seq<char>>::empty());
            }
            r
        },
    }
}

/// A reply text counts only when it is not blank.
pub open spec fn spec_nonblank(t: Seq<char>) -> Option<Seq<char>> {
    if trim(t).len() == 0 {
        None
    } else {
        Some(t)
    }
}

pub fn nonblank(t: String) -> (r: Option<String>)
    ensures
        match r {
            Some(x) => spec_nonblank(t@) == Some(x@),
            None => spec_nonblank(t@) is None,
        },
{
    if trim_vec(&chars_of(t.as_str())).len() == 0 {
        None
    } else {
        Some(t)
    }
}

/// The machine translation in a reply: its translated sentence pieces (the strings among them)
/// joined, when that is not blank.
pub open spec fn spec_translation(pieces: Seq<Option<Seq<char>>>) -> Option<Seq<char>> {
    spec_nonblank(join(strings_of(pieces), Seq::empty()))
}

pub fn translation_of(pieces: &Vec<Option<String>>) -> (r: Option<String>)
    ensures
        match r {
            Some(x) => spec_translation(opt_strs(pieces@)) == Some(x@),
            None => spec_translation(opt_strs(pieces@)) is None,
        },
{
    let strs = strings_exec(pieces);
    let joined = crate::fold::join_strings(&strs, "");
    proof {
        reveal_strlit("");
        assert(""@ =~= Seq::<char>::empty());
    }
    nonblank(joined)
}

} // verus!

//! English glosses: cleaning a gloss segment to its core, whole-word search, the light ranking
//! stemmer, how well a gloss matches an English query, and the short gloss shown in breakdowns.
use vstd::prelude::*;
use crate::chars::{
    ascii_lower, ch_ascii_lower, ch_is_ascii_alnum, chars_of, contains_exec, contains_seq,
    ends_with, ends_with_exec, is_ascii_alnum, lower_str, occurs_at, occurs_at_exec,
    seq_eq, slice_vec, starts_with, starts_with_exec, str_lowercase, string_of, trim, trim_vec,
    append_vec,
};
use crate::fold::join;

verus! {

// ---------------------------------------------------------------------------------------------
// UTF-8 lengths (`str::len` counts bytes)
// ---------------------------------------------------------------------------------------------
pub open spec fn utf8_width(c: char) -> nat {
    let u = c as u32;
    if u < 0x80 {
        1
    } else if u < 0x800 {
        2
    } else if u < 0x10000 {
        3
    } else {
        4
    }
}

/// The UTF-8 byte length of a character sequence.
pub open spec fn byte_len(s: Seq<char>) -> nat
    decreases s.len(),
{
    if s.len() == 0 {
        0
    } else {
        byte_len(s.drop_last()) + utf8_width(s.last())
    }
}

fn utf8_width_exec(c: char) -> (r: usize)
    ensures
        r == utf8_width(c),
{
    let u = c as u32;
    if u < 0x80 {
        1
    } else if u < 0x800 {
        2
    } else if u < 0x10000 {
        3
    } else {
        4
    }
}

proof fn lemma_byte_len_bounds(s: Seq<char>)
    ensures
        s.len() <= byte_len(s) <= 4 * s.len(),
    decreases s.len(),
{
    if s.len() > 0 {
        lemma_byte_len_bounds(s.drop_last());
    }
}

/// Byte length of a character vector.
pub fn byte_len_exec(s: &Vec<char>) -> (r: u128)
    ensures
        r == byte_len(s@),
{
    let mut n: u128 = 0;
    let mut i: usize = 0;
    while i < s.len()
        invariant
            i <= s.len(),
            n == byte_len(s@.take(i as int)),
        decreases s.len() - i,
    {
        proof {
            assert(s@.take(i + 1).drop_last() =~= s@.take(i as int));
            lemma_byte_len_bounds(s@.take(i as int));
        }
        let w = utf8_width_exec(s[i]);
        n = n + w as u128;
        i += 1;
    }
    proof {
        assert(s@.take(s.len() as int) =~= s@);
    }
    n
}

// ---------------------------------------------------------------------------------------------
// Cleaning a gloss segment
// ---------------------------------------------------------------------------------------------
pub open spec fn is_open_bracket(c: char) -> bool {
    c == '(' || c == '[' || c == '{'
}

pub open spec fn is_close_bracket(c: char) -> bool {
    c == ')' || c == ']' || c == '}'
}

/// The characters outside every bracketed span; brackets themselves are dropped and an
/// unmatched closing bracket never drives the depth below zero.
pub open spec fn outside_brackets(s: Seq<char>, depth: nat) -> Seq<char>
    decreases s.len(),
{
    if s.len() == 0 {
        Seq::empty()
    } else if is_open_bracket(s[0]) {
        outside_brackets(s.drop_first(), depth + 1)
    } else if is_close_bracket(s[0]) {
        outside_brackets(s.drop_first(), if depth == 0 {
            0
        } else {
            (depth - 1) as nat
        })
    } else if depth == 0 {
        seq![s[0]] + outside_brackets(s.drop_first(), 0)
    } else {
        outside_brackets(s.drop_first(), depth)
    }
}

pub open spec fn is_trailing_punct(c: char) -> bool {
    c == '.' || c == ',' || c == '!' || c == '…'
}

/// `trim_end_matches(['.', ',', '!', '…'])`.
pub open spec fn trim_end_punct(s: Seq<char>) -> Seq<char>
    decreases s.len(),
{
    if s.len() > 0 && is_trailing_punct(s.last()) {
        trim_end_punct(s.drop_last())
    } else {
        s
    }
}

/// One leading function word ("to ", "the ", "an ", "a ", tried in that order) removed.
pub open spec fn strip_function_word(s: Seq<char>) -> Seq<char> {
    if starts_with(s, "to "@) {
        s.skip(3)
    } else if starts_with(s, "the "@) {
        s.skip(4)
    } else if starts_with(s, "an "@) {
        s.skip(3)
    } else if starts_with(s, "a "@) {
        s.skip(2)
    } else {
        s
    }
}

/// A gloss segment reduced to its core: parentheticals dropped, trimmed, trailing punctuation
/// removed, lowercased, one leading function word removed, trimmed again.
pub open spec fn spec_clean_segment(seg: Seq<char>) -> Seq<char> {
    trim(strip_function_word(str_lowercase(trim_end_punct(trim(outside_brackets(seg, 0))))))
}

proof fn lemma_outside_step(s: Seq<char>, i: int, d: nat)
    requires
        0 <= i < s.len(),
    ensures
        outside_brackets(s.skip(i), d) == (if is_open_bracket(s[i]) {
            outside_brackets(s.skip(i + 1), d + 1)
        } else if is_close_bracket(s[i]) {
            outside_brackets(s.skip(i + 1), if d == 0 {
                0
            } else {
                (d - 1) as nat
            })
        } else if d == 0 {
            seq![s[i]] + outside_brackets(s.skip(i + 1), 0)
        } else {
            outside_brackets(s.skip(i + 1), d)
        }),
{
    assert(s.skip(i).drop_first() =~= s.skip(i + 1));
    assert(s.skip(i)[0] == s[i]);
}

fn outside_brackets_exec(s: &Vec<char>) -> (r: Vec<char>)
    ensures
        r@ == outside_brackets(s@, 0),
{
    let mut out: Vec<char> = Vec::new();
    let mut depth: usize = 0;
    let mut i: usize = 0;
    assert(s@.skip(0) =~= s@);
    while i < s.len()
        invariant
            i <= s.len(),
            depth <= i,
            out@ + outside_brackets(s@.skip(i as int), depth as nat) == outside_brackets(s@, 0),
        decreases s.len() - i,
    {
        proof {
            lemma_outside_step(s@, i as int, depth as nat);
        }
        let c = s[i];
        if c == '(' || c == '[' || c == '{' {
            depth += 1;
        } else if c == ')' || c == ']' || c == '}' {
            if depth > 0 {
                depth -= 1;
            }
        } else if depth == 0 {
            let ghost o = out@;
            out.push(c);
            assert(out@ + outside_brackets(s@.skip(i + 1), 0) =~= o + (seq![c]
                + outside_brackets(s@.skip(i + 1), 0)));
        }
        i += 1;
    }
    assert(s@.skip(i as int) =~= Seq::<char>::empty());
    assert(out@ + Seq::<char>::empty() =~= out@);
    out
}

fn trim_end_punct_exec(s: &Vec<char>) -> (r: Vec<char>)
    ensures
        r@ == trim_end_punct(s@),
{
    let mut b = s.len();
    assert(s@.subrange(0, s.len() as int) =~= s@);
    while b > 0 && (s[b - 1] == '.' || s[b - 1] == ',' || s[b - 1] == '!' || s[b - 1] == '…')
        invariant
            b <= s.len(),
            trim_end_punct(s@) == trim_end_punct(s@.subrange(0, b as int)),
        decreases b,
    {
        proof {
            assert(s@.subrange(0, b as int).drop_last() =~= s@.subrange(0, b - 1));
        }
        b -= 1;
    }
    proof {
        assert(s@.subrange(0, s.len() as int) =~= s@);
    }
    slice_vec(s, 0, b)
}

fn strip_function_word_exec(s: &Vec<char>) -> (r: Vec<char>)
    ensures
        r@ == strip_function_word(s@),
{
    let to = chars_of("to ");
    let the = chars_of("the ");
    let an = chars_of("an ");
    let a = chars_of("a ");
    proof {
        reveal_strlit("to ");
        reveal_strlit("the ");
        reveal_strlit("an ");
        reveal_strlit("a ");
    }
    if starts_with_exec(s, &to) {
        slice_vec(s, 3, s.len())
    } else if starts_with_exec(s, &the) {
        slice_vec(s, 4, s.len())
    } else if starts_with_exec(s, &an) {
        slice_vec(s, 3, s.len())
    } else if starts_with_exec(s, &a) {
        slice_vec(s, 2, s.len())
    } else {
        slice_vec(s, 0, s.len())
    }
}

pub fn clean_segment_vec(seg: &Vec<char>) -> (r: Vec<char>)
    ensures
        r@ == spec_clean_segment(seg@),
{
    let out = outside_brackets_exec(seg);
    let t = trim_vec(&out);
    let p = trim_end_punct_exec(&t);
    let ps = string_of(&p);
    let low = lower_str(ps.as_str());
    let lv = chars_of(low.as_str());
    let st = strip_function_word_exec(&lv);
    trim_vec(&st)
}

/// Strip a gloss segment to its core: drop parentheticals, a leading "to " (verb glosses),
/// trailing punctuation; lowercase + trim.
pub fn clean_segment(seg: &str) -> (r: String)
    ensures
        r@ == spec_clean_segment(seg@),
{
    let v = chars_of(seg);
    let c = clean_segment_vec(&v);
    string_of(&c)
}

// ---------------------------------------------------------------------------------------------
// Whole-word search
// ---------------------------------------------------------------------------------------------
/// `needle` occurs at `i` with no ASCII letter or digit directly before or after it.
pub open spec fn boundary_at(hay: Seq<char>, needle: Seq<char>, i: int) -> bool {
    &&& occurs_at(hay, needle, i)
    &&& (i == 0 || !is_ascii_alnum(hay[i - 1]))
    &&& (i + needle.len() >= hay.len() || !is_ascii_alnum(hay[i + needle.len()]))
}

pub open spec fn spec_contains_word(hay: Seq<char>, needle: Seq<char>) -> bool {
    needle.len() > 0 && exists|i: int| boundary_at(hay, needle, i)
}

fn boundary_at_exec(hay: &Vec<char>, needle: &Vec<char>, i: usize) -> (r: bool)
    ensures
        r == boundary_at(hay@, needle@, i as int),
{
    if !occurs_at_exec(hay, needle, i) {
        return false;
    }
    assert(i + needle.len() <= hay.len());
    let before_ok = i == 0 || !ch_is_ascii_alnum(hay[i - 1]);
    let after = i + needle.len();
    let after_ok = after >= hay.len() || !ch_is_ascii_alnum(hay[after]);
    before_ok && after_ok
}

pub fn contains_word_vec(hay: &Vec<char>, needle: &Vec<char>) -> (r: bool)
    ensures
        r == spec_contains_word(hay@, needle@),
{
    if needle.len() == 0 {
        return false;
    }
    let mut i: usize = 0;
    while i < hay.len()
        invariant
            i <= hay.len(),
            needle.len() > 0,
            forall|k: int| 0 <= k < i ==> !boundary_at(hay@, needle@, k),
        decreases hay.len() - i,
    {
        if boundary_at_exec(hay, needle, i) {
            assert(boundary_at(hay@, needle@, i as int));
            return true;
        }
        i += 1;
    }
    assert forall|k: int| !boundary_at(hay@, needle@, k) by {
        if 0 <= k && k < i {
        }
    }
    false
}

/// Does `hay` contain `needle` as a whole word / phrase (boundary-aware)?
pub fn contains_word(hay: &str, needle: &str) -> (r: bool)
    ensures
        r == spec_contains_word(hay@, needle@),
{
    let h = chars_of(hay);
    let n = chars_of(needle);
    contains_word_vec(&h, &n)
}

// ---------------------------------------------------------------------------------------------
// The ranking stemmer
// ---------------------------------------------------------------------------------------------
pub open spec fn stem_rule(k: int) -> (Seq<char>, Seq<char>) {
    if k == 0 {
        ("ies"@, "y"@)
    } else if k == 1 {
        ("ied"@, "y"@)
    } else if k == 2 {
        ("ying"@, ""@)
    } else if k == 3 {
        ("ing"@, ""@)
    } else if k == 4 {
        ("edly"@, ""@)
    } else if k == 5 {
        ("ed"@, ""@)
    } else if k == 6 {
        ("es"@, ""@)
    } else {
        ("s"@, ""@)
    }
}

/// Rules `k..8` tried in order: the first suffix that leaves a stem of at least 3 bytes wins.
pub open spec fn stem_word_from(w: Seq<char>, k: int) -> Seq<char>
    decreases 8 - k,
{
    if k >= 8 || k < 0 {
        w
    } else {
        let (suf, rep) = stem_rule(k);
        if ends_with(w, suf) && byte_len(w.subrange(0, w.len() - suf.len())) >= 3 {
            w.subrange(0, w.len() - suf.len()) + rep
        } else {
            stem_word_from(w, k + 1)
        }
    }
}

/// Strip a common inflectional suffix ("ears"→"ear", "studies"→"study", "loved"→"lov").
pub open spec fn spec_stem_word(w: Seq<char>) -> Seq<char> {
    stem_word_from(w, 0)
}

pub fn stem_word(w: &Vec<char>) -> (r: Vec<char>)
    ensures
        r@ == spec_stem_word(w@),
{
    proof {
        reveal_strlit("ies");
        reveal_strlit("ied");
        reveal_strlit("ying");
        reveal_strlit("ing");
        reveal_strlit("edly");
        reveal_strlit("ed");
        reveal_strlit("es");
        reveal_strlit("s");
        reveal_strlit("y");
        reveal_strlit("");
    }
    let sufs: [&str; 8] = ["ies", "ied", "ying", "ing", "edly", "ed", "es", "s"];
    let reps: [&str; 8] = ["y", "y", "", "", "", "", "", ""];
    let mut k: usize = 0;
    while k < 8
        invariant
            k <= 8,
            forall|j: int| 0 <= j < 8 ==> #[trigger] sufs@[j]@ == stem_rule(j).0 && reps@[j]@
                == stem_rule(j).1,
            spec_stem_word(w@) == stem_word_from(w@, k as int),
        decreases 8 - k,
    {
        let suf = chars_of(sufs[k]);
        if ends_with_exec(w, &suf) {
            let stem = slice_vec(w, 0, w.len() - suf.len());
            if byte_len_exec(&stem) >= 3 {
                let mut r = stem;
                let rep = chars_of(reps[k]);
                append_vec(&mut r, &rep);
                return r;
            }
        }
        k += 1;
    }
    slice_vec(w, 0, w.len())
}

/// The pieces of `s` between `sep` characters, empty pieces included (`str::split`).
pub open spec fn split_from(s: Seq<char>, cur: Seq<char>, sep: spec_fn(char) -> bool) -> Seq<
    Seq<char>,
>
    decreases s.len(),
{
    if s.len() == 0 {
        seq![cur]
    } else if sep(s[0]) {
        seq![cur] + split_from(s.drop_first(), Seq::empty(), sep)
    } else {
        split_from(s.drop_first(), cur.push(s[0]), sep)
    }
}

pub open spec fn split(s: Seq<char>, sep: spec_fn(char) -> bool) -> Seq<Seq<char>> {
    split_from(s, Seq::empty(), sep)
}

proof fn lemma_split_step(s: Seq<char>, i: int, cur: Seq<char>, sep: spec_fn(char) -> bool)
    requires
        0 <= i < s.len(),
    ensures
        split_from(s.skip(i), cur, sep) == (if sep(s[i]) {
            seq![cur] + split_from(s.skip(i + 1), Seq::empty(), sep)
        } else {
            split_from(s.skip(i + 1), cur.push(s[i]), sep)
        }),
{
    assert(s.skip(i).drop_first() =~= s.skip(i + 1));
    assert(s.skip(i)[0] == s[i]);
}

/// `str::split` with a character predicate, as character vectors.
pub(crate) fn split_vec(s: &Vec<char>, Ghost(sep): Ghost<spec_fn(char) -> bool>, seps: &Vec<char>) -> (r: Vec<Vec<char>>)
    requires
        forall|c: char| sep(c) <==> seps@.contains(c),
    ensures
        r@.map_values(|t: Vec<char>| t@) == split(s@, sep),
{
    let mut out: Vec<Vec<char>> = Vec::new();
    let mut cur: Vec<char> = Vec::new();
    let mut i: usize = 0;
    assert(s@.skip(0) =~= s@);
    assert(cur@ =~= Seq::<char>::empty());
    assert(out@.map_values(|t: Vec<char>| t@) =~= Seq::<Seq<char>>::empty());
    while i < s.len()
        invariant
            i <= s.len(),
            forall|c: char| sep(c) <==> seps@.contains(c),
            out@.map_values(|t: Vec<char>| t@) + split_from(s@.skip(i as int), cur@, sep) == split(
                s@,
                sep,
            ),
        decreases s.len() - i,
    {
        proof {
            lemma_split_step(s@, i as int, cur@, sep);
        }
        let c = s[i];
        let mut is_sep = false;
        let mut j: usize = 0;
        while j < seps.len()
            invariant
                j <= seps.len(),
                is_sep == exists|k: int| 0 <= k < j && seps@[k] == c,
            decreases seps.len() - j,
        {
            if seps[j] == c {
                is_sep = true;
            }
            j += 1;
        }
        proof {
            if is_sep {
                let k = choose|k: int| 0 <= k < j && seps@[k] == c;
                assert(seps@.contains(c));
            } else {
                if seps@.contains(c) {
                    let k = choose|k: int| 0 <= k < seps@.len() && seps@[k] == c;
                    assert(false);
                }
            }
        }
        if is_sep {
            let ghost o = out@;
            let ghost cv = cur@;
            out.push(cur);
            proof {
                assert(out@.map_values(|t: Vec<char>| t@) =~= o.map_values(|t: Vec<char>| t@)
                    + seq![cv]);
            }
            cur = Vec::new();
            proof {
                assert(cur@ =~= Seq::<char>::empty());
            }
        } else {
            cur.push(c);
        }
        i += 1;
    }
    proof {
        assert(s@.skip(i as int) =~= Seq::<char>::empty());
    }
    let ghost o = out@;
    let ghost cv = cur@;
    out.push(cur);
    proof {
        assert(out@.map_values(|t: Vec<char>| t@) =~= o.map_values(|t: Vec<char>| t@) + seq![cv]);
    }
    out
}

pub open spec fn is_space(c: char) -> bool {
    c == ' '
}

/// Every space-separated word of a phrase stemmed, rejoined with single spaces.
pub open spec fn spec_stem_phrase(s: Seq<char>) -> Seq<char> {
    join(split(s, |c: char| is_space(c)).map_values(|w: Seq<char>| spec_stem_word(w)), " "@)
}

pub fn stem_phrase(s: &Vec<char>) -> (r: Vec<char>)
    ensures
        r@ == spec_stem_phrase(s@),
{
    let seps = vec![' '];
    let ghost sep = |c: char| is_space(c);
    assert forall|c: char| sep(c) <==> seps@.contains(c) by {
        if c == ' ' {
            assert(seps@[0] == ' ');
        }
    }
    let ws = split_vec(s, Ghost(sep), &seps);
    let ghost pieces = ws@.map_values(|t: Vec<char>| t@);
    let ghost stems = pieces.map_values(|w: Seq<char>| spec_stem_word(w));
    let mut out: Vec<char> = Vec::new();
    let mut i: usize = 0;
    proof {
        reveal_strlit(" ");
    }
    while i < ws.len()
        invariant
            i <= ws.len(),
            pieces == ws@.map_values(|t: Vec<char>| t@),
            stems == pieces.map_values(|w: Seq<char>| spec_stem_word(w)),
            out@ == join(stems.take(i as int), " "@),
        decreases ws.len() - i,
    {
        proof {
            reveal_strlit(" ");
        }
        if i > 0 {
            out.push(' ');
        }
        let st = stem_word(&ws[i]);
        append_vec(&mut out, &st);
        proof {
            assert(stems.take(i + 1).drop_last() =~= stems.take(i as int));
            assert(stems.take(i + 1).last() == stems[i as int]);
            if i == 0 {
                assert(out@ =~= stems[0]);
            } else {
                assert(out@ =~= join(stems.take(i as int), " "@) + " "@ + stems[i as int]);
            }
        }
        i += 1;
    }
    proof {
        assert(stems.take(ws.len() as int) =~= stems);
    }
    out
}

/// Equal, or equal modulo one trailing byte the crude stemmer cannot recover (lov ≈ love): the
/// shorter (by bytes) has at least 3 bytes and is a prefix of the longer, at most one byte
/// shorter.
pub open spec fn spec_stem_close(a: Seq<char>, b: Seq<char>) -> bool {
    if a == b {
        true
    } else {
        let (short, long) = if byte_len(a) <= byte_len(b) {
            (a, b)
        } else {
            (b, a)
        };
        byte_len(short) >= 3 && starts_with(long, short) && byte_len(long) - byte_len(short) <= 1
    }
}

pub fn stem_close(a: &Vec<char>, b: &Vec<char>) -> (r: bool)
    ensures
        r == spec_stem_close(a@, b@),
{
    if seq_eq(a, b) {
        return true;
    }
    let la = byte_len_exec(a);
    let lb = byte_len_exec(b);
    let (short, long, ls, ll) = if la <= lb {
        (a, b, la, lb)
    } else {
        (b, a, lb, la)
    };
    ls >= 3 && starts_with_exec(long, short) && ll - ls <= 1
}

// ---------------------------------------------------------------------------------------------
// How well a gloss matches an English query
// ---------------------------------------------------------------------------------------------
/// Match tiers, weakest first: the term only co-occurs; it appears as a whole word; a gloss
/// segment starts with it; a segment *is* it (modulo stemming).
#[derive(Clone, Copy, PartialEq, Eq, Debug, Structural)]
pub enum GlossQuality {
    Incidental,
    Word,
    Leading,
    Exact,
}

impl GlossQuality {
    /// The tier as a score in hundredths: 100 (a segment is the term), 85 (a segment starts
    /// with it), 50 (a whole-word mention), 20 (incidental).
    pub open spec fn spec_hundredths(self) -> nat {
        match self {
            GlossQuality::Exact => 100,
            GlossQuality::Leading => 85,
            GlossQuality::Word => 50,
            GlossQuality::Incidental => 20,
        }
    }

    pub fn hundredths(self) -> (r: u32)
        ensures
            r == self.spec_hundredths(),
    {
        match self {
            GlossQuality::Exact => 100,
            GlossQuality::Leading => 85,
            GlossQuality::Word => 50,
            GlossQuality::Incidental => 20,
        }
    }
}

pub open spec fn quality_rank(q: GlossQuality) -> nat {
    match q {
        GlossQuality::Incidental => 0,
        GlossQuality::Word => 1,
        GlossQuality::Leading => 2,
        GlossQuality::Exact => 3,
    }
}

pub open spec fn quality_max(a: GlossQuality, b: GlossQuality) -> GlossQuality {
    if quality_rank(a) >= quality_rank(b) {
        a
    } else {
        b
    }
}

fn quality_max_exec(a: GlossQuality, b: GlossQuality) -> (r: GlossQuality)
    ensures
        r == quality_max(a, b),
{
    let ra: u8 = match a {
        GlossQuality::Incidental => 0,
        GlossQuality::Word => 1,
        GlossQuality::Leading => 2,
        GlossQuality::Exact => 3,
    };
    let rb: u8 = match b {
        GlossQuality::Incidental => 0,
        GlossQuality::Word => 1,
        GlossQuality::Leading => 2,
        GlossQuality::Exact => 3,
    };
    if ra >= rb {
        a
    } else {
        b
    }
}

pub open spec fn is_gloss_sep(c: char) -> bool {
    c == ';' || c == '|'
}

/// The segment is the query term: equal after cleaning, equal after stemming, or stem-close.
pub open spec fn seg_exact(s: Seq<char>, sd: Seq<char>, ql: Seq<char>, qd: Seq<char>) -> bool {
    s == ql || sd == qd || spec_stem_close(sd, qd)
}

/// The stemmed segment starts with the stemmed query followed by a space.
pub open spec fn seg_leading(sd: Seq<char>, qd: Seq<char>) -> bool {
    starts_with(sd, qd) && sd.len() > qd.len() && sd[qd.len() as int] == ' '
}

/// Scanning the segments in order from a running best: an exact segment ends the scan with
/// `Exact`; otherwise the best tier seen so far is kept.
pub open spec fn quality_from(segs: Seq<Seq<char>>, ql: Seq<char>, qd: Seq<char>, best: GlossQuality) -> GlossQuality
    decreases segs.len(),
{
    if segs.len() == 0 {
        best
    } else {
        let s = spec_clean_segment(segs[0]);
        let sd = spec_stem_phrase(s);
        if seg_exact(s, sd, ql, qd) {
            GlossQuality::Exact
        } else if seg_leading(sd, qd) {
            quality_from(segs.drop_first(), ql, qd, quality_max(best, GlossQuality::Leading))
        } else if spec_contains_word(sd, qd) {
            quality_from(segs.drop_first(), ql, qd, quality_max(best, GlossQuality::Word))
        } else {
            quality_from(segs.drop_first(), ql, qd, best)
        }
    }
}

/// How well an English gloss matches the (lowercased) query term, compared on stems.
pub open spec fn spec_gloss_quality(gloss: Seq<char>, ql: Seq<char>) -> GlossQuality {
    quality_from(
        split(gloss, |c: char| is_gloss_sep(c)),
        ql,
        spec_stem_phrase(ql),
        GlossQuality::Incidental,
    )
}

/// How well an English gloss matches the query term: a segment *is* the term, starts with it,
/// contains it as a whole word, or only mentions it incidentally. Segments split on `;` and `|`.
pub fn gloss_match_quality(gloss: &str, ql: &str) -> (r: GlossQuality)
    ensures
        r == spec_gloss_quality(gloss@, ql@),
{
    let g = chars_of(gloss);
    let q = chars_of(ql);
    let qd = stem_phrase(&q);
    let seps = vec![';', '|'];
    let ghost sep = |c: char| is_gloss_sep(c);
    assert forall|c: char| sep(c) <==> seps@.contains(c) by {
        if c == ';' {
            assert(seps@[0] == ';');
        }
        if c == '|' {
            assert(seps@[1] == '|');
        }
    }
    let segs = split_vec(&g, Ghost(sep), &seps);
    let ghost sv = segs@.map_values(|t: Vec<char>| t@);
    let mut best = GlossQuality::Incidental;
    let mut i: usize = 0;
    assert(sv.skip(0) =~= sv);
    while i < segs.len()
        invariant
            i <= segs.len(),
            sv == segs@.map_values(|t: Vec<char>| t@),
            sv == split(g@, sep),
            sep == (|c: char| is_gloss_sep(c)),
            qd@ == spec_stem_phrase(q@),
            q@ == ql@,
            g@ == gloss@,
            quality_from(sv.skip(i as int), ql@, qd@, best) == spec_gloss_quality(gloss@, ql@),
        decreases segs.len() - i,
    {
        proof {
            assert(sv.skip(i as int).drop_first() =~= sv.skip(i + 1));
            assert(sv.skip(i as int)[0] == segs@[i as int]@);
        }
        let s = clean_segment_vec(&segs[i]);
        let sd = stem_phrase(&s);
        if seq_eq(&s, &q) || seq_eq(&sd, &qd) || stem_close(&sd, &qd) {
            return GlossQuality::Exact;
        }
        let leading = starts_with_exec(&sd, &qd) && sd.len() > qd.len() && sd[qd.len()] == ' ';
        if leading {
            best = quality_max_exec(best, GlossQuality::Leading);
        } else if contains_word_vec(&sd, &qd) {
            best = quality_max_exec(best, GlossQuality::Word);
        }
        i += 1;
    }
    proof {
        assert(sv.skip(i as int).len() == 0);
    }
    best
}

/// The retrieval tier of an English (gloss) match.
#[derive(Clone, Copy, PartialEq, Eq, Debug, Structural)]
pub enum EnglishTier {
    /// the term is this word's primary sense
    PrimarySense,
    /// a sense equals the term
    Exact,
    /// a sense starts with the term
    Leading,
    /// the term appears as a whole word
    Word,
    /// incidental co-occurrence
    Incidental,
}

pub open spec fn spec_english_tier(q: GlossQuality, reading_hit: bool, ql_single: bool, sense_order: i64) -> EnglishTier {
    if q == GlossQuality::Exact && reading_hit && ql_single {
        // a one-word romanisation whose "gloss" only echoes it: a transliteration label
        EnglishTier::Word
    } else if q == GlossQuality::Exact && sense_order == 0 {
        EnglishTier::PrimarySense
    } else {
        match q {
            GlossQuality::Exact => EnglishTier::Exact,
            GlossQuality::Leading => EnglishTier::Leading,
            GlossQuality::Word => EnglishTier::Word,
            GlossQuality::Incidental => EnglishTier::Incidental,
        }
    }
}

/// The tier of an English match: an exact sense is demoted to a whole-word match when the query
/// is itself a one-word reading (the gloss is a transliteration label), and promoted when the
/// sense is the word's first.
pub fn english_tier(q: GlossQuality, reading_hit: bool, ql_single: bool, sense_order: i64) -> (r: EnglishTier)
    ensures
        r == spec_english_tier(q, reading_hit, ql_single, sense_order),
{
    if q == GlossQuality::Exact && reading_hit && ql_single {
        EnglishTier::Word
    } else if q == GlossQuality::Exact && sense_order == 0 {
        EnglishTier::PrimarySense
    } else {
        match q {
            GlossQuality::Exact => EnglishTier::Exact,
            GlossQuality::Leading => EnglishTier::Leading,
            GlossQuality::Word => EnglishTier::Word,
            GlossQuality::Incidental => EnglishTier::Incidental,
        }
    }
}

} // verus!

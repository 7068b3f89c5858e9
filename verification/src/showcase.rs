//! The homepage showcase: six categories of noteworthy entries (kokuji, 日/中 false friends,
//! words coined in Japan, 粵字, simplified merges, English false friends), drawn fresh each time and
//! merged round-robin so a short list still shows every category; and the captions that say what
//! makes each entry interesting.
use vstd::prelude::*;
use crate::chars::{append_vec, chars_of, string_of};
use crate::script::{renderable_cjk, spec_renderable_cjk, str_eq};
use crate::words::{divergent_meaning, short_gloss, spec_divergent_meaning, spec_short_gloss};
use crate::plan::opt_view;

verus! {

/// How many categories the showcase draws from.
pub const N_BUCKETS: usize = 6;

/// How many entries to draw per category so `limit` can be filled when some come up short: the
/// ceiling of `limit / 6`, at least 1.
pub open spec fn spec_per_bucket(limit: nat) -> nat {
    let p = (limit + 5) / 6;
    if p < 1 {
        1
    } else {
        p
    }
}

pub fn per_bucket(limit: usize) -> (r: usize)
    requires
        limit + 5 <= usize::MAX,
    ensures
        r == spec_per_bucket(limit as nat),
{
    let p = (limit + 5) / 6;
    if p < 1 {
        1
    } else {
        p
    }
}

/// Round `i` of the merge: the `i`-th entry of every category that has one, in category order.
pub open spec fn round(sizes: Seq<usize>, i: nat) -> Seq<(usize, usize)>
    decreases sizes.len(),
{
    if sizes.len() == 0 {
        Seq::empty()
    } else {
        round(sizes.drop_last(), i) + if i < sizes.last() {
            seq![((sizes.len() - 1) as usize, i as usize)]
        } else {
            Seq::<(usize, usize)>::empty()
        }
    }
}

/// Rounds `0..n` one after the other.
pub open spec fn rounds(sizes: Seq<usize>, n: nat) -> Seq<(usize, usize)>
    decreases n,
{
    if n == 0 {
        Seq::empty()
    } else {
        rounds(sizes, (n - 1) as nat) + round(sizes, (n - 1) as nat)
    }
}

/// The showcase order: `per` rounds over the categories (entry `(category, position)`), cut to
/// `limit`.
pub open spec fn spec_round_robin(sizes: Seq<usize>, per: nat, limit: nat) -> Seq<(usize, usize)> {
    let all = rounds(sizes, per);
    if all.len() <= limit {
        all
    } else {
        all.take(limit as int)
    }
}

fn round_exec(sizes: &Vec<usize>, i: usize, out: &mut Vec<(usize, usize)>)
    ensures
        final(out)@ == old(out)@ + round(sizes@, i as nat),
{
    let ghost o0 = out@;
    for b in 0..sizes.len()
        invariant
            out@ == o0 + round(sizes@.take(b as int), i as nat),
    {
        proof {
            assert(sizes@.take(b + 1).drop_last() =~= sizes@.take(b as int));
            assert(sizes@.take(b + 1).last() == sizes@[b as int]);
        }
        if i < sizes[b] {
            out.push((b, i));
            proof {
                assert(out@ =~= o0 + round(sizes@.take(b + 1), i as nat));
            }
        } else {
            proof {
                assert(out@ =~= o0 + round(sizes@.take(b + 1), i as nat));
            }
        }
    }
    proof {
        assert(sizes@.take(sizes.len() as int) =~= sizes@);
    }
}

/// The order in which category entries are shown: `(category, position)` pairs.
pub fn round_robin(sizes: &Vec<usize>, per: usize, limit: usize) -> (r: Vec<(usize, usize)>)
    ensures
        r@ == spec_round_robin(sizes@, per as nat, limit as nat),
{
    let mut out: Vec<(usize, usize)> = Vec::new();
    for i in 0..per
        invariant
            out@ == rounds(sizes@, i as nat),
    {
        round_exec(sizes, i, &mut out);
    }
    if out.len() > limit {
        out.truncate(limit);
    }
    out
}

proof fn lemma_round_entries(sizes: Seq<usize>, i: nat, k: int)
    requires
        sizes.len() <= usize::MAX,
        i <= usize::MAX,
        0 <= k < round(sizes, i).len(),
    ensures
        round(sizes, i)[k].1 == i,
        round(sizes, i)[k].0 < sizes.len(),
        i < sizes[round(sizes, i)[k].0 as int],
    decreases sizes.len(),
{
    if sizes.len() > 0 {
        let pre = round(sizes.drop_last(), i);
        if k < pre.len() {
            lemma_round_entries(sizes.drop_last(), i, k);
            assert(round(sizes, i)[k] == pre[k]);
            assert(sizes.drop_last()[pre[k].0 as int] == sizes[pre[k].0 as int]);
        } else {
            assert(round(sizes, i)[k] == ((sizes.len() - 1) as usize, i as usize));
            assert(sizes[sizes.len() - 1] == sizes.last());
        }
    }
}

proof fn lemma_rounds_entries(sizes: Seq<usize>, n: nat, k: int)
    requires
        sizes.len() <= usize::MAX,
        n <= usize::MAX,
        0 <= k < rounds(sizes, n).len(),
    ensures
        rounds(sizes, n)[k].1 < n,
        rounds(sizes, n)[k].0 < sizes.len(),
        rounds(sizes, n)[k].1 < sizes[rounds(sizes, n)[k].0 as int],
    decreases n,
{
    if n > 0 {
        let pre = rounds(sizes, (n - 1) as nat);
        if k < pre.len() {
            lemma_rounds_entries(sizes, (n - 1) as nat, k);
            assert(rounds(sizes, n)[k] == pre[k]);
        } else {
            lemma_round_entries(sizes, (n - 1) as nat, k - pre.len());
            assert(rounds(sizes, n)[k] == round(sizes, (n - 1) as nat)[k - pre.len()]);
        }
    }
}

/// The showcase never exceeds its limit, and every entry it names exists: it is among the
/// first `per` of its category.
pub proof fn law_showcase_within_limits(sizes: Seq<usize>, per: nat, limit: nat)
    requires
        sizes.len() <= usize::MAX,
        per <= usize::MAX,
    ensures
        spec_round_robin(sizes, per, limit).len() <= limit,
        forall|k: int|
            0 <= k < spec_round_robin(sizes, per, limit).len() ==> {
                let (b, i) = #[trigger] spec_round_robin(sizes, per, limit)[k];
                b < sizes.len() && i < sizes[b as int] && i < per
            },
{
    let all = rounds(sizes, per);
    assert forall|k: int| 0 <= k < spec_round_robin(sizes, per, limit).len() implies {
        let (b, i) = #[trigger] spec_round_robin(sizes, per, limit)[k];
        b < sizes.len() && i < sizes[b as int] && i < per
    } by {
        assert(spec_round_robin(sizes, per, limit)[k] == all[k]);
        lemma_rounds_entries(sizes, per, k);
    }
}

/// The first entries (positions) whose headword will render, enough to reach `want` (a
/// category query returns a few spare rows for this).
pub open spec fn renderable_from(hws: Seq<Seq<char>>, want: nat, start: int, got: nat) -> Seq<usize>
    decreases hws.len() - start,
{
    if start >= hws.len() || start < 0 {
        Seq::empty()
    } else if spec_renderable_cjk(hws[start]) {
        if got + 1 >= want {
            seq![start as usize]
        } else {
            seq![start as usize] + renderable_from(hws, want, start + 1, got + 1)
        }
    } else {
        renderable_from(hws, want, start + 1, got)
    }
}

pub fn take_renderable(headwords: &Vec<String>, want: usize) -> (r: Vec<usize>)
    ensures
        r@ == renderable_from(headwords@.map_values(|h: String| h@), want as nat, 0, 0),
{
    let ghost hv = headwords@.map_values(|h: String| h@);
    let mut out: Vec<usize> = Vec::new();
    let mut i: usize = 0;
    while i < headwords.len()
        invariant
            hv == headwords@.map_values(|h: String| h@),
            i <= headwords@.len(),
            out@.len() < want || out@.len() == 0,
            out@ + renderable_from(hv, want as nat, i as int, out@.len() as nat) == renderable_from(hv, want as nat, 0, 0),
        decreases headwords@.len() - i,
    {
        if renderable_cjk(headwords[i].as_str()) {
            let ghost o0 = out@;
            out.push(i);
            if out.len() >= want {
                proof {
                    assert(o0 + seq![i] =~= out@);
                }
                return out;
            }
            proof {
                assert(o0 + (seq![i] + renderable_from(hv, want as nat, i + 1, (o0.len() + 1) as nat)) =~= out@
                    + renderable_from(hv, want as nat, i + 1, out@.len() as nat));
            }
        }
        i += 1;
    }
    proof {
        assert(out@ + Seq::<usize>::empty() =~= out@);
    }
    out
}

// ---------------------------------------------------------------------------------------------
// Curated lists
// ---------------------------------------------------------------------------------------------
/// Hand-verified false friends: the same Han spelling with a sharply different meaning in
/// Chinese and Japanese (手紙 = letter in Japanese, toilet paper in Chinese).
pub fn false_friends() -> (r: Vec<&'static str>)
    ensures
        r@.len() == 28,
{
    vec![
        "手紙", "汽車", "勉強", "大丈夫", "高校", "新聞", "工夫", "愛人", "丈夫", "邪魔", "皮肉", "迷惑", "一味",
        "結束", "天井", "人間", "深刻", "老婆", "放心", "約束", "娘", "走", "節目", "大家", "留守", "手心",
        "用意", "石頭",
    ]
}

/// Katakana loanwords that look like an English word but mean something else, each with the
/// English word it resembles.
pub open spec fn lookalike_pair(k: int) -> (Seq<char>, Seq<char>) {
    if k == 0 {
        ("マンション"@, "mansion"@)
    } else if k == 1 {
        ("スマート"@, "smart"@)
    } else if k == 2 {
        ("テンション"@, "tension"@)
    } else if k == 3 {
        ("ナイーブ"@, "naive"@)
    } else if k == 4 {
        ("カンニング"@, "cunning"@)
    } else if k == 5 {
        ("コンセント"@, "consent"@)
    } else if k == 6 {
        ("パンツ"@, "pants"@)
    } else if k == 7 {
        ("ビニール"@, "vinyl"@)
    } else if k == 8 {
        ("トランプ"@, "trump"@)
    } else if k == 9 {
        ("ストーブ"@, "stove"@)
    } else if k == 10 {
        ("クーラー"@, "cooler"@)
    } else if k == 11 {
        ("タレント"@, "talent"@)
    } else if k == 12 {
        ("マニア"@, "mania"@)
    } else {
        ("リフォーム"@, "reform"@)
    }
}

/// How many English false friends are listed.
pub const N_LOOKALIKES: usize = 14;

pub fn lookalike(k: usize) -> (r: (&'static str, &'static str))
    requires
        k < 14,
    ensures
        (r.0@, r.1@) == lookalike_pair(k as int),
{
    match k {
        0 => ("マンション", "mansion"),
        1 => ("スマート", "smart"),
        2 => ("テンション", "tension"),
        3 => ("ナイーブ", "naive"),
        4 => ("カンニング", "cunning"),
        5 => ("コンセント", "consent"),
        6 => ("パンツ", "pants"),
        7 => ("ビニール", "vinyl"),
        8 => ("トランプ", "trump"),
        9 => ("ストーブ", "stove"),
        10 => ("クーラー", "cooler"),
        11 => ("タレント", "talent"),
        12 => ("マニア", "mania"),
        _ => ("リフォーム", "reform"),
    }
}

/// The English word a listed katakana headword resembles (the first pair naming it).
pub open spec fn spec_english_lookalike(headword: Seq<char>) -> Option<Seq<char>> {
    if exists|k: int| 0 <= k < 14 && lookalike_pair(k).0 == headword {
        Some(lookalike_pair(choose|k: int| 0 <= k < 14 && lookalike_pair(k).0 == headword && forall|j: int| 0 <= j < k ==> lookalike_pair(j).0 != headword).1)
    } else {
        None
    }
}

pub fn english_lookalike(headword: &str) -> (r: Option<&'static str>)
    ensures
        match r {
            Some(e) => spec_english_lookalike(headword@) == Some(e@),
            None => spec_english_lookalike(headword@) is None,
        },
{
    for k in 0..N_LOOKALIKES
        invariant
            forall|j: int| 0 <= j < k ==> lookalike_pair(j).0 != headword@,
    {
        let (h, e) = lookalike(k);
        if str_eq(h, headword) {
            proof {
                let c = choose|c: int| 0 <= c < 14 && lookalike_pair(c).0 == headword@ && forall|j: int| 0 <= j < c ==> lookalike_pair(j).0 != headword@;
                assert(0 <= k < 14 && lookalike_pair(k as int).0 == headword@ && forall|j: int| 0 <= j < k ==> lookalike_pair(j).0 != headword@);
                if c < k {
                } else if c > k {
                    assert(lookalike_pair(k as int).0 != headword@);
                }
            }
            return Some(e);
        }
    }
    None
}

// ---------------------------------------------------------------------------------------------
// Captions
// ---------------------------------------------------------------------------------------------
/// "日 letter · 中 toilet paper": the two primary meanings of a false friend, shortened.
pub open spec fn spec_false_friend_why(ja_gloss: Seq<char>, zh_gloss: Seq<char>) -> Seq<char> {
    "日 "@ + spec_short_gloss(ja_gloss) + " · 中 "@ + spec_short_gloss(zh_gloss)
}

pub fn false_friend_why(ja_gloss: &str, zh_gloss: &str) -> (r: String)
    ensures
        r@ == spec_false_friend_why(ja_gloss@, zh_gloss@),
{
    let mut v = chars_of("日 ");
    append_vec(&mut v, &chars_of(short_gloss(ja_gloss).as_str()));
    append_vec(&mut v, &chars_of(" · 中 "));
    append_vec(&mut v, &chars_of(short_gloss(zh_gloss).as_str()));
    string_of(&v)
}

/// "looks like English “mansion” · actually means apartment".
pub open spec fn spec_english_false_friend_why(gloss: Seq<char>, eng: Seq<char>) -> Seq<char> {
    "looks like English “"@ + eng + "” · actually means "@ + spec_divergent_meaning(gloss, eng)
}

pub fn english_false_friend_why(gloss: &str, eng: &str) -> (r: String)
    ensures
        r@ == spec_english_false_friend_why(gloss@, eng@),
{
    let mut v = chars_of("looks like English “");
    append_vec(&mut v, &chars_of(eng));
    append_vec(&mut v, &chars_of("” · actually means "));
    append_vec(&mut v, &chars_of(divergent_meaning(gloss, eng).as_str()));
    string_of(&v)
}

/// The first occurrence of `sep` in `s` at or after `from`, or -1.
pub open spec fn find_from(s: Seq<char>, sep: Seq<char>, from: int) -> int
    decreases s.len() - from,
{
    if sep.len() == 0 || from < 0 || from + sep.len() > s.len() {
        -1
    } else if s.subrange(from, from + sep.len()) == sep {
        from
    } else {
        find_from(s, sep, from + 1)
    }
}

/// `s` cut at up to `n` occurrences of the (non-empty) separator: the text before the `n`-th
/// separator, i.e. the first `n` pieces kept together with the separators between them.
pub open spec fn first_pieces(s: Seq<char>, sep: Seq<char>, n: nat) -> Seq<char>
    decreases n, s.len(),
{
    if n == 0 || sep.len() == 0 {
        Seq::empty()
    } else {
        let i = find_from(s, sep, 0);
        if i < 0 {
            s
        } else if n == 1 {
            s.subrange(0, i)
        } else {
            s.subrange(0, i) + sep + first_pieces(s.subrange(i + sep.len(), s.len() as int), sep, (n - 1) as nat)
        }
    }
}

proof fn lemma_find_from_range(s: Seq<char>, sep: Seq<char>, from: int)
    ensures
        find_from(s, sep, from) == -1 || (from <= find_from(s, sep, from) && find_from(s, sep, from) + sep.len() <= s.len()
            && s.subrange(find_from(s, sep, from), find_from(s, sep, from) + sep.len()) == sep),
    decreases s.len() - from,
{
    if !(sep.len() == 0 || from < 0 || from + sep.len() > s.len()) && s.subrange(from, from + sep.len()) != sep {
        lemma_find_from_range(s, sep, from + 1);
    }
}

fn find_from_exec(s: &Vec<char>, sep: &Vec<char>, from: usize) -> (r: Option<usize>)
    requires
        from <= s@.len(),
    ensures
        match r {
            Some(i) => find_from(s@, sep@, from as int) == i,
            None => find_from(s@, sep@, from as int) == -1,
        },
    decreases s@.len() - from,
{
    if sep.len() == 0 || sep.len() > s.len() - from {
        return None;
    }
    let mut k: usize = 0;
    let mut at: usize = from;
    let slen = s.len();
    while k < sep.len() && s[at] == sep[k]
        invariant
            slen == s@.len(),
            from + sep@.len() <= s@.len(),
            k <= sep@.len(),
            at == from + k,
            forall|j: int| 0 <= j < k ==> s@[from + j] == sep@[j],
        decreases sep@.len() - k,
    {
        k += 1;
        at += 1;
    }
    if k == sep.len() {
        proof {
            assert(s@.subrange(from as int, from + sep@.len()) =~= sep@);
        }
        Some(from)
    } else {
        proof {
            assert(s@.subrange(from as int, from + sep@.len())[k as int] != sep@[k as int]);
        }
        find_from_exec(s, sep, from + 1)
    }
}

/// At most three merged-away forms, so the caption stays one line: "one simplified form of 乾 · 幹".
pub open spec fn spec_merge_why(parents: Seq<char>) -> Seq<char> {
    "one simplified form of "@ + first_pieces(parents, " · "@, 3)
}

fn first_pieces_exec(s: &Vec<char>, sep: &Vec<char>, n: usize) -> (r: Vec<char>)
    ensures
        r@ == first_pieces(s@, sep@, n as nat),
    decreases n, s@.len(),
{
    if n == 0 || sep.len() == 0 {
        return Vec::new();
    }
    match find_from_exec(s, sep, 0) {
        None => crate::chars::slice_vec(s, 0, s.len()),
        Some(i) => {
            proof {
                lemma_find_from_range(s@, sep@, 0);
            }
            let mut head = crate::chars::slice_vec(s, 0, i);
            if n == 1 {
                return head;
            }
            let rest = crate::chars::slice_vec(s, i + sep.len(), s.len());
            let tail = first_pieces_exec(&rest, sep, n - 1);
            append_vec(&mut head, sep);
            append_vec(&mut head, &tail);
            head
        },
    }
}

pub fn merge_why(parents: &str) -> (r: String)
    ensures
        r@ == spec_merge_why(parents@),
{
    let p = chars_of(parents);
    let sep = chars_of(" · ");
    let shown = first_pieces_exec(&p, &sep, 3);
    let mut v = chars_of("one simplified form of ");
    append_vec(&mut v, &shown);
    string_of(&v)
}


// ---------------------------------------------------------------------------------------------
// Picking the false friends
// ---------------------------------------------------------------------------------------------
/// Positions with their captions, as plain values.
pub open spec fn captions_view(s: Seq<(usize, String)>) -> Seq<(usize, Seq<char>)> {
    s.map_values(|p: (usize, String)| (p.0, p.1@))
}

/// A Japanese/Chinese false-friend row: the headword and the first glosses of the Japanese and
/// of the Chinese word.
pub open spec fn ff_row(r: (String, Option<String>, Option<String>)) -> (Seq<char>, Option<Seq<char>>, Option<Seq<char>>) {
    (r.0@, opt_view(r.1), opt_view(r.2))
}

/// A false friend is shown when both glosses are known (the contrast needs both) and the
/// headword renders.
pub open spec fn ff_shown(r: (Seq<char>, Option<Seq<char>>, Option<Seq<char>>)) -> bool {
    r.1 is Some && r.2 is Some && spec_renderable_cjk(r.0)
}

/// The false friends shown, in row order, each with its caption, until `want` are held (the
/// first one shown always is).
pub open spec fn ff_from(rows: Seq<(Seq<char>, Option<Seq<char>>, Option<Seq<char>>)>, want: nat, start: int, got: nat) -> Seq<(usize, Seq<char>)>
    decreases rows.len() - start,
{
    if start >= rows.len() || start < 0 {
        Seq::empty()
    } else if ff_shown(rows[start]) {
        let item = (start as usize, spec_false_friend_why(rows[start].1->0, rows[start].2->0));
        if got + 1 >= want {
            seq![item]
        } else {
            seq![item] + ff_from(rows, want, start + 1, got + 1)
        }
    } else {
        ff_from(rows, want, start + 1, got)
    }
}

/// The false-friend rows to show (positions) with their "日 … · 中 …" captions.
pub fn pick_false_friends(rows: &Vec<(String, Option<String>, Option<String>)>, want: usize) -> (r: Vec<(usize, String)>)
    ensures
        captions_view(r@) == ff_from(rows@.map_values(|x: (String, Option<String>, Option<String>)| ff_row(x)), want as nat, 0, 0),
{
    let ghost rv = rows@.map_values(|x: (String, Option<String>, Option<String>)| ff_row(x));
    let mut out: Vec<(usize, String)> = Vec::new();
    let mut i: usize = 0;
    while i < rows.len()
        invariant
            rv == rows@.map_values(|x: (String, Option<String>, Option<String>)| ff_row(x)),
            i <= rows@.len(),
            out@.len() < want || out@.len() == 0,
            captions_view(out@) + ff_from(rv, want as nat, i as int, out@.len() as nat) == ff_from(rv, want as nat, 0, 0),
        decreases rows@.len() - i,
    {
        let ghost o0 = captions_view(out@);
        let shown = match (&rows[i].1, &rows[i].2) {
            (Some(_), Some(_)) => renderable_cjk(rows[i].0.as_str()),
            _ => false,
        };
        if shown {
            let why = match (&rows[i].1, &rows[i].2) {
                (Some(j), Some(z)) => false_friend_why(j.as_str(), z.as_str()),
                _ => String::new(),
            };
            out.push((i, why));
            proof {
                assert(captions_view(out@) =~= o0 + seq![(i, spec_false_friend_why(rv[i as int].1->0, rv[i as int].2->0))]);
            }
            if out.len() >= want {
                return out;
            }
            proof {
                assert(o0 + (seq![(i, spec_false_friend_why(rv[i as int].1->0, rv[i as int].2->0))] + ff_from(rv, want as nat, i + 1, (o0.len() + 1) as nat))
                    =~= captions_view(out@) + ff_from(rv, want as nat, i + 1, out@.len() as nat));
            }
        }
        i += 1;
    }
    proof {
        assert(captions_view(out@) + Seq::<(usize, Seq<char>)>::empty() =~= captions_view(out@));
    }
    out
}

/// An English false-friend row: the katakana headword and its first gloss.
pub open spec fn eff_row(r: (String, Option<String>)) -> (Seq<char>, Option<Seq<char>>) {
    (r.0@, opt_view(r.1))
}

/// The English false friends shown, in row order, each with its "looks like English …"
/// caption, until `want` are held: a row needs a gloss and a listed English lookalike.
pub open spec fn eff_from(rows: Seq<(Seq<char>, Option<Seq<char>>)>, want: nat, start: int, got: nat) -> Seq<(usize, Seq<char>)>
    decreases rows.len() - start,
{
    if start >= rows.len() || start < 0 {
        Seq::empty()
    } else if rows[start].1 is Some && spec_english_lookalike(rows[start].0) is Some {
        let item = (start as usize, spec_english_false_friend_why(rows[start].1->0, spec_english_lookalike(rows[start].0)->0));
        if got + 1 >= want {
            seq![item]
        } else {
            seq![item] + eff_from(rows, want, start + 1, got + 1)
        }
    } else {
        eff_from(rows, want, start + 1, got)
    }
}

/// The English false-friend rows to show (positions) with their captions.
pub fn pick_english_false_friends(rows: &Vec<(String, Option<String>)>, want: usize) -> (r: Vec<(usize, String)>)
    ensures
        captions_view(r@) == eff_from(rows@.map_values(|x: (String, Option<String>)| eff_row(x)), want as nat, 0, 0),
{
    let ghost rv = rows@.map_values(|x: (String, Option<String>)| eff_row(x));
    let mut out: Vec<(usize, String)> = Vec::new();
    let mut i: usize = 0;
    while i < rows.len()
        invariant
            rv == rows@.map_values(|x: (String, Option<String>)| eff_row(x)),
            i <= rows@.len(),
            out@.len() < want || out@.len() == 0,
            captions_view(out@) + eff_from(rv, want as nat, i as int, out@.len() as nat) == eff_from(rv, want as nat, 0, 0),
        decreases rows@.len() - i,
    {
        let ghost o0 = captions_view(out@);
        if let Some(g) = &rows[i].1 {
            if let Some(eng) = english_lookalike(rows[i].0.as_str()) {
                let why = english_false_friend_why(g.as_str(), eng);
                out.push((i, why));
                proof {
                    assert(captions_view(out@) =~= o0 + seq![(i, spec_english_false_friend_why(rv[i as int].1->0, eng@))]);
                }
                if out.len() >= want {
                    return out;
                }
                proof {
                    assert(o0 + (seq![(i, spec_english_false_friend_why(rv[i as int].1->0, eng@))] + eff_from(rv, want as nat, i + 1, (o0.len() + 1) as nat))
                        =~= captions_view(out@) + eff_from(rv, want as nat, i + 1, out@.len() as nat));
                }
            }
        }
        i += 1;
    }
    proof {
        assert(captions_view(out@) + Seq::<(usize, Seq<char>)>::empty() =~= captions_view(out@));
    }
    out
}

} // verus!

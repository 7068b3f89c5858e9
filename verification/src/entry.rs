//! The decisions that shape a dictionary entry: which characters it breaks down into, which
//! related words are listed and in what order, which per-language origin accounts it shows, and
//! which batch ids a request names.
use vstd::prelude::*;
use crate::chars::{chars_of, contains_seq, contains_exec, lower_str, str_lowercase, string_of};
use crate::model::Form;
use crate::script::{is_han, spec_is_han, str_eq};

verus! {

// ---------------------------------------------------------------------------------------------
// A set of lexeme ids
// ---------------------------------------------------------------------------------------------
/// The lexeme ids already placed on a page (so no word is listed twice).
pub struct SeenIds {
    ids: Vec<i64>,
}

impl SeenIds {
    pub closed spec fn set(&self) -> Set<i64> {
        self.ids@.to_set()
    }

    pub fn new() -> (s: Self)
        ensures
            s.set() == Set::<i64>::empty(),
    {
        let s = SeenIds { ids: Vec::new() };
        assert(s.ids@.to_set() =~= Set::<i64>::empty());
        s
    }

    pub fn contains(&self, id: i64) -> (r: bool)
        ensures
            r == self.set().contains(id),
    {
        for i in 0..self.ids.len()
            invariant
                forall|j: int| 0 <= j < i ==> self.ids@[j] != id,
        {
            if self.ids[i] == id {
                assert(self.ids@.contains(id));
                return true;
            }
        }
        false
    }

    /// Add `id`; true when it was not there yet.
    pub fn insert(&mut self, id: i64) -> (fresh: bool)
        ensures
            fresh == !old(self).set().contains(id),
            final(self).set() == old(self).set().insert(id),
    {
        if self.contains(id) {
            proof {
                assert(self.set().insert(id) =~= self.set());
            }
            false
        } else {
            let ghost s0 = self.ids@;
            self.ids.push(id);
            proof {
                assert(self.ids@.to_set() =~= s0.to_set().insert(id)) by {
                    assert forall|x: i64| self.ids@.contains(x) <==> (s0.contains(x) || x == id) by {
                        if self.ids@.contains(x) {
                            let k = choose|k: int| 0 <= k < self.ids@.len() && self.ids@[k] == x;
                            if k < s0.len() {
                                assert(s0[k] == x);
                            }
                        }
                        if s0.contains(x) {
                            let k = choose|k: int| 0 <= k < s0.len() && s0[k] == x;
                            assert(self.ids@[k] == x);
                        }
                        if x == id {
                            assert(self.ids@[s0.len() as int] == id);
                        }
                    }
                }
            }
            true
        }
    }
}

proof fn lemma_empty_to_set(s: Seq<Seq<char>>)
    requires
        s.len() == 0,
    ensures
        s.to_set() == Set::<Seq<char>>::empty(),
{
    assert(s.to_set() =~= Set::<Seq<char>>::empty());
}

proof fn lemma_empty_to_set_i64(s: Seq<i64>)
    requires
        s.len() == 0,
    ensures
        s.to_set() == Set::<i64>::empty(),
{
    assert(s.to_set() =~= Set::<i64>::empty());
}

// ---------------------------------------------------------------------------------------------
// Stable partition
// ---------------------------------------------------------------------------------------------
/// The positions whose flag is `want`, in order.
pub open spec fn positions_with(flags: Seq<bool>, want: bool) -> Seq<usize>
    decreases flags.len(),
{
    if flags.len() == 0 {
        Seq::empty()
    } else {
        positions_with(flags.drop_last(), want) + if flags.last() == want {
            seq![(flags.len() - 1) as usize]
        } else {
            Seq::<usize>::empty()
        }
    }
}

/// The positions flagged `true` first, then the others, each group in its input order.
pub open spec fn spec_stable_partition(flags: Seq<bool>) -> Seq<usize> {
    positions_with(flags, true) + positions_with(flags, false)
}

fn positions_with_exec(flags: &Vec<bool>, want: bool) -> (r: Vec<usize>)
    ensures
        r@ == positions_with(flags@, want),
{
    let mut r: Vec<usize> = Vec::new();
    for i in 0..flags.len()
        invariant
            r@ == positions_with(flags@.take(i as int), want),
    {
        proof {
            assert(flags@.take(i + 1).drop_last() =~= flags@.take(i as int));
        }
        if flags[i] == want {
            r.push(i);
        }
    }
    proof {
        assert(flags@.take(flags.len() as int) =~= flags@);
    }
    r
}

/// Reorder positions so that those flagged `true` come first, keeping the order within each
/// group (cross-language synonyms before same-language ones; compounds written with the exact
/// glyph before those written with a variant).
pub fn stable_partition(flags: &Vec<bool>) -> (r: Vec<usize>)
    ensures
        r@ == spec_stable_partition(flags@),
{
    let mut a = positions_with_exec(flags, true);
    let b = positions_with_exec(flags, false);
    let ghost a0 = a@;
    for i in 0..b.len()
        invariant
            a@ == a0 + b@.take(i as int),
    {
        a.push(b[i]);
        proof {
            assert(a@ =~= a0 + b@.take(i + 1));
        }
    }
    proof {
        assert(b@.take(b.len() as int) =~= b@);
    }
    a
}

proof fn lemma_positions(flags: Seq<bool>, want: bool)
    requires
        flags.len() <= usize::MAX,
    ensures
        forall|k: int| 0 <= k < positions_with(flags, want).len() ==> #[trigger] positions_with(flags, want)[k] < flags.len()
            && flags[positions_with(flags, want)[k] as int] == want,
        forall|a: int, b: int| 0 <= a < b < positions_with(flags, want).len() ==> #[trigger] positions_with(flags, want)[a]
            < #[trigger] positions_with(flags, want)[b],
        forall|i: int| 0 <= i < flags.len() && flags[i] == want ==> #[trigger] positions_with(flags, want).contains(i as usize),
    decreases flags.len(),
{
    if flags.len() > 0 {
        let pre = flags.drop_last();
        lemma_positions(pre, want);
        let p = positions_with(pre, want);
        let q = positions_with(flags, want);
        let n = flags.len() - 1;
        let tail: Seq<usize> = if flags.last() == want { seq![n as usize] } else { Seq::<usize>::empty() };
        assert(q == p + tail);
        assert forall|k: int| 0 <= k < q.len() implies #[trigger] q[k] < flags.len() && flags[q[k] as int] == want by {
            if k < p.len() {
                assert(q[k] == p[k]);
                assert(pre[p[k] as int] == flags[p[k] as int]);
            } else {
                assert(q[k] == n as usize);
            }
        }
        assert forall|a: int, b: int| 0 <= a < b < q.len() implies #[trigger] q[a] < #[trigger] q[b] by {
            if b < p.len() {
                assert(q[a] == p[a] && q[b] == p[b]);
            } else {
                assert(q[a] == p[a]);
                assert(q[b] == n as usize);
            }
        }
        assert forall|i: int| 0 <= i < flags.len() && flags[i] == want implies #[trigger] q.contains(i as usize) by {
            if i < n {
                assert(pre[i] == flags[i]);
                assert(p.contains(i as usize));
                let k = choose|k: int| 0 <= k < p.len() && p[k] == i as usize;
                assert(q[k] == i as usize);
            } else {
                assert(q[q.len() - 1] == i as usize);
            }
        }
    }
}

/// The partition keeps every position exactly once, puts the `true` ones first, and keeps each
/// group in its input order.
pub proof fn law_stable_partition(flags: Seq<bool>)
    requires
        flags.len() <= usize::MAX,
    ensures
        spec_stable_partition(flags).len() == flags.len(),
        forall|i: int| 0 <= i < flags.len() ==> #[trigger] spec_stable_partition(flags).contains(i as usize),
        forall|a: int, b: int|
            0 <= a < b < flags.len() && flags[spec_stable_partition(flags)[a] as int] == flags[spec_stable_partition(flags)[b] as int]
                ==> #[trigger] spec_stable_partition(flags)[a] < #[trigger] spec_stable_partition(flags)[b],
        forall|a: int, b: int|
            0 <= a < b < flags.len() && !flags[#[trigger] spec_stable_partition(flags)[a] as int]
                ==> !flags[#[trigger] spec_stable_partition(flags)[b] as int],
{
    lemma_positions(flags, true);
    lemma_positions(flags, false);
    lemma_positions_len(flags);
    let t = positions_with(flags, true);
    let f = positions_with(flags, false);
    let r = spec_stable_partition(flags);
    assert forall|i: int| 0 <= i < flags.len() implies #[trigger] r.contains(i as usize) by {
        if flags[i] {
            assert(t.contains(i as usize));
            let k = choose|k: int| 0 <= k < t.len() && t[k] == i as usize;
            assert(r[k] == i as usize);
        } else {
            assert(f.contains(i as usize));
            let k = choose|k: int| 0 <= k < f.len() && f[k] == i as usize;
            assert(r[t.len() + k] == i as usize);
        }
    }
    assert forall|a: int, b: int|
        0 <= a < b < flags.len() && flags[r[a] as int] == flags[r[b] as int] implies #[trigger] r[a] < #[trigger] r[b] by {
        if b < t.len() {
            assert(r[a] == t[a] && r[b] == t[b]);
        } else if a >= t.len() {
            assert(r[a] == f[a - t.len()] && r[b] == f[b - t.len()]);
        } else {
            assert(r[a] == t[a] && r[b] == f[b - t.len()]);
        }
    }
    assert forall|a: int, b: int| 0 <= a < b < flags.len() && !flags[#[trigger] r[a] as int] implies !flags[#[trigger] r[b] as int] by {
        if a < t.len() {
            assert(r[a] == t[a]);
        } else {
            assert(r[b] == f[b - t.len()]);
        }
    }
}

proof fn lemma_positions_len(flags: Seq<bool>)
    requires
        flags.len() <= usize::MAX,
    ensures
        positions_with(flags, true).len() + positions_with(flags, false).len() == flags.len(),
    decreases flags.len(),
{
    if flags.len() > 0 {
        lemma_positions_len(flags.drop_last());
    }
}

// ---------------------------------------------------------------------------------------------
// Characters of a word
// ---------------------------------------------------------------------------------------------
/// The distinct characters of a form, in order of first appearance; with `han_only`, only Han
/// ideographs (kana and okurigana are not component characters).
pub open spec fn distinct_chars_from(s: Seq<char>, han_only: bool) -> Seq<char>
    decreases s.len(),
{
    if s.len() == 0 {
        Seq::empty()
    } else {
        let pre = distinct_chars_from(s.drop_last(), han_only);
        let c = s.last();
        if (han_only && !spec_is_han(c)) || pre.contains(c) {
            pre
        } else {
            pre.push(c)
        }
    }
}

pub fn distinct_chars(s: &str, han_only: bool) -> (r: Vec<char>)
    ensures
        r@ == distinct_chars_from(s@, han_only),
{
    let cs = chars_of(s);
    let mut out: Vec<char> = Vec::new();
    for i in 0..cs.len()
        invariant
            cs@ == s@,
            out@ == distinct_chars_from(s@.take(i as int), han_only),
    {
        proof {
            assert(s@.take(i + 1).drop_last() =~= s@.take(i as int));
            assert(s@.take(i + 1).last() == s@[i as int]);
        }
        let c = cs[i];
        if !(han_only && !is_han(c)) {
            let mut seen = false;
            for j in 0..out.len()
                invariant
                    seen <==> exists|k: int| 0 <= k < j && out@[k] == c,
            {
                if out[j] == c {
                    seen = true;
                }
            }
            if !seen {
                out.push(c);
            }
        }
    }
    proof {
        assert(s@.take(cs.len() as int) =~= s@);
    }
    out
}

/// The form a word is broken down from: its primary surface form, else its headword.
pub open spec fn spec_primary_form(forms: Seq<Form>, headword: Seq<char>) -> Seq<char> {
    if exists|i: int| 0 <= i < forms.len() && forms[i].is_primary {
        forms[choose_first_primary(forms)].form@
    } else {
        headword
    }
}

/// The first primary form's position.
pub open spec fn choose_first_primary(forms: Seq<Form>) -> int {
    choose|i: int| 0 <= i < forms.len() && forms[i].is_primary && forall|j: int| 0 <= j < i ==> !forms[j].is_primary
}

pub fn primary_form(forms: &Vec<Form>, headword: &str) -> (r: String)
    ensures
        r@ == spec_primary_form(forms@, headword@),
{
    for i in 0..forms.len()
        invariant
            forall|j: int| 0 <= j < i ==> !forms@[j].is_primary,
    {
        if forms[i].is_primary {
            proof {
                let k = choose_first_primary(forms@);
                assert(0 <= i < forms@.len() && forms@[i as int].is_primary && forall|j: int| 0 <= j < i ==> !forms@[j].is_primary);
                if k != i {
                    assert(forms@[k].is_primary);
                    if k < i {
                    } else {
                        assert(!forms@[i as int].is_primary);
                    }
                }
            }
            return forms[i].form.clone();
        }
    }
    let cs = chars_of(headword);
    string_of(&cs)
}

// ---------------------------------------------------------------------------------------------
// Related words
// ---------------------------------------------------------------------------------------------
/// How many same-form links an entry lists at most.
pub const SAME_FORM_CAP: usize = 25;

/// How many meaning links an entry lists at most, explicit equivalents included.
pub const TRANSLATION_CAP: usize = 30;

/// The same-form links of an entry, scanning the lexemes that share its key in index order from
/// `start` with `got` links placed: the entry's own id is skipped, a lexeme that exists is linked,
/// and the scan stops once `SAME_FORM_CAP` links are placed. The result is the positions linked
/// and the position where the scan stopped.
pub open spec fn same_form_from(ids: Seq<i64>, own: i64, exists: Seq<bool>, start: int, got: nat) -> (Seq<usize>, int)
    decreases ids.len() - start,
{
    if start >= ids.len() || start < 0 {
        (Seq::empty(), ids.len() as int)
    } else if ids[start] == own || !exists[start] {
        same_form_from(ids, own, exists, start + 1, got)
    } else if got + 1 >= SAME_FORM_CAP {
        (seq![start as usize], start + 1)
    } else {
        let rest = same_form_from(ids, own, exists, start + 1, got + 1);
        (seq![start as usize] + rest.0, rest.1)
    }
}

/// Which of the lexemes sharing an entry's key (`ids`, with `exists[i]` telling whether the
/// lexeme `ids[i]` is in the dictionary) are listed as same-form links: the positions linked, in
/// order, and how far the scan went (every id before that point other than the entry's own is
/// taken as already shown on the page).
pub fn pick_same_form(ids: &[i64], own: i64, exists: &Vec<bool>) -> (r: (Vec<usize>, usize))
    requires
        exists@.len() == ids@.len(),
    ensures
        (r.0@, r.1 as int) == same_form_from(ids@, own, exists@, 0, 0),
        r.1 <= ids@.len(),
{
    let mut out: Vec<usize> = Vec::new();
    let mut i: usize = 0;
    while i < ids.len()
        invariant
            exists@.len() == ids@.len(),
            i <= ids@.len(),
            out@.len() < SAME_FORM_CAP,
            same_form_from(ids@, own, exists@, 0, 0) == (out@ + same_form_from(ids@, own, exists@, i as int, out@.len() as nat).0,
                same_form_from(ids@, own, exists@, i as int, out@.len() as nat).1),
        decreases ids@.len() - i,
    {
        if ids[i] != own && exists[i] {
            let ghost o0 = out@;
            out.push(i);
            if out.len() >= SAME_FORM_CAP {
                proof {
                    assert(o0 + seq![i] =~= out@);
                }
                return (out, i + 1);
            }
            proof {
                let rest = same_form_from(ids@, own, exists@, i + 1, (o0.len() + 1) as nat);
                assert(o0 + (seq![i] + rest.0) =~= out@ + rest.0);
            }
        }
        i += 1;
    }
    proof {
        assert(out@ + Seq::<usize>::empty() =~= out@);
    }
    (out, ids.len())
}

/// How many more meaning links fit once `placed` are listed.
pub open spec fn translation_room(placed: nat) -> nat {
    if placed >= TRANSLATION_CAP {
        0
    } else {
        (TRANSLATION_CAP - placed) as nat
    }
}

/// The concept synonyms an entry lists after its `placed` other meaning links: cross-language
/// ones (`cross[i]`) first, each group in concept order, as many as still fit.
pub fn pick_synonyms(cross: &Vec<bool>, placed: usize) -> (r: Vec<usize>)
    ensures
        r@ == spec_stable_partition(cross@).take(
            if translation_room(placed as nat) < spec_stable_partition(cross@).len() {
                translation_room(placed as nat) as int
            } else {
                spec_stable_partition(cross@).len() as int
            },
        ),
{
    let mut order = stable_partition(cross);
    let room = if placed >= TRANSLATION_CAP {
        0
    } else {
        TRANSLATION_CAP - placed
    };
    order.truncate(room);
    order
}

/// Everyday words for a single character: among candidate words (each with its variety and
/// whether it is more frequent than the bare character in that language), at most one per
/// variety, the first more-frequent one of each; a variety is used up by its first such
/// candidate even when that word is already on the page. Returns the chosen ids not yet seen,
/// adding them to `seen`.
pub open spec fn everyday_from(rows: Seq<(i64, Seq<char>, bool)>, taken: Set<Seq<char>>, seen: Set<i64>) -> Seq<i64>
    decreases rows.len(),
{
    if rows.len() == 0 {
        Seq::empty()
    } else {
        let (id, var, beats) = rows[0];
        if !beats || taken.contains(var) {
            everyday_from(rows.drop_first(), taken, seen)
        } else if seen.contains(id) {
            everyday_from(rows.drop_first(), taken.insert(var), seen)
        } else {
            seq![id] + everyday_from(rows.drop_first(), taken.insert(var), seen.insert(id))
        }
    }
}

pub open spec fn row_view(r: (i64, String, bool)) -> (i64, Seq<char>, bool) {
    (r.0, r.1@, r.2)
}

pub fn pick_everyday(rows: &Vec<(i64, String, bool)>, seen: &mut SeenIds) -> (r: Vec<i64>)
    ensures
        r@ == everyday_from(rows@.map_values(|x: (i64, String, bool)| row_view(x)), Set::empty(), old(seen).set()),
        final(seen).set() == old(seen).set() + r@.to_set(),
{
    let ghost rv = rows@.map_values(|x: (i64, String, bool)| row_view(x));
    let ghost s0 = seen.set();
    let mut taken: Vec<String> = Vec::new();
    let mut out: Vec<i64> = Vec::new();
    proof {
        lemma_empty_to_set(taken@.map_values(|t: String| t@));
        lemma_empty_to_set_i64(out@);
        assert(seen.set() =~= s0 + out@.to_set());
        assert(rv.skip(0) =~= rv);
        assert(out@ + everyday_from(rv, Set::empty(), s0) =~= everyday_from(rv, Set::empty(), s0));
    }
    for i in 0..rows.len()
        invariant
            rv == rows@.map_values(|x: (i64, String, bool)| row_view(x)),
            out@ + everyday_from(rv.skip(i as int), taken@.map_values(|t: String| t@).to_set(), seen.set())
                == everyday_from(rv, Set::empty(), s0),
            seen.set() == s0 + out@.to_set(),
    {
        let (id, var, beats) = (rows[i].0, &rows[i].1, rows[i].2);
        proof {
            assert(rv.skip(i as int)[0] == rv[i as int]);
            assert(rv.skip(i as int).drop_first() =~= rv.skip(i + 1));
        }
        let mut is_taken = false;
        for j in 0..taken.len()
            invariant
                is_taken <==> exists|k: int| 0 <= k < j && taken@[k]@ == var@,
        {
            if str_eq(taken[j].as_str(), var.as_str()) {
                is_taken = true;
            }
        }
        proof {
            assert(is_taken <==> taken@.map_values(|t: String| t@).to_set().contains(var@)) by {
                if is_taken {
                    let k = choose|k: int| 0 <= k < taken@.len() && taken@[k]@ == var@;
                    assert(taken@.map_values(|t: String| t@)[k] == var@);
                }
                let tv = taken@.map_values(|t: String| t@);
                if tv.to_set().contains(var@) {
                    let k = choose|k: int| 0 <= k < tv.len() && #[trigger] tv[k] == var@;
                    assert(taken@[k]@ == var@);
                }
            }
        }
        if beats && !is_taken {
            let ghost tk0 = taken@.map_values(|t: String| t@);
            taken.push(var.clone());
            proof {
                assert(taken@.map_values(|t: String| t@) =~= tk0.push(var@));
                tk0.lemma_push_to_set_commute(var@);
            }
            let ghost sv = seen.set();
            let fresh = seen.insert(id);
            if fresh {
                let ghost o0 = out@;
                out.push(id);
                proof {
                    assert(out@ =~= o0.push(id));
                    o0.lemma_push_to_set_commute(id);
                    assert(seen.set() =~= s0 + out@.to_set());
                    assert(o0 + seq![id] + everyday_from(rv.skip(i + 1), tk0.push(var@).to_set(), sv.insert(id))
                        =~= o0 + (seq![id] + everyday_from(rv.skip(i + 1), tk0.push(var@).to_set(), sv.insert(id))));
                }
            } else {
                proof {
                    assert(seen.set() =~= sv);
                }
            }
        }
    }
    proof {
        assert(rv.skip(rows.len() as int) =~= Seq::<(i64, Seq<char>, bool)>::empty());
        assert(out@ + Seq::<i64>::empty() =~= out@);
    }
    out
}

/// Per-language origin accounts from the same-form words: one per variety, skipping a variety
/// already covered (by the page's own account or an earlier word) and an account that only says
/// the word was borrowed from the page's own language ("from japanese" on a Japanese page, "from
/// chinese" otherwise). Returns the positions of the words whose accounts are shown.
pub open spec fn page_lang(variety: Seq<char>) -> Seq<char> {
    if variety == "ja"@ {
        "from japanese"@
    } else {
        "from chinese"@
    }
}

pub open spec fn origins_from(links: Seq<(Seq<char>, Option<Seq<char>>)>, lang: Seq<char>, covered: Set<Seq<char>>, start: int) -> Seq<usize>
    decreases links.len() - start,
{
    if start >= links.len() || start < 0 {
        Seq::empty()
    } else {
        let (var, ety) = links[start];
        if covered.contains(var) {
            origins_from(links, lang, covered, start + 1)
        } else {
            match ety {
                None => origins_from(links, lang, covered, start + 1),
                Some(t) => if contains_seq(str_lowercase(t), lang) {
                    origins_from(links, lang, covered, start + 1)
                } else {
                    seq![start as usize] + origins_from(links, lang, covered.insert(var), start + 1)
                },
            }
        }
    }
}

pub open spec fn link_view(l: (String, Option<String>)) -> (Seq<char>, Option<Seq<char>>) {
    (
        l.0@,
        match l.1 {
            Some(t) => Some(t@),
            None => None,
        },
    )
}

/// `links` are the same-form words' (variety, etymology) in listing order; `own` tells whether
/// the page's own lexeme has an account (which then covers the page's variety).
pub fn pick_origin_links(page_variety: &str, own: bool, links: &Vec<(String, Option<String>)>) -> (r: Vec<usize>)
    ensures
        r@ == origins_from(
            links@.map_values(|l: (String, Option<String>)| link_view(l)),
            page_lang(page_variety@),
            if own { set![page_variety@] } else { Set::empty() },
            0,
        ),
{
    let ghost lv = links@.map_values(|l: (String, Option<String>)| link_view(l));
    let lang_str = if str_eq(page_variety, "ja") {
        "from japanese"
    } else {
        "from chinese"
    };
    proof {
        reveal_strlit("ja");
        reveal_strlit("from japanese");
        reveal_strlit("from chinese");
    }
    let lang = chars_of(lang_str);
    let mut covered: Vec<String> = Vec::new();
    if own {
        covered.push(string_of(&chars_of(page_variety)));
    }
    let ghost c0 = covered@.map_values(|t: String| t@).to_set();
    proof {
        if own {
            assert(covered@.map_values(|t: String| t@) =~= Seq::<Seq<char>>::empty().push(page_variety@));
            Seq::<Seq<char>>::empty().lemma_push_to_set_commute(page_variety@);
            lemma_empty_to_set(Seq::<Seq<char>>::empty());
            assert(set![page_variety@] =~= Set::<Seq<char>>::empty().insert(page_variety@));
        } else {
            lemma_empty_to_set(covered@.map_values(|t: String| t@));
        }
    }
    let mut out: Vec<usize> = Vec::new();
    for i in 0..links.len()
        invariant
            lv == links@.map_values(|l: (String, Option<String>)| link_view(l)),
            lang@ == page_lang(page_variety@),
            out@ + origins_from(lv, lang@, covered@.map_values(|t: String| t@).to_set(), i as int)
                == origins_from(lv, lang@, c0, 0),
    {
        let var = &links[i].0;
        let mut is_cov = false;
        for j in 0..covered.len()
            invariant
                is_cov <==> exists|k: int| 0 <= k < j && covered@[k]@ == var@,
        {
            if str_eq(covered[j].as_str(), var.as_str()) {
                is_cov = true;
            }
        }
        proof {
            assert(is_cov <==> covered@.map_values(|t: String| t@).to_set().contains(var@)) by {
                if is_cov {
                    let k = choose|k: int| 0 <= k < covered@.len() && covered@[k]@ == var@;
                    assert(covered@.map_values(|t: String| t@)[k] == var@);
                }
                let tv = covered@.map_values(|t: String| t@);
                if tv.to_set().contains(var@) {
                    let k = choose|k: int| 0 <= k < tv.len() && #[trigger] tv[k] == var@;
                    assert(covered@[k]@ == var@);
                }
            }
        }
        if !is_cov {
            match &links[i].1 {
                None => {},
                Some(t) => {
                    let low = lower_str(t.as_str());
                    let lc = chars_of(low.as_str());
                    if !contains_exec(&lc, &lang) {
                        let ghost cv0 = covered@.map_values(|t: String| t@);
                        let ghost o0 = out@;
                        covered.push(var.clone());
                        out.push(i);
                        proof {
                            assert(covered@.map_values(|t: String| t@) =~= cv0.push(var@));
                            cv0.lemma_push_to_set_commute(var@);
                            assert(out@ + origins_from(lv, lang@, covered@.map_values(|t: String| t@).to_set(), i + 1)
                                =~= o0 + (seq![i] + origins_from(lv, lang@, cv0.to_set().insert(var@), i + 1)));
                        }
                    }
                },
            }
        }
    }
    out
}

/// A character page's accounts: the first word of each variety that has one.
pub open spec fn first_per_variety(rows: Seq<(Seq<char>, bool)>, covered: Set<Seq<char>>, start: int) -> Seq<usize>
    decreases rows.len() - start,
{
    if start >= rows.len() || start < 0 {
        Seq::empty()
    } else if covered.contains(rows[start].0) || !rows[start].1 {
        first_per_variety(rows, covered, start + 1)
    } else {
        seq![start as usize] + first_per_variety(rows, covered.insert(rows[start].0), start + 1)
    }
}

/// `rows` are (variety, has an account) of the words written with the glyph, in order.
pub fn pick_first_per_variety(rows: &Vec<(String, bool)>) -> (r: Vec<usize>)
    ensures
        r@ == first_per_variety(rows@.map_values(|x: (String, bool)| (x.0@, x.1)), Set::empty(), 0),
{
    let ghost rv = rows@.map_values(|x: (String, bool)| (x.0@, x.1));
    let mut covered: Vec<String> = Vec::new();
    let mut out: Vec<usize> = Vec::new();
    proof {
        lemma_empty_to_set(covered@.map_values(|t: String| t@));
    }
    for i in 0..rows.len()
        invariant
            rv == rows@.map_values(|x: (String, bool)| (x.0@, x.1)),
            out@ + first_per_variety(rv, covered@.map_values(|t: String| t@).to_set(), i as int)
                == first_per_variety(rv, Set::empty(), 0),
    {
        let var = &rows[i].0;
        let mut is_cov = false;
        for j in 0..covered.len()
            invariant
                is_cov <==> exists|k: int| 0 <= k < j && covered@[k]@ == var@,
        {
            if str_eq(covered[j].as_str(), var.as_str()) {
                is_cov = true;
            }
        }
        proof {
            assert(is_cov <==> covered@.map_values(|t: String| t@).to_set().contains(var@)) by {
                if is_cov {
                    let k = choose|k: int| 0 <= k < covered@.len() && covered@[k]@ == var@;
                    assert(covered@.map_values(|t: String| t@)[k] == var@);
                }
                let tv = covered@.map_values(|t: String| t@);
                if tv.to_set().contains(var@) {
                    let k = choose|k: int| 0 <= k < tv.len() && #[trigger] tv[k] == var@;
                    assert(covered@[k]@ == var@);
                }
            }
        }
        if !is_cov && rows[i].1 {
            let ghost cv0 = covered@.map_values(|t: String| t@);
            let ghost o0 = out@;
            covered.push(var.clone());
            out.push(i);
            proof {
                assert(covered@.map_values(|t: String| t@) =~= cv0.push(var@));
                cv0.lemma_push_to_set_commute(var@);
                assert(out@ + first_per_variety(rv, covered@.map_values(|t: String| t@).to_set(), i + 1)
                    =~= o0 + (seq![i] + first_per_variety(rv, cv0.to_set().insert(var@), i + 1)));
            }
        }
    }
    out
}


// ---------------------------------------------------------------------------------------------
// Compounds, appearances, translation groups
// ---------------------------------------------------------------------------------------------
pub open spec fn has_ch(s: Seq<char>, c: char) -> bool {
    exists|i: int| 0 <= i < s.len() && s[i] == c
}

/// The form a compound row shows: its first surface form written with the exact glyph `ch`,
/// else its headword; the row is a top "compound" exactly when that form contains `ch`, else a
/// "compound-alt" (it only uses a variant of the glyph).
pub open spec fn spec_compound_display(forms: Seq<Seq<char>>, headword: Seq<char>, ch: char) -> (Seq<char>, bool) {
    let d = if exists|i: int| 0 <= i < forms.len() && has_ch(forms[i], ch) {
        forms[choose|i: int| 0 <= i < forms.len() && has_ch(forms[i], ch) && forall|j: int| 0 <= j < i ==> !has_ch(forms[j], ch)]
    } else {
        headword
    };
    (d, has_ch(d, ch))
}

fn has_ch_exec(s: &str, c: char) -> (r: bool)
    ensures
        r == has_ch(s@, c),
{
    let v = chars_of(s);
    for i in 0..v.len()
        invariant
            v@ == s@,
            forall|j: int| 0 <= j < i ==> v@[j] != c,
    {
        if v[i] == c {
            return true;
        }
    }
    false
}

pub fn compound_display(forms: &Vec<String>, headword: &str, ch: char) -> (r: (String, bool))
    ensures
        (r.0@, r.1) == spec_compound_display(forms@.map_values(|f: String| f@), headword@, ch),
{
    let ghost fv = forms@.map_values(|f: String| f@);
    for i in 0..forms.len()
        invariant
            fv == forms@.map_values(|f: String| f@),
            forall|j: int| 0 <= j < i ==> !has_ch(fv[j], ch),
    {
        if has_ch_exec(forms[i].as_str(), ch) {
            proof {
                let k = choose|k: int| 0 <= k < fv.len() && has_ch(fv[k], ch) && forall|j: int| 0 <= j < k ==> !has_ch(fv[j], ch);
                assert(has_ch(fv[i as int], ch));
                if k < i {
                } else if k > i {
                    assert(!has_ch(fv[i as int], ch));
                }
            }
            return (forms[i].clone(), true);
        }
    }
    let h = string_of(&chars_of(headword));
    let top = has_ch_exec(headword, ch);
    (h, top)
}

/// A single-character entry that is a radical or has no senses of its own lists the characters
/// it appears in (instead of words): that character.
pub open spec fn spec_appears_in_glyph(headword: Seq<char>, is_radical: bool, no_senses: bool) -> Option<char> {
    if headword.len() == 1 && (is_radical || no_senses) {
        Some(headword[0])
    } else {
        None
    }
}

pub fn appears_in_glyph(headword: &str, is_radical: bool, no_senses: bool) -> (r: Option<char>)
    ensures
        r == spec_appears_in_glyph(headword@, is_radical, no_senses),
{
    let v = chars_of(headword);
    if v.len() == 1 && (is_radical || no_senses) {
        Some(v[0])
    } else {
        None
    }
}

/// An English-pivot translation looks the term up trimmed and lowercased.
pub fn translate_term(q: &str) -> (r: String)
    ensures
        r@ == str_lowercase(crate::chars::trim(q@)),
{
    let t = crate::chars::trim_vec(&chars_of(q));
    lower_str(string_of(&t).as_str())
}

/// Lexicographic order on characters (codepoint order, which is the byte order of UTF-8).
pub open spec fn lex_lt(a: Seq<char>, b: Seq<char>) -> bool
    decreases a.len(),
{
    if b.len() == 0 {
        false
    } else if a.len() == 0 {
        true
    } else if (a[0] as u32) < (b[0] as u32) {
        true
    } else if a[0] == b[0] {
        lex_lt(a.drop_first(), b.drop_first())
    } else {
        false
    }
}

fn lex_lt_exec(a: &Vec<char>, b: &Vec<char>) -> (r: bool)
    ensures
        r == lex_lt(a@, b@),
{
    let mut i: usize = 0;
    while i < a.len() && i < b.len() && a[i] == b[i]
        invariant
            i <= a@.len(),
            i <= b@.len(),
            forall|k: int| 0 <= k < i ==> a@[k] == b@[k],
        decreases a@.len() - i,
    {
        i += 1;
    }
    proof {
        lemma_lex_skip(a@, b@, i as int);
    }
    if i == b.len() {
        false
    } else if i == a.len() {
        true
    } else {
        (a[i] as u32) < (b[i] as u32)
    }
}

proof fn lemma_lex_skip(a: Seq<char>, b: Seq<char>, i: int)
    requires
        0 <= i <= a.len(),
        i <= b.len(),
        forall|k: int| 0 <= k < i ==> a[k] == b[k],
    ensures
        lex_lt(a, b) == lex_lt(a.skip(i), b.skip(i)),
    decreases i,
{
    if i > 0 {
        assert(a[0] == b[0]);
        assert forall|k: int| 0 <= k < i - 1 implies a.drop_first()[k] == b.drop_first()[k] by {
            assert(a[k + 1] == b[k + 1]);
        }
        lemma_lex_skip(a.drop_first(), b.drop_first(), i - 1);
        assert(a.drop_first().skip(i - 1) =~= a.skip(i));
        assert(b.drop_first().skip(i - 1) =~= b.skip(i));
    } else {
        assert(a.skip(0) =~= a);
        assert(b.skip(0) =~= b);
    }
}

/// Insert position `i` before the first placed position whose key is greater (so equal keys
/// keep their order).
pub open spec fn insert_by_key(out: Seq<usize>, keys: Seq<Seq<char>>, i: usize) -> Seq<usize>
    decreases out.len(),
{
    if out.len() == 0 {
        seq![i]
    } else if lex_lt(keys[i as int], keys[out[0] as int]) {
        seq![i] + out
    } else {
        seq![out[0]] + insert_by_key(out.drop_first(), keys, i)
    }
}

/// Positions sorted by key, stably (an insertion sort).
pub open spec fn sorted_by_key(keys: Seq<Seq<char>>, n: nat) -> Seq<usize>
    decreases n,
{
    if n == 0 {
        Seq::empty()
    } else {
        insert_by_key(sorted_by_key(keys, (n - 1) as nat), keys, (n - 1) as usize)
    }
}

/// The members of a concept group ordered by variety so every language shows together (a stable
/// sort: members of one variety keep their order).
pub fn order_by_variety(varieties: &Vec<String>) -> (r: Vec<usize>)
    ensures
        r@ == sorted_by_key(varieties@.map_values(|v: String| v@), varieties@.len()),
{
    let ghost keys = varieties@.map_values(|v: String| v@);
    let mut out: Vec<usize> = Vec::new();
    for i in 0..varieties.len()
        invariant
            keys == varieties@.map_values(|v: String| v@),
            forall|k: int| 0 <= k < out@.len() ==> out@[k] < i,
            out@ == sorted_by_key(keys, i as nat),
    {
        let ki = chars_of(varieties[i].as_str());
        let mut p: usize = 0;
        while p < out.len() && !lex_lt_exec(&ki, &chars_of(varieties[out[p]].as_str()))
            invariant
                keys == varieties@.map_values(|v: String| v@),
                ki@ == keys[i as int],
                i < varieties@.len(),
                p <= out@.len(),
                forall|k: int| 0 <= k < out@.len() ==> out@[k] < i,
                forall|k: int| 0 <= k < p ==> !lex_lt(keys[i as int], keys[out@[k] as int]),
            decreases out@.len() - p,
        {
            p += 1;
        }
        proof {
            lemma_insert_at(out@, keys, i, p as int);
        }
        let ghost o0 = out@;
        out.insert(p, i);
        proof {
            assert(out@ =~= o0.subrange(0, p as int) + seq![i] + o0.subrange(p as int, o0.len() as int));
        }
    }
    out
}

proof fn lemma_insert_at(out: Seq<usize>, keys: Seq<Seq<char>>, i: usize, p: int)
    requires
        0 <= p <= out.len(),
        forall|k: int| 0 <= k < p ==> !lex_lt(keys[i as int], keys[out[k] as int]),
        p < out.len() ==> lex_lt(keys[i as int], keys[out[p] as int]),
    ensures
        insert_by_key(out, keys, i) == out.subrange(0, p) + seq![i] + out.subrange(p, out.len() as int),
    decreases out.len(),
{
    if out.len() == 0 {
        assert(out.subrange(0, 0) + seq![i] + out.subrange(0, 0) =~= seq![i]);
    } else if p == 0 {
        assert(out.subrange(0, 0) + seq![i] + out.subrange(0, out.len() as int) =~= seq![i] + out);
    } else {
        assert forall|k: int| 0 <= k < p - 1 implies !lex_lt(keys[i as int], keys[out.drop_first()[k] as int]) by {
            assert(out.drop_first()[k] == out[k + 1]);
        }
        if p < out.len() {
            assert(out.drop_first()[p - 1] == out[p]);
        }
        lemma_insert_at(out.drop_first(), keys, i, p - 1);
        assert(seq![out[0]] + (out.drop_first().subrange(0, p - 1) + seq![i] + out.drop_first().subrange(p - 1, out.len() - 1))
            =~= out.subrange(0, p) + seq![i] + out.subrange(p, out.len() as int));
    }
}


/// The gentle script preference of a hit applies when one of its forms is in the preferred
/// script.
pub open spec fn spec_has_script(forms: Seq<Form>, script: Seq<char>) -> bool {
    exists|i: int| 0 <= i < forms.len() && forms[i].script@ == script
}

pub fn has_script(forms: &Vec<Form>, script: &str) -> (r: bool)
    ensures
        r == spec_has_script(forms@, script@),
{
    for i in 0..forms.len()
        invariant
            forall|j: int| 0 <= j < i ==> forms@[j].script@ != script@,
    {
        if str_eq(forms[i].script.as_str(), script) {
            return true;
        }
    }
    false
}

} // verus!

//! A character's script family and its character-page facts: the branches of the orthodox
//! glyph across reforms (繁→简·日), whether it is a kokuji, which script a glyph is, the note for a
//! simplified glyph that merged distinct characters, radical facts, and the pitch accents carried
//! onto its kana readings.
use vstd::prelude::*;
use crate::chars::{chars_of, string_of, trim, trim_vec};
use crate::fold::{join, join_strings};
use crate::model::{FormBranch, ReadingKV, ScriptForms};
use crate::script::{reform_label, script_of, spec_reform_label, spec_script_of, str_eq, radical_parent, spec_radical_parent};
use crate::words::{char_gloss_words, spec_char_gloss_words, is_radical_gloss, spec_is_radical_gloss, radical_gloss_number};

verus! {

// ---------------------------------------------------------------------------------------------
// Script family
// ---------------------------------------------------------------------------------------------
/// One identity edge from an orthodox parent of the family to a child glyph.
pub struct ChildRow {
    pub form: String,
    pub child_orthodox: bool,
    pub edge_type: String,
    pub reform_id: Option<String>,
}

/// A child glyph's merged branch so far: its form, its scripts and reform labels (each listed
/// once, in order of first appearance) and whether it is itself orthodox (from its first edge).
pub type MergedV = (Seq<char>, Seq<Seq<char>>, Seq<Seq<char>>, bool);

pub open spec fn add_unique(s: Seq<Seq<char>>, x: Seq<char>) -> Seq<Seq<char>> {
    if s.contains(x) {
        s
    } else {
        s.push(x)
    }
}

pub open spec fn label_of(rid: Option<String>) -> Option<Seq<char>> {
    match rid {
        Some(id) => Some(spec_reform_label(id@)),
        None => None,
    }
}

/// Position of the entry for `form`, or -1.
pub open spec fn find_form(m: Seq<MergedV>, form: Seq<char>) -> int
    decreases m.len(),
{
    if m.len() == 0 {
        -1
    } else if find_form(m.drop_last(), form) >= 0 {
        find_form(m.drop_last(), form)
    } else if m.last().0 == form {
        m.len() - 1
    } else {
        -1
    }
}

/// The child rows merged per glyph, in order of first appearance.
pub open spec fn merge_rows(rows: Seq<ChildRow>) -> Seq<MergedV>
    decreases rows.len(),
{
    if rows.len() == 0 {
        Seq::empty()
    } else {
        let m = merge_rows(rows.drop_last());
        let r = rows.last();
        let sc = spec_script_of(r.edge_type@);
        let i = find_form(m, r.form@);
        if i >= 0 {
            let e = m[i];
            m.update(
                i,
                (
                    e.0,
                    add_unique(e.1, sc),
                    match label_of(r.reform_id) {
                        Some(l) => add_unique(e.2, l),
                        None => e.2,
                    },
                    e.3,
                ),
            )
        } else {
            m.push(
                (
                    r.form@,
                    seq![sc],
                    match label_of(r.reform_id) {
                        Some(l) => seq![l],
                        None => Seq::empty(),
                    },
                    r.child_orthodox,
                ),
            )
        }
    }
}

pub open spec fn branch_view(b: FormBranch) -> (Seq<char>, Seq<char>, Option<Seq<char>>, Option<Seq<char>>, bool) {
    (
        b.form@,
        b.script@,
        match b.reform_id {
            Some(x) => Some(x@),
            None => None,
        },
        match b.reform_label {
            Some(x) => Some(x@),
            None => None,
        },
        b.is_orthodox,
    )
}

/// The traditional branch of an orthodox form.
pub open spec fn trad_branch(f: Seq<char>) -> (Seq<char>, Seq<char>, Option<Seq<char>>, Option<Seq<char>>, bool) {
    (f, "traditional"@, None, None, true)
}

/// The branch of a merged child glyph.
pub open spec fn child_branch(e: MergedV) -> (Seq<char>, Seq<char>, Option<Seq<char>>, Option<Seq<char>>, bool) {
    (e.0, join(e.1, "+"@), None, if e.2.len() == 0 { None } else { Some(join(e.2, " · "@)) }, e.3)
}

/// The orthodox forms anchoring the band: every orthodox parent, or the glyph itself.
pub open spec fn trad_forms(parents: Seq<Seq<char>>, ch: char) -> Seq<Seq<char>> {
    if parents.len() == 0 {
        seq![seq![ch]]
    } else {
        parents
    }
}

/// The band: a traditional branch per orthodox form, then each child glyph that is not itself
/// one of those forms.
pub open spec fn spec_branches(parents: Seq<Seq<char>>, ch: char, rows: Seq<ChildRow>) -> Seq<(Seq<char>, Seq<char>, Option<Seq<char>>, Option<Seq<char>>, bool)> {
    let tf = trad_forms(parents, ch);
    tf.map_values(|f: Seq<char>| trad_branch(f)) + merge_rows(rows).filter(|e: MergedV| !tf.contains(e.0)).map_values(
        |e: MergedV| child_branch(e),
    )
}

/// Kokuji (coined in Japan, no Chinese form): orthodox, no identity edge, Japanese readings, and
/// no Chinese or Cantonese word uses the glyph.
pub open spec fn spec_is_kokuji(is_orthodox: bool, has_edge: bool, has_kana: bool, chinese_uses: bool) -> bool {
    is_orthodox && !has_edge && has_kana && !chinese_uses
}

/// The anchor glyph of the family: the first orthodox parent, else the glyph itself.
pub open spec fn spec_anchor(parents: Seq<(i64, Seq<char>)>, cp: i64, ch: char) -> (i64, Seq<char>) {
    if parents.len() == 0 {
        (cp, seq![ch])
    } else {
        parents[0]
    }
}

pub fn script_anchor(parents: &Vec<(i64, String)>, cp: i64, ch: char) -> (r: (i64, String))
    ensures
        (r.0, r.1@) == spec_anchor(parents@.map_values(|p: (i64, String)| (p.0, p.1@)), cp, ch),
{
    if parents.len() == 0 {
        let mut v: Vec<char> = Vec::new();
        v.push(ch);
        (cp, string_of(&v))
    } else {
        (parents[0].0, parents[0].1.clone())
    }
}

fn contains_string(v: &Vec<String>, x: &String) -> (r: bool)
    ensures
        r == v@.map_values(|s: String| s@).contains(x@),
{
    let ghost vv = v@.map_values(|s: String| s@);
    for i in 0..v.len()
        invariant
            vv == v@.map_values(|s: String| s@),
            forall|j: int| 0 <= j < i ==> vv[j] != x@,
    {
        if str_eq(v[i].as_str(), x.as_str()) {
            assert(vv[i as int] == x@);
            return true;
        }
    }
    false
}

fn push_unique(v: &mut Vec<String>, x: String)
    ensures
        final(v)@.map_values(|s: String| s@) == add_unique(old(v)@.map_values(|s: String| s@), x@),
{
    if !contains_string(v, &x) {
        let ghost v0 = v@.map_values(|s: String| s@);
        v.push(x);
        proof {
            assert(v@.map_values(|s: String| s@) =~= v0.push(x@));
        }
    }
}

pub open spec fn merged_view(e: (String, Vec<String>, Vec<String>, bool)) -> MergedV {
    (e.0@, e.1@.map_values(|s: String| s@), e.2@.map_values(|s: String| s@), e.3)
}

fn find_form_exec(m: &Vec<(String, Vec<String>, Vec<String>, bool)>, form: &String) -> (r: Option<usize>)
    ensures
        match r {
            Some(i) => find_form(m@.map_values(|e: (String, Vec<String>, Vec<String>, bool)| merged_view(e)), form@) == i,
            None => find_form(m@.map_values(|e: (String, Vec<String>, Vec<String>, bool)| merged_view(e)), form@) == -1,
        },
{
    let ghost mv = m@.map_values(|e: (String, Vec<String>, Vec<String>, bool)| merged_view(e));
    for i in 0..m.len()
        invariant
            mv == m@.map_values(|e: (String, Vec<String>, Vec<String>, bool)| merged_view(e)),
            find_form(mv.take(i as int), form@) == -1,
    {
        proof {
            assert(mv.take(i + 1).drop_last() =~= mv.take(i as int));
        }
        if str_eq(m[i].0.as_str(), form.as_str()) {
            proof {
                lemma_find_form_prefix(mv, form@, i + 1);
            }
            return Some(i);
        }
        proof {
            assert(find_form(mv.take(i + 1), form@) == -1);
        }
    }
    proof {
        assert(mv.take(m.len() as int) =~= mv);
    }
    None
}

/// Finding in a prefix where the form sits at its last position.
proof fn lemma_find_form_prefix(m: Seq<MergedV>, form: Seq<char>, n: int)
    requires
        1 <= n <= m.len(),
        find_form(m.take(n - 1), form) == -1,
        m[n - 1].0 == form,
    ensures
        find_form(m, form) == n - 1,
    decreases m.len() - n,
{
    assert(m.take(n).drop_last() =~= m.take(n - 1));
    if n < m.len() {
        assert(find_form(m.take(n + 1).drop_last(), form) == n - 1) by {
            assert(m.take(n + 1).drop_last() =~= m.take(n));
        }
        lemma_find_form_extend(m, form, n + 1);
    } else {
        assert(m.take(n) =~= m);
    }
}

proof fn lemma_find_form_extend(m: Seq<MergedV>, form: Seq<char>, n: int)
    requires
        1 <= n <= m.len(),
        find_form(m.take(n - 1), form) >= 0,
    ensures
        find_form(m, form) == find_form(m.take(n - 1), form),
    decreases m.len() - n,
{
    assert(m.take(n).drop_last() =~= m.take(n - 1));
    if n < m.len() {
        lemma_find_form_extend(m, form, n + 1);
        assert(m.take(n + 1).drop_last() =~= m.take(n));
    } else {
        assert(m.take(n) =~= m);
    }
}

proof fn lemma_find_form_range(m: Seq<MergedV>, form: Seq<char>)
    ensures
        -1 <= find_form(m, form) < m.len(),
        find_form(m, form) >= 0 ==> m[find_form(m, form)].0 == form,
    decreases m.len(),
{
    if m.len() > 0 {
        lemma_find_form_range(m.drop_last(), form);
    }
}

/// Merge the child rows of a family per glyph: one entry per child form, in order of first
/// appearance, collecting its scripts and reform labels without repeats.
pub fn merge_child_rows(rows: &Vec<ChildRow>) -> (m: Vec<(String, Vec<String>, Vec<String>, bool)>)
    ensures
        m@.map_values(|e: (String, Vec<String>, Vec<String>, bool)| merged_view(e)) == merge_rows(rows@),
{
    let mut m: Vec<(String, Vec<String>, Vec<String>, bool)> = Vec::new();
    proof {
        assert(rows@.take(0) =~= Seq::<ChildRow>::empty());
        assert(m@.map_values(|e: (String, Vec<String>, Vec<String>, bool)| merged_view(e)) =~= Seq::<MergedV>::empty());
    }
    for k in 0..rows.len()
        invariant
            m@.map_values(|e: (String, Vec<String>, Vec<String>, bool)| merged_view(e)) == merge_rows(rows@.take(k as int)),
    {
        let r = &rows[k];
        proof {
            assert(rows@.take(k + 1).drop_last() =~= rows@.take(k as int));
            assert(rows@.take(k + 1).last() == rows@[k as int]);
        }
        let ghost mv = m@.map_values(|e: (String, Vec<String>, Vec<String>, bool)| merged_view(e));
        let sc = script_of(r.edge_type.as_str());
        let sc_s = string_of(&chars_of(sc));
        let lbl = match &r.reform_id {
            Some(id) => reform_label(Some(id.as_str())),
            None => None,
        };
        proof {
            assert(match lbl { Some(l) => label_of(r.reform_id) == Some(l@), None => label_of(r.reform_id) is None });
        }
        match find_form_exec(&m, &r.form) {
            Some(i) => {
                proof {
                    lemma_find_form_range(mv, r.form@);
                }
                let mut e = m.remove(i);
                push_unique(&mut e.1, sc_s);
                match lbl {
                    Some(l) => push_unique(&mut e.2, l),
                    None => {},
                }
                let ghost ev = merged_view(e);
                m.insert(i, e);
                proof {
                    assert(m@.map_values(|e: (String, Vec<String>, Vec<String>, bool)| merged_view(e)) =~= mv.update(i as int, ev));
                }
            },
            None => {
                let mut scripts: Vec<String> = Vec::new();
                scripts.push(sc_s);
                let mut labels: Vec<String> = Vec::new();
                match lbl {
                    Some(l) => labels.push(l),
                    None => {},
                }
                let e = (r.form.clone(), scripts, labels, r.child_orthodox);
                proof {
                    assert(e.1@.map_values(|s: String| s@) =~= seq![spec_script_of(r.edge_type@)]);
                    match label_of(r.reform_id) {
                        Some(l) => assert(e.2@.map_values(|s: String| s@) =~= seq![l]),
                        None => assert(e.2@.map_values(|s: String| s@) =~= Seq::<Seq<char>>::empty()),
                    }
                }
                m.push(e);
                proof {
                    assert(m@.map_values(|e: (String, Vec<String>, Vec<String>, bool)| merged_view(e)) =~= mv.push(merged_view(e)));
                }
            },
        }
    }
    proof {
        assert(rows@.take(rows.len() as int) =~= rows@);
    }
    m
}

/// The script family of a character (`ch`, orthodox or not) from its orthodox parents (in the
/// order the reforms rank them) and the identity-edge children of the family; the kokuji facts
/// are about the anchor glyph. `None` when there is nothing to show: one branch and no kokuji.
pub open spec fn spec_script_forms(
    parents: Seq<(i64, Seq<char>)>,
    ch: char,
    cp: i64,
    rows: Seq<ChildRow>,
    is_orthodox: bool,
    has_edge: bool,
    has_kana: bool,
    chinese_uses: bool,
) -> Option<(Seq<char>, bool, Seq<(Seq<char>, Seq<char>, Option<Seq<char>>, Option<Seq<char>>, bool)>)> {
    let pforms = parents.map_values(|p: (i64, Seq<char>)| p.1);
    let branches = spec_branches(pforms, ch, rows);
    let kokuji = spec_is_kokuji(is_orthodox, has_edge, has_kana, chinese_uses);
    if branches.len() <= 1 && !kokuji {
        None
    } else {
        Some((spec_anchor(parents, cp, ch).1, kokuji, branches))
    }
}

pub fn script_forms(
    parents: &Vec<(i64, String)>,
    ch: char,
    cp: i64,
    rows: &Vec<ChildRow>,
    is_orthodox: bool,
    has_edge: bool,
    has_kana: bool,
    chinese_uses: bool,
) -> (r: Option<ScriptForms>)
    ensures
        match r {
            None => spec_script_forms(
                parents@.map_values(|p: (i64, String)| (p.0, p.1@)),
                ch,
                cp,
                rows@,
                is_orthodox,
                has_edge,
                has_kana,
                chinese_uses,
            ) is None,
            Some(sf) => spec_script_forms(
                parents@.map_values(|p: (i64, String)| (p.0, p.1@)),
                ch,
                cp,
                rows@,
                is_orthodox,
                has_edge,
                has_kana,
                chinese_uses,
            ) == Some((sf.orthodox@, sf.is_kokuji, sf.branches@.map_values(|b: FormBranch| branch_view(b)))),
        },
{
    let ghost pv = parents@.map_values(|p: (i64, String)| (p.0, p.1@));
    let ghost pforms = pv.map_values(|p: (i64, Seq<char>)| p.1);
    let (_acp, anchor_char) = script_anchor(parents, cp, ch);
    // the orthodox forms
    let mut tf: Vec<String> = Vec::new();
    if parents.len() == 0 {
        tf.push(anchor_char.clone());
        proof {
            assert(tf@.map_values(|s: String| s@) =~= trad_forms(pforms, ch));
        }
    } else {
        for i in 0..parents.len()
            invariant
                pv == parents@.map_values(|p: (i64, String)| (p.0, p.1@)),
                pforms == pv.map_values(|p: (i64, Seq<char>)| p.1),
                tf@.map_values(|s: String| s@) == pforms.take(i as int),
        {
            let ghost t0 = tf@.map_values(|s: String| s@);
            let pc = parents[i].1.clone();
            assert(pc@ == pforms[i as int]);
            tf.push(pc);
            proof {
                assert(tf@.map_values(|s: String| s@) =~= t0.push(pc@));
                assert(tf@.map_values(|s: String| s@) =~= pforms.take(i + 1));
            }
        }
        proof {
            assert(pforms.take(parents.len() as int) =~= pforms);
        }
    }
    let ghost tfv = tf@.map_values(|s: String| s@);
    assert(tfv == trad_forms(pforms, ch));
    let mut branches: Vec<FormBranch> = Vec::new();
    for i in 0..tf.len()
        invariant
            tfv == tf@.map_values(|s: String| s@),
            branches@.map_values(|b: FormBranch| branch_view(b)) == tfv.take(i as int).map_values(|f: Seq<char>| trad_branch(f)),
    {
        let b = FormBranch {
            form: tf[i].clone(),
            script: string_of(&chars_of("traditional")),
            reform_id: None,
            reform_label: None,
            is_orthodox: true,
        };
        let ghost b0 = branches@.map_values(|b: FormBranch| branch_view(b));
        branches.push(b);
        proof {
            reveal_strlit("traditional");
            assert(branches@.map_values(|b: FormBranch| branch_view(b)) =~= b0.push(trad_branch(tfv[i as int])));
            assert(tfv.take(i + 1).map_values(|f: Seq<char>| trad_branch(f)) =~= tfv.take(i as int).map_values(|f: Seq<char>| trad_branch(f)).push(trad_branch(tfv[i as int])));
        }
    }
    proof {
        assert(tfv.take(tf.len() as int) =~= tfv);
    }
    let m = merge_child_rows(rows);
    let ghost mv = m@.map_values(|e: (String, Vec<String>, Vec<String>, bool)| merged_view(e));
    let ghost pred = |e: MergedV| !tfv.contains(e.0);
    let ghost head = branches@.map_values(|b: FormBranch| branch_view(b));
    for j in 0..m.len()
        invariant
            mv == m@.map_values(|e: (String, Vec<String>, Vec<String>, bool)| merged_view(e)),
            tfv == tf@.map_values(|s: String| s@),
            pred == (|e: MergedV| !tfv.contains(e.0)),
            branches@.map_values(|b: FormBranch| branch_view(b)) == head + mv.take(j as int).filter(pred).map_values(
                |e: MergedV| child_branch(e),
            ),
    {
        proof {
            assert(mv.take(j as int).push(mv[j as int]) =~= mv.take(j + 1));
            mv.take(j as int).lemma_filter_push(mv[j as int], pred);
        }
        if !contains_string(&tf, &m[j].0) {
            let script = join_strings(&m[j].1, "+");
            let label = if m[j].2.len() == 0 {
                None
            } else {
                Some(join_strings(&m[j].2, " · "))
            };
            let b = FormBranch { form: m[j].0.clone(), script, reform_id: None, reform_label: label, is_orthodox: m[j].3 };
            let ghost b0 = branches@.map_values(|b: FormBranch| branch_view(b));
            branches.push(b);
            proof {
                assert(branch_view(b) == child_branch(mv[j as int]));
                assert(branches@.map_values(|b: FormBranch| branch_view(b)) =~= b0.push(child_branch(mv[j as int])));
                assert(mv.take(j as int).filter(pred).push(mv[j as int]).map_values(|e: MergedV| child_branch(e))
                    =~= mv.take(j as int).filter(pred).map_values(|e: MergedV| child_branch(e)).push(child_branch(mv[j as int])));
            }
        }
    }
    proof {
        assert(mv.take(m.len() as int) =~= mv);
        assert(mv == merge_rows(rows@));
        assert(branches@.map_values(|b: FormBranch| branch_view(b)) =~= spec_branches(pforms, ch, rows@));
    }
    let kokuji = is_orthodox && !has_edge && has_kana && !chinese_uses;
    if branches.len() <= 1 && !kokuji {
        None
    } else {
        Some(ScriptForms { orthodox: anchor_char, is_kokuji: kokuji, branches })
    }
}


// ---------------------------------------------------------------------------------------------
// Which script a glyph is
// ---------------------------------------------------------------------------------------------
/// A glyph's script, only where it diverges across reforms: a non-orthodox glyph with an
/// identity parent is "simplified"; an orthodox glyph with a simplified child is "traditional";
/// otherwise (or for a glyph not in the character table) nothing.
pub open spec fn spec_glyph_script(is_orthodox: Option<bool>, has_parent: bool, has_child: bool) -> Option<Seq<char>> {
    match is_orthodox {
        None => None,
        Some(false) => if has_parent { Some("simplified"@) } else { None },
        Some(true) => if has_child { Some("traditional"@) } else { None },
    }
}

pub fn glyph_script(is_orthodox: Option<bool>, has_parent: bool, has_child: bool) -> (r: Option<String>)
    ensures
        opt_str(r) == spec_glyph_script(is_orthodox, has_parent, has_child),
{
    match is_orthodox {
        None => None,
        Some(false) => if has_parent {
            Some(string_of(&chars_of("simplified")))
        } else {
            None
        },
        Some(true) => if has_child {
            Some(string_of(&chars_of("traditional")))
        } else {
            None
        },
    }
}

pub open spec fn opt_str(o: Option<String>) -> Option<Seq<char>> {
    match o {
        Some(s) => Some(s@),
        None => None,
    }
}

/// An origin account gets its glyph's script and merge note only for a single Chinese or
/// Cantonese glyph: that glyph.
pub open spec fn spec_stamped_glyph(variety: Seq<char>, headword: Seq<char>) -> Option<char> {
    if (variety == "zh"@ || variety == "yue"@) && headword.len() == 1 {
        Some(headword[0])
    } else {
        None
    }
}

pub fn stamped_glyph(variety: &str, headword: &str) -> (r: Option<char>)
    ensures
        r == spec_stamped_glyph(variety@, headword@),
{
    let cs = chars_of(headword);
    if (str_eq(variety, "zh") || str_eq(variety, "yue")) && cs.len() == 1 {
        Some(cs[0])
    } else {
        None
    }
}

// ---------------------------------------------------------------------------------------------
// Simplification merges
// ---------------------------------------------------------------------------------------------
pub open spec fn is_clause_sep(c: char) -> bool {
    c == ';' || c == ','
}

/// The text before the first `;` or `,`.
pub open spec fn first_clause(g: Seq<char>) -> Seq<char>
    decreases g.len(),
{
    if g.len() == 0 || is_clause_sep(g[0]) {
        Seq::empty()
    } else {
        seq![g[0]] + first_clause(g.drop_first())
    }
}

pub open spec fn words_disjoint(a: Seq<Seq<char>>, b: Seq<Seq<char>>) -> bool {
    forall|i: int| 0 <= i < a.len() ==> !b.contains(#[trigger] a[i])
}

/// One merged-away parent's mention: "丑 (ugly)" with the first clause of its gloss, or just the
/// glyph when that clause is empty.
pub open spec fn parent_mention(pch: Seq<char>, pgloss: Option<Seq<char>>) -> Seq<char> {
    match pgloss {
        Some(g) => if trim(first_clause(g)).len() > 0 {
            pch + " ("@ + trim(first_clause(g)) + ")"@
        } else {
            pch
        },
        None => pch,
    }
}

/// The parents (glyph, gloss) of a simplification that are distinct characters: not the glyph
/// itself, with meaning words of their own, none shared with the glyph's own.
pub open spec fn merged_parents(ch: char, own: Seq<Seq<char>>, parents: Seq<(Seq<char>, Option<Seq<char>>)>) -> Seq<Seq<char>>
    decreases parents.len(),
{
    if parents.len() == 0 {
        Seq::empty()
    } else {
        let pre = merged_parents(ch, own, parents.drop_last());
        let (pch, pg) = parents.last();
        let pw = spec_char_gloss_words(pg);
        if (pch.len() > 0 && pch[0] == ch) || pw.len() == 0 || !words_disjoint(pw, own) {
            pre
        } else {
            pre.push(parent_mention(pch, pg))
        }
    }
}

/// When a glyph doubles as the simplified form of distinct characters (丑 = earthly branch and
/// simplified 醜 "ugly"), the note naming them: "Also the simplified form of 醜 (ugly)."; else none.
pub open spec fn spec_merge_note(ch: char, own_gloss: Option<Seq<char>>, parents: Seq<(Seq<char>, Option<Seq<char>>)>) -> Option<Seq<char>> {
    let parts = merged_parents(ch, spec_char_gloss_words(own_gloss), parents);
    if parts.len() == 0 {
        None
    } else {
        Some("Also the simplified form of "@ + join(parts, ", "@) + "."@)
    }
}

fn first_clause_exec(g: &Vec<char>) -> (r: Vec<char>)
    ensures
        r@ == first_clause(g@),
{
    let mut i: usize = 0;
    while i < g.len() && g[i] != ';' && g[i] != ','
        invariant
            i <= g@.len(),
            forall|k: int| 0 <= k < i ==> !is_clause_sep(#[trigger] g@[k]),
        decreases g@.len() - i,
    {
        i += 1;
    }
    proof {
        lemma_first_clause(g@, i as int);
    }
    crate::chars::slice_vec(g, 0, i)
}

proof fn lemma_first_clause(g: Seq<char>, i: int)
    requires
        0 <= i <= g.len(),
        forall|k: int| 0 <= k < i ==> !is_clause_sep(#[trigger] g[k]),
        i == g.len() || is_clause_sep(g[i]),
    ensures
        first_clause(g) == g.subrange(0, i),
    decreases i,
{
    if i > 0 {
        assert forall|k: int| 0 <= k < i - 1 implies !is_clause_sep(#[trigger] g.drop_first()[k]) by {
            assert(g.drop_first()[k] == g[k + 1]);
        }
        if i < g.len() {
            assert(g.drop_first()[i - 1] == g[i]);
        }
        lemma_first_clause(g.drop_first(), i - 1);
        assert(g.subrange(0, i) =~= seq![g[0]] + g.drop_first().subrange(0, i - 1));
    } else {
        assert(g.subrange(0, 0) =~= Seq::<char>::empty());
    }
}

fn strings_of(v: &Vec<String>) -> (r: Ghost<Seq<Seq<char>>>)
    ensures
        r@ == v@.map_values(|s: String| s@),
{
    Ghost(v@.map_values(|s: String| s@))
}

fn words_disjoint_exec(a: &Vec<String>, b: &Vec<String>) -> (r: bool)
    ensures
        r == words_disjoint(a@.map_values(|s: String| s@), b@.map_values(|s: String| s@)),
{
    let ghost av = a@.map_values(|s: String| s@);
    let ghost bv = b@.map_values(|s: String| s@);
    for i in 0..a.len()
        invariant
            av == a@.map_values(|s: String| s@),
            bv == b@.map_values(|s: String| s@),
            forall|k: int| 0 <= k < i ==> !bv.contains(#[trigger] av[k]),
    {
        if contains_string(b, &a[i]) {
            assert(bv.contains(av[i as int]));
            return false;
        }
    }
    true
}

fn opt_str_ref(o: &Option<String>) -> (r: Option<&str>)
    ensures
        match r {
            Some(s) => o matches Some(x) && s@ == x@,
            None => o is None,
        },
{
    match o {
        Some(s) => Some(s.as_str()),
        None => None,
    }
}

/// The merge note of glyph `ch` (with its own gloss) given the simplification parents
/// (glyph, gloss) recorded for it.
pub fn merge_note(ch: char, own_gloss: Option<&str>, parents: &Vec<(String, Option<String>)>) -> (r: Option<String>)
    ensures
        opt_str(r) == spec_merge_note(
            ch,
            match own_gloss {
                Some(g) => Some(g@),
                None => None,
            },
            parents@.map_values(|p: (String, Option<String>)| (p.0@, opt_str(p.1))),
        ),
{
    let ghost pv = parents@.map_values(|p: (String, Option<String>)| (p.0@, opt_str(p.1)));
    let ghost ownv = spec_char_gloss_words(
        match own_gloss {
            Some(g) => Some(g@),
            None => None,
        },
    );
    let own = char_gloss_words(own_gloss);
    let mut parts: Vec<String> = Vec::new();
    for i in 0..parents.len()
        invariant
            pv == parents@.map_values(|p: (String, Option<String>)| (p.0@, opt_str(p.1))),
            own@.map_values(|w: String| w@) == ownv,
            parts@.map_values(|s: String| s@) == merged_parents(ch, ownv, pv.take(i as int)),
    {
        proof {
            assert(pv.take(i + 1).drop_last() =~= pv.take(i as int));
            assert(pv.take(i + 1).last() == pv[i as int]);
        }
        let pch = chars_of(parents[i].0.as_str());
        let pg = opt_str_ref(&parents[i].1);
        let pw = char_gloss_words(pg);
        proof {
            assert(opt_str(parents@[i as int].1) == match pg { Some(g) => Some(g@), None => None::<Seq<char>> });
        }
        let skip = (pch.len() > 0 && pch[0] == ch) || pw.len() == 0 || !words_disjoint_exec(&pw, &own);
        if !skip {
            let mut m: Vec<char> = Vec::new();
            crate::chars::append_vec(&mut m, &pch);
            let mut used_gloss = false;
            match pg {
                Some(g) => {
                    let gv = chars_of(g);
                    let fc = first_clause_exec(&gv);
                    let t = trim_vec(&fc);
                    if t.len() > 0 {
                        crate::chars::append_vec(&mut m, &chars_of(" ("));
                        crate::chars::append_vec(&mut m, &t);
                        crate::chars::append_vec(&mut m, &chars_of(")"));
                        used_gloss = true;
                    }
                },
                None => {},
            }
            proof {
                assert(m@ =~= parent_mention(pch@, pv[i as int].1));
            }
            let ghost p0 = parts@.map_values(|s: String| s@);
            parts.push(string_of(&m));
            proof {
                assert(parts@.map_values(|s: String| s@) =~= p0.push(m@));
            }
        }
    }
    proof {
        assert(pv.take(parents.len() as int) =~= pv);
    }
    if parts.len() == 0 {
        None
    } else {
        let mut out = chars_of("Also the simplified form of ");
        let joined = join_strings(&parts, ", ");
        crate::chars::append_vec(&mut out, &chars_of(joined.as_str()));
        crate::chars::append_vec(&mut out, &chars_of("."));
        Some(string_of(&out))
    }
}

// ---------------------------------------------------------------------------------------------
// Radicals
// ---------------------------------------------------------------------------------------------
/// How many words may contain a glyph for it still to count as a bound radical.
pub const RADICAL_USE_LIMIT: i64 = 8;

/// The radical facts of a character: it is a bound radical when its gloss flags a Kangxi radical
/// and at most 8 words contain it; its radical number comes from such a gloss when one is found
/// there, else from the table; a radical whose variant form stands for another character names
/// that character.
pub struct RadicalFacts {
    pub is_radical: bool,
    pub radical_number: Option<i64>,
    pub standalone: Option<String>,
}

pub open spec fn spec_radical_facts(ch: char, gloss: Option<Seq<char>>, radical: Option<i64>, used_count: i64) -> (bool, Option<i64>, Option<Seq<char>>) {
    let rad_gloss = spec_is_radical_gloss(gloss);
    let is_radical = rad_gloss && used_count <= 8;
    let number = if rad_gloss {
        match crate::words::spec_radical_gloss_number(gloss) {
            Some(n) => Some(n),
            None => radical,
        }
    } else {
        radical
    };
    let parent = spec_radical_parent(ch);
    let standalone = if is_radical && parent != ch { Some(seq![parent]) } else { None };
    (is_radical, number, standalone)
}

pub fn radical_facts(ch: char, gloss: Option<&str>, radical: Option<i64>, used_count: i64) -> (r: RadicalFacts)
    ensures
        (r.is_radical, r.radical_number, opt_str(r.standalone)) == spec_radical_facts(
            ch,
            match gloss {
                Some(g) => Some(g@),
                None => None,
            },
            radical,
            used_count,
        ),
{
    let rad_gloss = is_radical_gloss(gloss);
    let is_radical = rad_gloss && used_count <= RADICAL_USE_LIMIT;
    let radical_number = if rad_gloss {
        match radical_gloss_number(gloss) {
            Some(n) => Some(n),
            None => radical,
        }
    } else {
        radical
    };
    let parent = radical_parent(ch);
    let standalone = if is_radical && parent != ch {
        let mut v: Vec<char> = Vec::new();
        v.push(parent);
        Some(string_of(&v))
    } else {
        None
    };
    RadicalFacts { is_radical, radical_number, standalone }
}

// ---------------------------------------------------------------------------------------------
// Pitch accents on a character's readings
// ---------------------------------------------------------------------------------------------
/// A kun reading's okurigana markers (`.`, `-`) removed, to compare with a word's plain kana.
pub open spec fn plain_kana(v: Seq<char>) -> Seq<char> {
    v.filter(|c: char| c != '.' && c != '-')
}

/// The accent of the first (kana, accent) row whose kana is `key`.
pub open spec fn first_accent(rows: Seq<(Seq<char>, Seq<char>)>, key: Seq<char>) -> Option<Seq<char>>
    decreases rows.len(),
{
    if rows.len() == 0 {
        None
    } else if rows[0].0 == key {
        Some(rows[0].1)
    } else {
        first_accent(rows.drop_first(), key)
    }
}

/// The readings with accents carried over: each on'yomi / kun'yomi reading whose plain kana is a
/// single-character Japanese word's reading takes that word's accent (the first one found);
/// every other reading is unchanged.
pub open spec fn accented(r: ReadingKV, rows: Seq<(Seq<char>, Seq<char>)>) -> Option<Seq<char>> {
    if (r.kind@ == "kunyomi"@ || r.kind@ == "onyomi"@) && first_accent(rows, plain_kana(r.value@)) is Some {
        first_accent(rows, plain_kana(r.value@))
    } else {
        opt_str(r.accent)
    }
}

fn first_accent_exec(rows: &Vec<(String, String)>, key: &Vec<char>) -> (r: Option<String>)
    ensures
        opt_str(r) == first_accent(rows@.map_values(|x: (String, String)| (x.0@, x.1@)), key@),
{
    let ghost rv = rows@.map_values(|x: (String, String)| (x.0@, x.1@));
    let mut i: usize = 0;
    assert(rv.skip(0) =~= rv);
    while i < rows.len()
        invariant
            i <= rows@.len(),
            rv == rows@.map_values(|x: (String, String)| (x.0@, x.1@)),
            first_accent(rv.skip(i as int), key@) == first_accent(rv, key@),
        decreases rows@.len() - i,
    {
        proof {
            assert(rv.skip(i as int)[0] == rv[i as int]);
            assert(rv.skip(i as int).drop_first() =~= rv.skip(i + 1));
        }
        let k = chars_of(rows[i].0.as_str());
        if crate::chars::seq_eq(&k, key) {
            return Some(rows[i].1.clone());
        }
        i += 1;
    }
    None
}

pub fn attach_accents(readings: &mut Vec<ReadingKV>, rows: &Vec<(String, String)>)
    ensures
        final(readings)@.len() == old(readings)@.len(),
        forall|i: int|
            0 <= i < old(readings)@.len() ==> {
                let o = old(readings)@[i];
                let n = #[trigger] final(readings)@[i];
                &&& n.kind == o.kind
                &&& n.value == o.value
                &&& opt_str(n.accent) == accented(o, rows@.map_values(|x: (String, String)| (x.0@, x.1@)))
            },
{
    let ghost r0 = readings@;
    let ghost rv = rows@.map_values(|x: (String, String)| (x.0@, x.1@));
    let n = readings.len();
    for i in 0..n
        invariant
            n == r0.len(),
            readings@.len() == r0.len(),
            rv == rows@.map_values(|x: (String, String)| (x.0@, x.1@)),
            forall|j: int|
                i <= j < r0.len() ==> #[trigger] readings@[j] == r0[j],
            forall|j: int|
                0 <= j < i ==> {
                    let o = r0[j];
                    let n = #[trigger] readings@[j];
                    &&& n.kind == o.kind
                    &&& n.value == o.value
                    &&& opt_str(n.accent) == accented(o, rv)
                },
    {
        let is_kun_on = str_eq(readings[i].kind.as_str(), "kunyomi") || str_eq(readings[i].kind.as_str(), "onyomi");
        if is_kun_on {
            let v = chars_of(readings[i].value.as_str());
            let mut key: Vec<char> = Vec::new();
            let ghost pred = |c: char| c != '.' && c != '-';
            for k in 0..v.len()
                invariant
                    pred == (|c: char| c != '.' && c != '-'),
                    key@ == v@.take(k as int).filter(pred),
            {
                proof {
                    assert(v@.take(k as int).push(v@[k as int]) =~= v@.take(k + 1));
                    v@.take(k as int).lemma_filter_push(v@[k as int], pred);
                }
                if v[k] != '.' && v[k] != '-' {
                    key.push(v[k]);
                }
            }
            proof {
                assert(v@.take(v.len() as int) =~= v@);
            }
            match first_accent_exec(rows, &key) {
                Some(a) => {
                    let old_r = readings[i].clone_reading();
                    let nr = ReadingKV { kind: old_r.kind, value: old_r.value, accent: Some(a) };
                    readings.set(i, nr);
                },
                None => {},
            }
        }
    }
}

impl ReadingKV {
    /// A field-for-field copy.
    pub fn clone_reading(&self) -> (r: ReadingKV)
        ensures
            r == *self,
    {
        ReadingKV {
            kind: self.kind.clone(),
            value: self.value.clone(),
            accent: crate::model::copy_opt(&self.accent),
        }
    }
}


// ---------------------------------------------------------------------------------------------
// Decomposition
// ---------------------------------------------------------------------------------------------
/// The Han leaf components of an IDS string: bracketed source tags (`[GTV]`), description
/// operators and strokes dropped, and the character itself left out.
pub open spec fn leaves_from(ids: Seq<char>, self_ch: char, in_tag: bool) -> Seq<char>
    decreases ids.len(),
{
    if ids.len() == 0 {
        Seq::empty()
    } else {
        let c = ids[0];
        if c == '[' {
            leaves_from(ids.drop_first(), self_ch, true)
        } else if c == ']' {
            leaves_from(ids.drop_first(), self_ch, false)
        } else if in_tag {
            leaves_from(ids.drop_first(), self_ch, in_tag)
        } else if crate::script::spec_is_han_component(c) && c != self_ch {
            seq![c] + leaves_from(ids.drop_first(), self_ch, in_tag)
        } else {
            leaves_from(ids.drop_first(), self_ch, in_tag)
        }
    }
}

pub open spec fn spec_han_leaves(ids: Seq<char>, self_ch: char) -> Seq<char> {
    leaves_from(ids, self_ch, false)
}

pub fn han_leaves(ids: &str, self_ch: char) -> (r: Vec<char>)
    ensures
        r@ == spec_han_leaves(ids@, self_ch),
{
    let cs = chars_of(ids);
    let mut out: Vec<char> = Vec::new();
    let mut in_tag = false;
    let mut i: usize = 0;
    assert(cs@.skip(0) =~= cs@);
    while i < cs.len()
        invariant
            i <= cs@.len(),
            cs@ == ids@,
            out@ + leaves_from(cs@.skip(i as int), self_ch, in_tag) == spec_han_leaves(ids@, self_ch),
        decreases cs@.len() - i,
    {
        let c = cs[i];
        proof {
            assert(cs@.skip(i as int)[0] == c);
            assert(cs@.skip(i as int).drop_first() =~= cs@.skip(i + 1));
        }
        if c == '[' {
            in_tag = true;
        } else if c == ']' {
            in_tag = false;
        } else if in_tag {
        } else if crate::script::is_han_component(c) && c != self_ch {
            let ghost o0 = out@;
            out.push(c);
            proof {
                assert(o0 + (seq![c] + leaves_from(cs@.skip(i + 1), self_ch, in_tag)) =~= out@ + leaves_from(cs@.skip(i + 1), self_ch, in_tag));
            }
        }
        i += 1;
    }
    proof {
        assert(out@ + Seq::<char>::empty() =~= out@);
    }
    out
}

/// 2 or more copies of a single component (林 = 木木).
pub open spec fn spec_pure_repeat(leaves: Seq<char>) -> bool {
    leaves.len() >= 2 && forall|i: int| 0 <= i < leaves.len() ==> #[trigger] leaves[i] == leaves[0]
}

pub fn pure_repeat(leaves: &Vec<char>) -> (r: bool)
    ensures
        r == spec_pure_repeat(leaves@),
{
    if leaves.len() < 2 {
        return false;
    }
    for i in 0..leaves.len()
        invariant
            leaves@.len() >= 2,
            forall|k: int| 0 <= k < i ==> #[trigger] leaves@[k] == leaves@[0],
    {
        if leaves[i] != leaves[0] {
            return false;
        }
    }
    true
}

/// The ids known of each character asked about so far (`None`: the character has no ids).
pub open spec fn lookup(table: Seq<(char, Option<Seq<char>>)>, c: char) -> Option<Option<Seq<char>>>
    decreases table.len(),
{
    if table.len() == 0 {
        None
    } else if table[0].0 == c {
        Some(table[0].1)
    } else {
        lookup(table.drop_first(), c)
    }
}

pub open spec fn leaves_in(table: Seq<(char, Option<Seq<char>>)>, c: char) -> Seq<char> {
    match lookup(table, c) {
        Some(Some(ids)) => spec_han_leaves(ids, c),
        _ => Seq::empty(),
    }
}

/// A character's atoms: only pure-repeat components are expanded (林 → 木 木), at most 6 levels
/// deep; every other component stays whole. 森 (⿱木林) → 木 木 木; 好 (⿰女子) → 女 子.
pub open spec fn atoms(table: Seq<(char, Option<Seq<char>>)>, ch: char, depth: int) -> Seq<char>
    decreases 7 - depth, 1int, 0int,
{
    if depth > 6 || depth < 0 {
        seq![ch]
    } else {
        let ls = leaves_in(table, ch);
        if ls.len() == 0 {
            seq![ch]
        } else {
            atoms_of(table, ls, depth)
        }
    }
}

pub open spec fn atoms_of(table: Seq<(char, Option<Seq<char>>)>, ls: Seq<char>, depth: int) -> Seq<char>
    decreases 7 - depth, 0int, ls.len(),
{
    if ls.len() == 0 || depth > 6 || depth < 0 {
        Seq::empty()
    } else {
        let l = ls[0];
        (if spec_pure_repeat(leaves_in(table, l)) { atoms(table, l, depth + 1) } else { seq![l] }) + atoms_of(
            table,
            ls.drop_first(),
            depth,
        )
    }
}

/// The first character whose ids the decomposition of `ch` still needs, in the order it walks.
pub open spec fn needed(table: Seq<(char, Option<Seq<char>>)>, ch: char, depth: int) -> Option<char>
    decreases 7 - depth, 1int, 0int,
{
    if depth > 6 || depth < 0 {
        None
    } else if lookup(table, ch) is None {
        Some(ch)
    } else {
        needed_of(table, leaves_in(table, ch), depth)
    }
}

pub open spec fn needed_of(table: Seq<(char, Option<Seq<char>>)>, ls: Seq<char>, depth: int) -> Option<char>
    decreases 7 - depth, 0int, ls.len(),
{
    if ls.len() == 0 || depth > 6 || depth < 0 {
        None
    } else {
        let l = ls[0];
        if lookup(table, l) is None {
            Some(l)
        } else if spec_pure_repeat(leaves_in(table, l)) && needed(table, l, depth + 1) is Some {
            needed(table, l, depth + 1)
        } else {
            needed_of(table, ls.drop_first(), depth)
        }
    }
}

/// The character's ids as table entries are gathered: ask `next_needed` which character's ids
/// are missing, add them, and once nothing is missing read off the decomposition.
pub struct IdsTable {
    pub entries: Vec<(char, Option<String>)>,
}

pub open spec fn table_view(t: Seq<(char, Option<String>)>) -> Seq<(char, Option<Seq<char>>)> {
    t.map_values(|e: (char, Option<String>)| (e.0, opt_str(e.1)))
}

fn lookup_exec(t: &Vec<(char, Option<String>)>, c: char) -> (r: Option<Option<Vec<char>>>)
    ensures
        match r {
            None => lookup(table_view(t@), c) is None,
            Some(None) => lookup(table_view(t@), c) == Some(None::<Seq<char>>),
            Some(Some(v)) => lookup(table_view(t@), c) == Some(Some(v@)),
        },
{
    let ghost tv = table_view(t@);
    let mut i: usize = 0;
    assert(tv.skip(0) =~= tv);
    while i < t.len()
        invariant
            i <= t@.len(),
            tv == table_view(t@),
            lookup(tv.skip(i as int), c) == lookup(tv, c),
        decreases t@.len() - i,
    {
        proof {
            assert(tv.skip(i as int)[0] == tv[i as int]);
            assert(tv.skip(i as int).drop_first() =~= tv.skip(i + 1));
        }
        if t[i].0 == c {
            return match &t[i].1 {
                Some(s) => Some(Some(chars_of(s.as_str()))),
                None => Some(None),
            };
        }
        i += 1;
    }
    None
}

fn leaves_in_exec(t: &Vec<(char, Option<String>)>, c: char) -> (r: Vec<char>)
    ensures
        r@ == leaves_in(table_view(t@), c),
{
    match lookup_exec(t, c) {
        Some(Some(ids)) => han_leaves(string_of(&ids).as_str(), c),
        _ => Vec::new(),
    }
}

fn needed_exec(t: &Vec<(char, Option<String>)>, ch: char, depth: usize) -> (r: Option<char>)
    requires
        depth <= 7,
    ensures
        r == needed(table_view(t@), ch, depth as int),
    decreases 7 - depth, 1int, 0int,
{
    if depth > 6 {
        return None;
    }
    match lookup_exec(t, ch) {
        None => Some(ch),
        Some(_) => {
            let ls = leaves_in_exec(t, ch);
            proof {
                assert(ls@.skip(0) =~= ls@);
            }
            needed_list_exec(t, &ls, 0, depth)
        },
    }
}

fn needed_list_exec(t: &Vec<(char, Option<String>)>, ls: &Vec<char>, k: usize, depth: usize) -> (r: Option<char>)
    requires
        depth <= 6,
        k <= ls@.len(),
    ensures
        r == needed_of(table_view(t@), ls@.skip(k as int), depth as int),
    decreases 7 - depth, 0int, ls@.len() - k,
{
    if k >= ls.len() {
        return None;
    }
    let l = ls[k];
    proof {
        assert(ls@.skip(k as int)[0] == l);
        assert(ls@.skip(k as int).drop_first() =~= ls@.skip(k + 1));
    }
    match lookup_exec(t, l) {
        None => Some(l),
        Some(_) => {
            let ll = leaves_in_exec(t, l);
            if pure_repeat(&ll) {
                match needed_exec(t, l, depth + 1) {
                    Some(x) => return Some(x),
                    None => {},
                }
            }
            needed_list_exec(t, ls, k + 1, depth)
        },
    }
}

fn atoms_exec(t: &Vec<(char, Option<String>)>, ch: char, depth: usize) -> (r: Vec<char>)
    requires
        depth <= 7,
    ensures
        r@ == atoms(table_view(t@), ch, depth as int),
    decreases 7 - depth, 1int, 0int,
{
    if depth > 6 {
        let mut v: Vec<char> = Vec::new();
        v.push(ch);
        return v;
    }
    let ls = leaves_in_exec(t, ch);
    if ls.len() == 0 {
        let mut v: Vec<char> = Vec::new();
        v.push(ch);
        return v;
    }
    proof {
        assert(ls@.skip(0) =~= ls@);
    }
    atoms_list_exec(t, &ls, 0, depth)
}

fn atoms_list_exec(t: &Vec<(char, Option<String>)>, ls: &Vec<char>, k: usize, depth: usize) -> (r: Vec<char>)
    requires
        depth <= 6,
        k <= ls@.len(),
    ensures
        r@ == atoms_of(table_view(t@), ls@.skip(k as int), depth as int),
    decreases 7 - depth, 0int, ls@.len() - k,
{
    if k >= ls.len() {
        return Vec::new();
    }
    let l = ls[k];
    proof {
        assert(ls@.skip(k as int)[0] == l);
        assert(ls@.skip(k as int).drop_first() =~= ls@.skip(k + 1));
    }
    let ll = leaves_in_exec(t, l);
    let mut head = if pure_repeat(&ll) {
        atoms_exec(t, l, depth + 1)
    } else {
        let mut v: Vec<char> = Vec::new();
        v.push(l);
        v
    };
    let tail = atoms_list_exec(t, ls, k + 1, depth);
    crate::chars::append_vec(&mut head, &tail);
    head
}

/// A character built from 2 or more copies of one other glyph (森 → 木 ×3): that glyph and the
/// count, from its atoms.
pub open spec fn spec_uniform(atoms: Seq<char>, ch: char) -> Option<(char, int)> {
    if atoms.len() >= 2 && (forall|i: int| 0 <= i < atoms.len() ==> #[trigger] atoms[i] == atoms[0]) && atoms[0] != ch {
        Some((atoms[0], atoms.len() as int))
    } else {
        None
    }
}

impl IdsTable {
    pub fn new() -> (t: Self)
        ensures
            t.entries@.len() == 0,
    {
        IdsTable { entries: Vec::new() }
    }

    /// The character whose ids the decomposition of `ch` needs next, if any.
    pub fn next_needed(&self, ch: char) -> (r: Option<char>)
        ensures
            r == needed(table_view(self.entries@), ch, 0),
    {
        needed_exec(&self.entries, ch, 0)
    }

    /// Record a character's ids (`None` when it has none).
    pub fn add(&mut self, c: char, ids: Option<String>)
        ensures
            final(self).entries@ == old(self).entries@.push((c, ids)),
    {
        self.entries.push((c, ids));
    }

    /// The decomposition of `ch` into repeated copies of one glyph, from the gathered ids.
    pub fn uniform_decomp(&self, ch: char) -> (r: Option<(char, usize)>)
        ensures
            match r {
                Some((b, n)) => spec_uniform(atoms(table_view(self.entries@), ch, 0), ch) == Some((b, n as int)),
                None => spec_uniform(atoms(table_view(self.entries@), ch, 0), ch) is None,
            },
    {
        let a = atoms_exec(&self.entries, ch, 0);
        if a.len() < 2 || a[0] == ch {
            return None;
        }
        for i in 0..a.len()
            invariant
                a@.len() >= 2,
                a@ == atoms(table_view(self.entries@), ch, 0),
                forall|k: int| 0 <= k < i ==> #[trigger] a@[k] == a@[0],
        {
            if a[i] != a[0] {
                proof {
                    let at = atoms(table_view(self.entries@), ch, 0);
                    assert(at == a@);
                    assert(at[i as int] != at[0]);
                    assert(!(forall|k: int| 0 <= k < at.len() ==> #[trigger] at[k] == at[0]));
                }
                return None;
            }
        }
        Some((a[0], a.len()))
    }
}


// ---------------------------------------------------------------------------------------------
// Small character-page decisions
// ---------------------------------------------------------------------------------------------
/// A character's display variety: Japanese when it has on/kun readings and no pinyin, else
/// Chinese.
pub open spec fn spec_char_variety(has_kana: bool, has_pinyin: bool) -> Seq<char> {
    if !has_pinyin && has_kana {
        "ja"@
    } else {
        "zh"@
    }
}

pub fn char_variety(has_kana: bool, has_pinyin: bool) -> (r: &'static str)
    ensures
        r@ == spec_char_variety(has_kana, has_pinyin),
{
    if !has_pinyin && has_kana {
        "ja"
    } else {
        "zh"
    }
}

/// The glyphs of stored codepoints (truncated to 32 bits as stored), skipping values that are
/// not characters and the glyph `except` itself.
pub open spec fn glyphs_from(cps: Seq<i64>, except: Option<char>) -> Seq<char>
    decreases cps.len(),
{
    if cps.len() == 0 {
        Seq::empty()
    } else {
        let pre = glyphs_from(cps.drop_last(), except);
        let u = cps.last() as u32;
        if crate::chars::is_scalar(u) && except != Some(u as char) {
            pre.push(u as char)
        } else {
            pre
        }
    }
}

/// Confusable look-alikes and identity variants come back as codepoints; these are their
/// glyphs (a variant list leaves out the character itself).
pub fn glyphs_of(cps: &Vec<i64>, except: Option<char>) -> (r: Vec<char>)
    ensures
        r@ == glyphs_from(cps@, except),
{
    let mut out: Vec<char> = Vec::new();
    for i in 0..cps.len()
        invariant
            out@ == glyphs_from(cps@.take(i as int), except),
    {
        proof {
            assert(cps@.take(i + 1).drop_last() =~= cps@.take(i as int));
            assert(cps@.take(i + 1).last() == cps@[i as int]);
        }
        let u = (#[verifier::truncate] (cps[i] as u32));
        match crate::chars::char_from_u32(u) {
            Some(c) => {
                proof {
                    crate::script::lemma_char_of_u32(c, u);
                }
                if except != Some(c) {
                    out.push(c);
                }
            },
            None => {},
        }
    }
    proof {
        assert(cps@.take(cps.len() as int) =~= cps@);
    }
    out
}

/// The short gloss of a character-table gloss, when it has a non-empty one.
pub open spec fn spec_char_short_gloss(gloss: Option<Seq<char>>) -> Option<Seq<char>> {
    match gloss {
        Some(g) => if crate::words::spec_short_gloss(g).len() > 0 { Some(crate::words::spec_short_gloss(g)) } else { None },
        None => None,
    }
}

pub fn char_short_gloss(gloss: Option<&str>) -> (r: Option<String>)
    ensures
        opt_str(r) == spec_char_short_gloss(match gloss { Some(g) => Some(g@), None => None }),
{
    match gloss {
        Some(g) => {
            let s = crate::words::short_gloss(g);
            if chars_of(s.as_str()).len() > 0 {
                Some(s)
            } else {
                None
            }
        },
        None => None,
    }
}

/// A word's short gloss for a breakdown: the first of its sense glosses (in sense order, NULLs
/// skipped) whose short gloss is not empty; empty when none is.
pub open spec fn first_short_gloss(glosses: Seq<Option<Seq<char>>>) -> Seq<char>
    decreases glosses.len(),
{
    if glosses.len() == 0 {
        Seq::empty()
    } else {
        match glosses[0] {
            Some(g) => if crate::words::spec_short_gloss(g).len() > 0 {
                crate::words::spec_short_gloss(g)
            } else {
                first_short_gloss(glosses.drop_first())
            },
            None => first_short_gloss(glosses.drop_first()),
        }
    }
}

pub fn word_short_gloss(glosses: &Vec<Option<String>>) -> (r: String)
    ensures
        r@ == first_short_gloss(glosses@.map_values(|g: Option<String>| opt_str(g))),
{
    let ghost gv = glosses@.map_values(|g: Option<String>| opt_str(g));
    let mut i: usize = 0;
    assert(gv.skip(0) =~= gv);
    while i < glosses.len()
        invariant
            i <= glosses@.len(),
            gv == glosses@.map_values(|g: Option<String>| opt_str(g)),
            first_short_gloss(gv.skip(i as int)) == first_short_gloss(gv),
        decreases glosses@.len() - i,
    {
        proof {
            assert(gv.skip(i as int)[0] == gv[i as int]);
            assert(gv.skip(i as int).drop_first() =~= gv.skip(i + 1));
        }
        match &glosses[i] {
            Some(g) => {
                let s = crate::words::short_gloss(g.as_str());
                if chars_of(s.as_str()).len() > 0 {
                    return s;
                }
            },
            None => {},
        }
        i += 1;
    }
    string_of(&Vec::new())
}

/// The structured components of a character, one per distinct first glyph, in order: the
/// positions of the component rows kept (empty names are dropped).
pub open spec fn first_glyph_rows(comps: Seq<Seq<char>>, seen: Set<char>, start: int) -> Seq<usize>
    decreases comps.len() - start,
{
    if start >= comps.len() || start < 0 {
        Seq::empty()
    } else if comps[start].len() == 0 || seen.contains(comps[start][0]) {
        first_glyph_rows(comps, seen, start + 1)
    } else {
        seq![start as usize] + first_glyph_rows(comps, seen.insert(comps[start][0]), start + 1)
    }
}

pub fn distinct_component_rows(comps: &Vec<String>) -> (r: Vec<usize>)
    ensures
        r@ == first_glyph_rows(comps@.map_values(|c: String| c@), Set::empty(), 0),
{
    let ghost cv = comps@.map_values(|c: String| c@);
    let mut seen: Vec<char> = Vec::new();
    let mut out: Vec<usize> = Vec::new();
    proof {
        assert(seen@.to_set() =~= Set::<char>::empty());
    }
    for i in 0..comps.len()
        invariant
            cv == comps@.map_values(|c: String| c@),
            out@ + first_glyph_rows(cv, seen@.to_set(), i as int) == first_glyph_rows(cv, Set::empty(), 0),
    {
        let c = chars_of(comps[i].as_str());
        if c.len() > 0 {
            let mut dup = false;
            for j in 0..seen.len()
                invariant
                    dup <==> exists|k: int| 0 <= k < j && seen@[k] == c@[0],
                    c@.len() > 0,
            {
                if seen[j] == c[0] {
                    dup = true;
                }
            }
            if !dup {
                let ghost s0 = seen@;
                let ghost o0 = out@;
                seen.push(c[0]);
                out.push(i);
                proof {
                    s0.lemma_push_to_set_commute(c@[0]);
                    assert(out@ + first_glyph_rows(cv, seen@.to_set(), i + 1) =~= o0 + (seq![i] + first_glyph_rows(cv, s0.to_set().insert(c@[0]), i + 1)));
                }
            } else {
                proof {
                    let k = choose|k: int| 0 <= k < seen@.len() && seen@[k] == c@[0];
                    assert(seen@.to_set().contains(c@[0]));
                }
            }
        }
    }
    out
}

} // verus!

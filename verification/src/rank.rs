//! Candidate selection for a search: how a query is read (scope), the weight of each way a word
//! can match, the best weight kept per lexeme, and the substrings probed when a Han/kana query is
//! not itself a word. Weights are exact integers on one scale (see `UNIT`), so "the best match
//! wins" is a statement about integers; the frequency tiebreak and final score stay outside.
use vstd::prelude::*;
use crate::chars::{ascii_lower, ascii_lower_seq, ch_ascii_lower, chars_of, seq_eq, trim, trim_vec};
use crate::gloss::EnglishTier;
use crate::script::{str_eq, Kind};

verus! {

// ---------------------------------------------------------------------------------------------
// Scope: how a romanized / ambiguous query is read
// ---------------------------------------------------------------------------------------------
/// How to interpret a romanized/ambiguous query: `you` can mean the word (an English gloss) or a
/// sound (a reading); by default both are blended, but the caller can force one lens.
#[derive(Clone, Copy, PartialEq, Eq, Debug, Structural)]
pub enum Scope {
    /// blend meaning + sound (the default)
    Auto,
    /// only phonetic matches: words whose reading is the query
    Sound,
    /// only meaning matches: words whose English gloss is the query
    Meaning,
}

/// The scope a request parameter names, after trimming and ASCII-lowercasing it.
pub open spec fn spec_scope_of(p: Seq<char>) -> Scope {
    if p == "sound"@ || p == "phonetic"@ || p == "reading"@ {
        Scope::Sound
    } else if p == "meaning"@ || p == "english"@ || p == "gloss"@ {
        Scope::Meaning
    } else {
        Scope::Auto
    }
}

pub open spec fn spec_from_param(s: Option<Seq<char>>) -> Scope {
    match s {
        Some(p) => spec_scope_of(ascii_lower_seq(trim(p))),
        None => Scope::Auto,
    }
}

fn lit_eq(v: &Vec<char>, lit: &str) -> (r: bool)
    ensures
        r == (v@ == lit@),
{
    let l = chars_of(lit);
    seq_eq(v, &l)
}

impl Scope {
    /// "sound" / "phonetic" / "reading" force the phonetic lens, "meaning" / "english" / "gloss"
    /// the meaning lens (any case, surrounding whitespace ignored); anything else blends both.
    pub fn from_param(s: Option<&str>) -> (r: Scope)
        ensures
            r == spec_from_param(
                match s {
                    Some(p) => Some(p@),
                    None => None,
                },
            ),
    {
        match s {
            None => Scope::Auto,
            Some(p) => {
                let cs = chars_of(p);
                let t = trim_vec(&cs);
                let mut low: Vec<char> = Vec::new();
                for i in 0..t.len()
                    invariant
                        low@ == ascii_lower_seq(t@.take(i as int)),
                {
                    low.push(ch_ascii_lower(t[i]));
                    proof {
                        assert(low@ =~= ascii_lower_seq(t@.take(i + 1)));
                    }
                }
                proof {
                    assert(t@.take(t.len() as int) =~= t@);
                }
                if lit_eq(&low, "sound") || lit_eq(&low, "phonetic") || lit_eq(&low, "reading") {
                    Scope::Sound
                } else if lit_eq(&low, "meaning") || lit_eq(&low, "english") || lit_eq(&low, "gloss") {
                    Scope::Meaning
                } else {
                    Scope::Auto
                }
            },
        }
    }

    pub open spec fn spec_keeps(self, match_type: Seq<char>) -> bool {
        match self {
            Scope::Auto => true,
            Scope::Sound => match_type != "english"@,
            Scope::Meaning => match_type != "reading"@,
        }
    }

    /// Does a candidate that matched via `match_type` survive this scope? Only the two ambiguous
    /// tiers are filtered: `reading` (sound) and `english` (meaning); written-form matches always
    /// stay.
    pub fn keeps(self, match_type: &str) -> (r: bool)
        ensures
            r == self.spec_keeps(match_type@),
    {
        match self {
            Scope::Auto => true,
            Scope::Sound => !str_eq(match_type, "english"),
            Scope::Meaning => !str_eq(match_type, "reading"),
        }
    }
}

/// Written-form matches survive every scope: only the reading tier (under "meaning") and the
/// English tier (under "sound") are ever filtered out.
pub proof fn law_scope_keeps_written_form(scope: Scope, mt: MatchType)
    ensures
        mt != MatchType::Reading && mt != MatchType::English ==> scope.spec_keeps(mt.name()),
        scope == Scope::Auto ==> scope.spec_keeps(mt.name()),
{
    reveal_strlit("english");
    reveal_strlit("reading");
    reveal_strlit("exact");
    reveal_strlit("variant");
    reveal_strlit("partial");
    reveal_strlit("wildcard");
    match mt {
        MatchType::Exact => assert(mt.name().len() != "english"@.len() && mt.name().len() != "reading"@.len()),
        MatchType::Variant => assert(mt.name()[0] != "english"@[0] && mt.name()[0] != "reading"@[0]),
        MatchType::Partial => assert(mt.name()[0] != "english"@[0] && mt.name()[0] != "reading"@[0]),
        MatchType::Wildcard => assert(mt.name()[0] != "english"@[0] && mt.name()[0] != "reading"@[0]),
        _ => {},
    }
}

// ---------------------------------------------------------------------------------------------
// Match types and weights
// ---------------------------------------------------------------------------------------------
/// How a candidate matched the query.
#[derive(Clone, Copy, PartialEq, Eq, Debug, Structural)]
pub enum MatchType {
    Exact,
    Variant,
    Reading,
    English,
    Partial,
    Wildcard,
}

impl MatchType {
    pub open spec fn name(self) -> Seq<char> {
        match self {
            MatchType::Exact => "exact"@,
            MatchType::Variant => "variant"@,
            MatchType::Reading => "reading"@,
            MatchType::English => "english"@,
            MatchType::Partial => "partial"@,
            MatchType::Wildcard => "wildcard"@,
        }
    }

    /// The label reported as a hit's `match_type`.
    pub fn as_str(self) -> (r: &'static str)
        ensures
            r@ == self.name(),
    {
        match self {
            MatchType::Exact => "exact",
            MatchType::Variant => "variant",
            MatchType::Reading => "reading",
            MatchType::English => "english",
            MatchType::Partial => "partial",
            MatchType::Wildcard => "wildcard",
        }
    }
}

/// A weight of 1.0. Weights are whole multiples of 1/UNIT, and UNIT is 100 times the least
/// common multiple of 1..=24, so every tier (a whole number of hundredths) and every partial
/// weight 0.45 · len / n with n <= 24 is exact.
pub const UNIT: u64 = 535422888000;

/// One hundredth of `UNIT`.
pub const CENT: u64 = 5354228880;

/// The weight of a tier given in hundredths.
pub open spec fn cents(h: nat) -> nat {
    h * 5354228880
}

/// The typed string is one of the lexeme's written forms.
pub const W_EXACT: u64 = 100 * 5354228880;

/// ... and it is the lexeme's primary spelling.
pub const W_EXACT_PRIMARY: u64 = 116 * 5354228880;

/// A curated English alias names the lexeme: above every ordinary match.
pub const W_ALIAS: u64 = 135 * 5354228880;

/// The lexeme shares the query's backbone key (cross-script / same form).
pub const W_VARIANT: u64 = 85 * 5354228880;

/// A reading equals the query.
pub const W_READING: u64 = 72 * 5354228880;

/// A reading (or written form) starts with the query, as it is typed.
pub const W_READING_PREFIX: u64 = 55 * 5354228880;

/// A wildcard hit; frequency orders the tier.
pub const W_WILDCARD: u64 = 50 * 5354228880;

/// The most a word's frequency adds to a match weight (0.15 for the most frequent words): a
/// tiebreak inside a tier, never a multiplier.
pub const FREQ_BONUS: u64 = 15 * 5354228880;

/// Frequency never flips the tiers the ranking relies on: whatever bonus two words get from
/// their frequencies (each at most `FREQ_BONUS`), a curated alias beats an exact match on the
/// primary spelling, the primary spelling beats an alternative spelling, an exact reading beats
/// an as-you-type prefix, and an English sense that is the term beats one that only starts with
/// it or mentions it incidentally. The term being a word's primary sense weighs exactly an exact
/// sense plus the largest frequency bonus.
pub proof fn law_frequency_never_flips_tiers(f1: nat, f2: nat)
    requires
        f1 <= FREQ_BONUS,
        f2 <= FREQ_BONUS,
    ensures
        W_ALIAS + f1 > W_EXACT_PRIMARY + f2,
        W_EXACT_PRIMARY + f1 > W_EXACT + f2,
        W_READING + f1 > W_READING_PREFIX + f2,
        spec_english_weight(EnglishTier::Exact) + f1 > spec_english_weight(EnglishTier::Leading) + f2,
        spec_english_weight(EnglishTier::Exact) + f1 > spec_english_weight(EnglishTier::Incidental) + f2,
        spec_english_weight(EnglishTier::PrimarySense) == spec_english_weight(EnglishTier::Exact) + FREQ_BONUS,
{
}

/// The English-match weight of a tier: 1.05 when the term is the word's primary sense (0.9 plus
/// the frequency bonus 0.15, so the meaning beats the frequency tiebreak), 0.9 for an exact sense,
/// 0.6 when a sense starts with the term, 0.45 for a whole-word mention, 0.3 otherwise.
pub open spec fn spec_english_weight(t: EnglishTier) -> nat {
    match t {
        EnglishTier::PrimarySense => cents(105),
        EnglishTier::Exact => cents(90),
        EnglishTier::Leading => cents(60),
        EnglishTier::Word => cents(45),
        EnglishTier::Incidental => cents(30),
    }
}

/// The English tiers rank strictly: the term being a word's primary sense weighs more than an
/// exact sense, which weighs more than a sense starting with the term, which weighs more than a
/// whole-word mention, which weighs more than an incidental one.
pub proof fn law_english_tiers_rank_strictly()
    ensures
        spec_english_weight(EnglishTier::PrimarySense) > spec_english_weight(EnglishTier::Exact),
        spec_english_weight(EnglishTier::Exact) > spec_english_weight(EnglishTier::Leading),
        spec_english_weight(EnglishTier::Leading) > spec_english_weight(EnglishTier::Word),
        spec_english_weight(EnglishTier::Word) > spec_english_weight(EnglishTier::Incidental),
        spec_english_weight(EnglishTier::Incidental) > 0,
{
}

pub fn english_weight(t: EnglishTier) -> (w: u64)
    ensures
        w == spec_english_weight(t),
{
    match t {
        EnglishTier::PrimarySense => 105 * CENT,
        EnglishTier::Exact => 90 * CENT,
        EnglishTier::Leading => 60 * CENT,
        EnglishTier::Word => 45 * CENT,
        EnglishTier::Incidental => 30 * CENT,
    }
}

/// The weight of a dictionary word found as a `len`-character substring of an `n`-character
/// query: 0.45 scaled by the share of the query it covers.
pub open spec fn spec_partial_weight(len: nat, n: nat) -> nat {
    (45 * len * (5354228880nat / n)) as nat
}

proof fn lemma_unit_divisible(n: nat)
    requires
        1 <= n <= 24,
    ensures
        (5354228880nat / n) * n == 5354228880nat,
{
    if n == 1 {
        assert((5354228880nat / 1) * 1 == 5354228880nat);
    } else if n == 2 {
        assert((5354228880nat / 2) * 2 == 5354228880nat);
    } else if n == 3 {
        assert((5354228880nat / 3) * 3 == 5354228880nat);
    } else if n == 4 {
        assert((5354228880nat / 4) * 4 == 5354228880nat);
    } else if n == 5 {
        assert((5354228880nat / 5) * 5 == 5354228880nat);
    } else if n == 6 {
        assert((5354228880nat / 6) * 6 == 5354228880nat);
    } else if n == 7 {
        assert((5354228880nat / 7) * 7 == 5354228880nat);
    } else if n == 8 {
        assert((5354228880nat / 8) * 8 == 5354228880nat);
    } else if n == 9 {
        assert((5354228880nat / 9) * 9 == 5354228880nat);
    } else if n == 10 {
        assert((5354228880nat / 10) * 10 == 5354228880nat);
    } else if n == 11 {
        assert((5354228880nat / 11) * 11 == 5354228880nat);
    } else if n == 12 {
        assert((5354228880nat / 12) * 12 == 5354228880nat);
    } else if n == 13 {
        assert((5354228880nat / 13) * 13 == 5354228880nat);
    } else if n == 14 {
        assert((5354228880nat / 14) * 14 == 5354228880nat);
    } else if n == 15 {
        assert((5354228880nat / 15) * 15 == 5354228880nat);
    } else if n == 16 {
        assert((5354228880nat / 16) * 16 == 5354228880nat);
    } else if n == 17 {
        assert((5354228880nat / 17) * 17 == 5354228880nat);
    } else if n == 18 {
        assert((5354228880nat / 18) * 18 == 5354228880nat);
    } else if n == 19 {
        assert((5354228880nat / 19) * 19 == 5354228880nat);
    } else if n == 20 {
        assert((5354228880nat / 20) * 20 == 5354228880nat);
    } else if n == 21 {
        assert((5354228880nat / 21) * 21 == 5354228880nat);
    } else if n == 22 {
        assert((5354228880nat / 22) * 22 == 5354228880nat);
    } else if n == 23 {
        assert((5354228880nat / 23) * 23 == 5354228880nat);
    } else if n == 24 {
        assert((5354228880nat / 24) * 24 == 5354228880nat);
    }
}

pub fn partial_weight(len: usize, n: usize) -> (w: u64)
    requires
        1 <= n <= 24,
        len <= n,
    ensures
        w == spec_partial_weight(len as nat, n as nat),
        w * n == 45 * len * CENT,
{
    proof {
        lemma_unit_divisible(n as nat);
        assert(45 * len * (5354228880nat / n as nat) <= 45 * 24 * 5354228880nat) by (nonlinear_arith)
            requires
                len <= n,
                n >= 1,
                (5354228880nat / n as nat) * n == 5354228880nat,
        ;
        assert((45 * len * (5354228880nat / n as nat)) * n == 45 * len * 5354228880nat) by (nonlinear_arith)
            requires
                (5354228880nat / n as nat) * n == 5354228880nat,
        ;
    }
    let per: u64 = 5354228880 / (n as u64);
    45 * (len as u64) * per
}


// ---------------------------------------------------------------------------------------------
// The best match per lexeme
// ---------------------------------------------------------------------------------------------
/// One way a lexeme matched, with its base weight.
#[derive(Clone, Copy, PartialEq, Eq, Debug, Structural)]
pub struct Candidate {
    pub lexeme_id: i64,
    pub match_type: MatchType,
    pub weight: u64,
}

/// Record one match: a lexeme not seen yet takes it; a seen one takes it only when it weighs
/// strictly more than what it has.
pub open spec fn bump_spec(m: Map<i64, (MatchType, u64)>, c: Candidate) -> Map<i64, (MatchType, u64)> {
    if !m.contains_key(c.lexeme_id) || c.weight > m[c.lexeme_id].1 {
        m.insert(c.lexeme_id, (c.match_type, c.weight))
    } else {
        m
    }
}

/// What a sequence of matches leaves: for each lexeme, its best match.
pub open spec fn best_of(bumps: Seq<Candidate>) -> Map<i64, (MatchType, u64)>
    decreases bumps.len(),
{
    if bumps.len() == 0 {
        Map::empty()
    } else {
        bump_spec(best_of(bumps.drop_last()), bumps.last())
    }
}

/// The best match seen so far for each lexeme, in the order lexemes were first seen.
pub struct Candidates {
    items: Vec<Candidate>,
    bumps: Ghost<Seq<Candidate>>,
}

impl Candidates {
    /// Every match recorded so far, in order.
    pub closed spec fn history(&self) -> Seq<Candidate> {
        self.bumps@
    }

    /// The current best match per lexeme.
    pub open spec fn best(&self) -> Map<i64, (MatchType, u64)> {
        best_of(self.history())
    }

    pub closed spec fn entries(&self) -> Seq<Candidate> {
        self.items@
    }

    /// The entries are the best map, one per lexeme.
    pub closed spec fn wf(&self) -> bool {
        &&& forall|i: int, j: int|
            0 <= i < j < self.items@.len() ==> (#[trigger] self.items@[i]).lexeme_id != (
            #[trigger] self.items@[j]).lexeme_id
        &&& forall|i: int|
            0 <= i < self.items@.len() ==> self.best().contains_key((#[trigger] self.items@[i]).lexeme_id)
                && self.best()[self.items@[i].lexeme_id] == (self.items@[i].match_type, self.items@[i].weight)
        &&& forall|id: i64|
            #[trigger] self.best().contains_key(id) ==> exists|i: int|
                0 <= i < self.items@.len() && self.items@[i].lexeme_id == id
    }

    pub fn new() -> (c: Self)
        ensures
            c.wf(),
            c.history() == Seq::<Candidate>::empty(),
    {
        Candidates { items: Vec::new(), bumps: Ghost(Seq::empty()) }
    }

    /// Record that lexeme `id` matched via `mt` with weight `w`.
    pub fn bump(&mut self, id: i64, mt: MatchType, w: u64)
        requires
            old(self).wf(),
        ensures
            final(self).wf(),
            final(self).history() == old(self).history().push(
                Candidate { lexeme_id: id, match_type: mt, weight: w },
            ),
    {
        let c = Candidate { lexeme_id: id, match_type: mt, weight: w };
        let ghost b0 = self.bumps@;
        let ghost m0 = best_of(b0);
        let ghost items0 = self.items@;
        let mut k: usize = 0;
        while k < self.items.len() && self.items[k].lexeme_id != id
            invariant
                k <= self.items@.len(),
                self.items@ == items0,
                self.bumps@ == b0,
                self.wf(),
                m0 == best_of(b0),
                forall|i: int| 0 <= i < k ==> self.items@[i].lexeme_id != id,
            decreases self.items@.len() - k,
        {
            k += 1;
        }
        proof {
            assert(m0 == self.best());
            assert forall|id2: i64| #[trigger] m0.contains_key(id2) implies exists|i: int|
                0 <= i < items0.len() && items0[i].lexeme_id == id2 by {
                assert(self.best().contains_key(id2));
            }
            if k == self.items.len() && m0.contains_key(id) {
                let i = choose|i: int| 0 <= i < items0.len() && items0[i].lexeme_id == id;
                assert(self.items@[i].lexeme_id != id);
            }
            if k < self.items.len() {
                assert(m0.contains_key(items0[k as int].lexeme_id));
            }
        }
        if k < self.items.len() {
            if w > self.items[k].weight {
                self.items.set(k, c);
            }
            proof {
                self.bumps@ = b0.push(c);
                assert(self.bumps@.drop_last() =~= b0);
                assert(self.best() == bump_spec(m0, c));
                let m1 = self.best();
                assert forall|i: int| 0 <= i < self.items@.len() implies m1.contains_key((#[trigger] self.items@[i]).lexeme_id)
                    && m1[self.items@[i].lexeme_id] == (self.items@[i].match_type, self.items@[i].weight) by {
                    if i != k {
                        assert(self.items@[i] == items0[i]);
                        assert(items0[i].lexeme_id != items0[k as int].lexeme_id);
                    }
                }
                assert forall|id2: i64| #[trigger] m1.contains_key(id2) implies exists|i: int|
                    0 <= i < self.items@.len() && self.items@[i].lexeme_id == id2 by {
                    if id2 == id {
                        assert(self.items@[k as int].lexeme_id == id);
                    } else {
                        assert(m0.contains_key(id2));
                        let i = choose|i: int| 0 <= i < items0.len() && items0[i].lexeme_id == id2;
                        assert(self.items@[i].lexeme_id == id2);
                    }
                }
            }
        } else {
            self.items.push(c);
            proof {
                self.bumps@ = b0.push(c);
                assert(self.bumps@.drop_last() =~= b0);
                assert(self.best() == bump_spec(m0, c));
                let m1 = self.best();
                assert forall|i: int| 0 <= i < self.items@.len() implies m1.contains_key((#[trigger] self.items@[i]).lexeme_id)
                    && m1[self.items@[i].lexeme_id] == (self.items@[i].match_type, self.items@[i].weight) by {
                    if i < items0.len() {
                        assert(self.items@[i] == items0[i]);
                    }
                }
                assert forall|id2: i64| #[trigger] m1.contains_key(id2) implies exists|i: int|
                    0 <= i < self.items@.len() && self.items@[i].lexeme_id == id2 by {
                    if id2 == id {
                        assert(self.items@[items0.len() as int].lexeme_id == id);
                    } else {
                        assert(m0.contains_key(id2));
                        let i = choose|i: int| 0 <= i < items0.len() && items0[i].lexeme_id == id2;
                        assert(self.items@[i].lexeme_id == id2);
                    }
                }
                assert forall|a: int, b: int| 0 <= a < b < self.items@.len() implies (#[trigger] self.items@[a]).lexeme_id != (
                    #[trigger] self.items@[b]).lexeme_id by {
                    if b < items0.len() {
                        assert(self.items@[a] == items0[a] && self.items@[b] == items0[b]);
                    } else {
                        assert(self.items@[a] == items0[a]);
                    }
                }
            }
        }
    }

    /// Some lexeme matched as a whole word (exactly or by its backbone key).
    pub open spec fn spec_has_whole(&self) -> bool {
        exists|id: i64|
            #[trigger] self.best().contains_key(id) && (self.best()[id].0 == MatchType::Exact
                || self.best()[id].0 == MatchType::Variant)
    }

    pub fn has_whole(&self) -> (r: bool)
        requires
            self.wf(),
        ensures
            r == self.spec_has_whole(),
    {
        for i in 0..self.items.len()
            invariant
                self.wf(),
                forall|j: int|
                    0 <= j < i ==> self.items@[j].match_type != MatchType::Exact
                        && self.items@[j].match_type != MatchType::Variant,
        {
            let mt = self.items[i].match_type;
            if mt == MatchType::Exact || mt == MatchType::Variant {
                assert(self.best().contains_key(self.items@[i as int].lexeme_id));
                return true;
            }
        }
        proof {
            assert forall|id: i64| #[trigger] self.best().contains_key(id) implies !(self.best()[id].0
                == MatchType::Exact || self.best()[id].0 == MatchType::Variant) by {
                let i = choose|i: int| 0 <= i < self.items@.len() && self.items@[i].lexeme_id == id;
                assert(self.best()[self.items@[i].lexeme_id] == (self.items@[i].match_type, self.items@[i].weight));
            }
        }
        false
    }

    /// The best match of every lexeme whose match type survives `scope`, in first-seen order.
    pub fn kept(&self, scope: Scope) -> (r: Vec<Candidate>)
        requires
            self.wf(),
        ensures
            forall|i: int, j: int| 0 <= i < j < r@.len() ==> (#[trigger] r@[i]).lexeme_id != (#[trigger] r@[j]).lexeme_id,
            forall|i: int|
                0 <= i < r@.len() ==> self.best().contains_key((#[trigger] r@[i]).lexeme_id) && self.best()[r@[i].lexeme_id]
                    == (r@[i].match_type, r@[i].weight) && scope.spec_keeps(r@[i].match_type.name()),
            forall|id: i64|
                #[trigger] self.best().contains_key(id) && scope.spec_keeps(self.best()[id].0.name())
                    ==> exists|i: int| 0 <= i < r@.len() && r@[i].lexeme_id == id,
    {
        let mut r: Vec<Candidate> = Vec::new();
        let ghost mut src: Seq<int> = Seq::empty();
        for i in 0..self.items.len()
            invariant
                self.wf(),
                r@.len() == src.len(),
                forall|a: int| 0 <= a < src.len() ==> 0 <= #[trigger] src[a] < i && r@[a] == self.items@[src[a]],
                forall|a: int, b: int| 0 <= a < b < src.len() ==> #[trigger] src[a] < #[trigger] src[b],
                forall|a: int| 0 <= a < r@.len() ==> scope.spec_keeps((#[trigger] r@[a]).match_type.name()),
                forall|j: int|
                    0 <= j < i && scope.spec_keeps((#[trigger] self.items@[j]).match_type.name()) ==> exists|a: int|
                        0 <= a < src.len() && src[a] == j,
        {
            let c = self.items[i];
            if scope.keeps(c.match_type.as_str()) {
                let ghost s0 = src;
                r.push(c);
                proof {
                    src = src.push(i as int);
                    assert forall|j: int| 0 <= j < i + 1 && scope.spec_keeps((#[trigger] self.items@[j]).match_type.name()) implies exists|a: int|
                        0 <= a < src.len() && src[a] == j by {
                        if j < i {
                            let a = choose|a: int| 0 <= a < s0.len() && s0[a] == j;
                            assert(src[a] == j);
                        } else {
                            assert(src[s0.len() as int] == j);
                        }
                    }
                }
            }
        }
        proof {
            assert forall|a: int, b: int| 0 <= a < b < r@.len() implies (#[trigger] r@[a]).lexeme_id != (#[trigger] r@[b]).lexeme_id by {
                assert(src[a] < src[b]);
            }
            assert forall|a: int| 0 <= a < r@.len() implies self.best().contains_key((#[trigger] r@[a]).lexeme_id) && self.best()[r@[a].lexeme_id]
                == (r@[a].match_type, r@[a].weight) && scope.spec_keeps(r@[a].match_type.name()) by {
                assert(r@[a] == self.items@[src[a]]);
            }
            assert forall|id: i64| #[trigger] self.best().contains_key(id) && scope.spec_keeps(self.best()[id].0.name())
                implies exists|i: int| 0 <= i < r@.len() && r@[i].lexeme_id == id by {
                let j = choose|j: int| 0 <= j < self.items@.len() && self.items@[j].lexeme_id == id;
                assert(self.best()[self.items@[j].lexeme_id] == (self.items@[j].match_type, self.items@[j].weight));
                assert(scope.spec_keeps(self.items@[j].match_type.name()));
                let a = choose|a: int| 0 <= a < src.len() && src[a] == j;
                assert(r@[a].lexeme_id == id);
            }
        }
        r
    }
}

/// Each lexeme keeps its best match: it is recorded exactly when some match names it, its weight
/// is the largest any of its matches had, and its match type is that of the first match reaching
/// that weight.
pub proof fn law_best_match_wins(bumps: Seq<Candidate>, id: i64)
    ensures
        best_of(bumps).contains_key(id) <==> exists|k: int| 0 <= k < bumps.len() && bumps[k].lexeme_id == id,
        best_of(bumps).contains_key(id) ==> {
            &&& forall|k: int|
                0 <= k < bumps.len() && bumps[k].lexeme_id == id ==> bumps[k].weight <= best_of(bumps)[id].1
            &&& exists|k: int|
                0 <= k < bumps.len() && bumps[k].lexeme_id == id && (bumps[k].match_type, bumps[k].weight)
                    == best_of(bumps)[id] && forall|j: int|
                    0 <= j < k && bumps[j].lexeme_id == id ==> bumps[j].weight < bumps[k].weight
        },
    decreases bumps.len(),
{
    if bumps.len() > 0 {
        let pre = bumps.drop_last();
        law_best_match_wins(pre, id);
        let c = bumps.last();
        let n = bumps.len() - 1;
        assert forall|k: int| 0 <= k < n implies bumps[k] == pre[k] by {}
        if c.lexeme_id == id {
            if !best_of(pre).contains_key(id) || c.weight > best_of(pre)[id].1 {
                // the new match is the best, and the first at its weight
                assert(bumps[n] == c);
                assert forall|j: int| 0 <= j < n && bumps[j].lexeme_id == id implies bumps[j].weight < bumps[n].weight by {
                    assert(pre[j].lexeme_id == id);
                }
            } else {
                let k = choose|k: int|
                    0 <= k < pre.len() && pre[k].lexeme_id == id && (pre[k].match_type, pre[k].weight)
                        == best_of(pre)[id] && forall|j: int|
                        0 <= j < k && pre[j].lexeme_id == id ==> pre[j].weight < pre[k].weight;
                assert(bumps[k] == pre[k]);
                assert forall|j: int| 0 <= j < k && bumps[j].lexeme_id == id implies bumps[j].weight < bumps[k].weight by {
                    assert(bumps[j] == pre[j]);
                }
                assert forall|k2: int| 0 <= k2 < bumps.len() && bumps[k2].lexeme_id == id implies bumps[k2].weight <= best_of(bumps)[id].1 by {
                    if k2 < n {
                        assert(bumps[k2] == pre[k2]);
                    }
                }
            }
        } else {
            if best_of(pre).contains_key(id) {
                let k = choose|k: int|
                    0 <= k < pre.len() && pre[k].lexeme_id == id && (pre[k].match_type, pre[k].weight)
                        == best_of(pre)[id] && forall|j: int|
                        0 <= j < k && pre[j].lexeme_id == id ==> pre[j].weight < pre[k].weight;
                assert(bumps[k] == pre[k]);
                assert forall|j: int| 0 <= j < k && bumps[j].lexeme_id == id implies bumps[j].weight < bumps[k].weight by {
                    assert(bumps[j] == pre[j]);
                }
                assert forall|k2: int| 0 <= k2 < bumps.len() && bumps[k2].lexeme_id == id implies bumps[k2].weight <= best_of(bumps)[id].1 by {
                    assert(bumps[k2] == pre[k2]);
                }
            }
            if exists|k: int| 0 <= k < bumps.len() && bumps[k].lexeme_id == id {
                let k = choose|k: int| 0 <= k < bumps.len() && bumps[k].lexeme_id == id;
                assert(pre[k].lexeme_id == id);
            }
        }
        if exists|k: int| 0 <= k < pre.len() && pre[k].lexeme_id == id {
            let k = choose|k: int| 0 <= k < pre.len() && pre[k].lexeme_id == id;
            assert(bumps[k].lexeme_id == id);
        }
    }
}


// ---------------------------------------------------------------------------------------------
// Variety reflow of English results
// ---------------------------------------------------------------------------------------------
/// The variety of the `k`-th result of `out`.
pub open spec fn vof(vars: Seq<Seq<char>>, out: Seq<usize>, k: int) -> Seq<char> {
    vars[out[k] as int]
}

/// How many results in a row, ending just before position `k`, share the variety of result
/// `k - 1` (0 at the start).
pub open spec fn streak(vars: Seq<Seq<char>>, out: Seq<usize>, k: int) -> nat
    decreases k,
{
    if k <= 0 {
        0
    } else if k >= 2 && vof(vars, out, k - 2) == vof(vars, out, k - 1) {
        streak(vars, out, k - 1) + 1
    } else {
        1
    }
}

/// Every result from position `k` on, and every result still to place, has the variety of
/// result `k - 1`.
pub open spec fn all_same_from(vars: Seq<Seq<char>>, out: Seq<usize>, rest: Seq<usize>, k: int) -> bool {
    &&& forall|j: int| k <= j < out.len() ==> #[trigger] vof(vars, out, j) == vof(vars, out, k - 1)
    &&& forall|i: int| 0 <= i < rest.len() ==> vars[#[trigger] rest[i] as int] == vof(vars, out, k - 1)
}

/// Position `k` took the best remaining result: at the start, while the run is under the cap, or
/// when only results of the run's variety remain.
pub open spec fn takes_best(vars: Seq<Seq<char>>, out: Seq<usize>, rest: Seq<usize>, cap: nat, k: int) -> bool {
    k == 0 || streak(vars, out, k) < cap || all_same_from(vars, out, rest, k)
}

/// What position `k` of the reflow holds (given the results still to place, `rest`): the best
/// (lowest-index) remaining result, or, once the run of one variety reached the cap and another
/// variety remains, the best remaining result of another variety.
pub open spec fn placed(vars: Seq<Seq<char>>, out: Seq<usize>, rest: Seq<usize>, cap: nat, k: int) -> bool {
    if takes_best(vars, out, rest, cap, k) {
        &&& forall|j: int| k < j < out.len() ==> out[k] < #[trigger] out[j]
        &&& forall|i: int| 0 <= i < rest.len() ==> out[k] < #[trigger] rest[i]
    } else {
        &&& vof(vars, out, k) != vof(vars, out, k - 1)
        &&& forall|j: int|
            k < j < out.len() && #[trigger] vof(vars, out, j) != vof(vars, out, k - 1) ==> out[k] < out[j]
        &&& forall|i: int|
            0 <= i < rest.len() && vars[#[trigger] rest[i] as int] != vof(vars, out, k - 1) ==> out[k] < rest[i]
    }
}

/// `out` is the reflow of results `0..n` (in score order) with varieties `vars`: an arrangement
/// of all of them in which every position holds what the reflow rule places there.
pub open spec fn reflowed(vars: Seq<Seq<char>>, out: Seq<usize>, cap: nat) -> bool {
    &&& out.len() == vars.len()
    &&& forall|k: int| 0 <= k < out.len() ==> #[trigger] out[k] < vars.len()
    &&& forall|a: int, b: int| 0 <= a < b < out.len() ==> #[trigger] out[a] != #[trigger] out[b]
    &&& forall|k: int| 0 <= k < out.len() ==> #[trigger] placed(vars, out, Seq::empty(), cap, k)
}

proof fn lemma_streak_prefix(vars: Seq<Seq<char>>, out: Seq<usize>, x: usize, k: int)
    requires
        0 <= k <= out.len(),
    ensures
        streak(vars, out.push(x), k) == streak(vars, out, k),
    decreases k,
{
    if k > 0 {
        lemma_streak_prefix(vars, out, x, k - 1);
        assert(out.push(x)[k - 1] == out[k - 1]);
        if k >= 2 {
            assert(out.push(x)[k - 2] == out[k - 2]);
        }
    }
}

proof fn lemma_streak_bound(vars: Seq<Seq<char>>, out: Seq<usize>, k: int)
    requires
        0 <= k,
    ensures
        streak(vars, out, k) <= k,
    decreases k,
{
    if k > 0 {
        lemma_streak_bound(vars, out, k - 1);
    }
}

/// Reorder English results (indices `0..n` in score order, with their varieties) so that no more
/// than `cap` consecutive results share a variety while another variety remains: once a variety's
/// run reaches the cap, the best result of a different variety is pulled forward. Within each
/// variety the score order is kept.
pub fn cap_consecutive_variety(varieties: &Vec<String>, cap: usize) -> (order: Vec<usize>)
    ensures
        reflowed(varieties@.map_values(|v: String| v@), order@, cap as nat),
{
    let ghost vars = varieties@.map_values(|v: String| v@);
    let n = varieties.len();
    let mut rest: Vec<usize> = Vec::new();
    for i in 0..n
        invariant
            rest@.len() == i,
            forall|k: int| 0 <= k < i ==> rest@[k] == k,
    {
        rest.push(i);
    }
    let mut out: Vec<usize> = Vec::new();
    let mut run: usize = 0;
    while rest.len() > 0
        invariant
            vars == varieties@.map_values(|v: String| v@),
            n == vars.len(),
            out@.len() + rest@.len() == n,
            forall|a: int, b: int| 0 <= a < b < rest@.len() ==> rest@[a] < rest@[b],
            forall|i: int| 0 <= i < rest@.len() ==> #[trigger] rest@[i] < n,
            forall|k: int| 0 <= k < out@.len() ==> #[trigger] out@[k] < n,
            forall|a: int, b: int| 0 <= a < b < out@.len() ==> #[trigger] out@[a] != #[trigger] out@[b],
            forall|k: int, i: int| 0 <= k < out@.len() && 0 <= i < rest@.len() ==> #[trigger] out@[k] != #[trigger] rest@[i],
            run == streak(vars, out@, out@.len() as int),
            forall|k: int| 0 <= k < out@.len() ==> #[trigger] placed(vars, out@, rest@, cap as nat, k),
        decreases rest@.len(),
    {
        let k = out.len();
        let mut idx: usize = 0;
        let ghost mut found = false;
        if k > 0 && run >= cap {
            let last = out[k - 1];
            let mut p: usize = 0;
            while p < rest.len() && crate::script::str_eq(varieties[rest[p]].as_str(), varieties[last].as_str())
                invariant
                    vars == varieties@.map_values(|v: String| v@),
                    n == vars.len(),
                    p <= rest@.len(),
                    last < n,
                    forall|i: int| 0 <= i < rest@.len() ==> #[trigger] rest@[i] < n,
                    forall|q: int| 0 <= q < p ==> vars[#[trigger] rest@[q] as int] == vars[last as int],
                decreases rest@.len() - p,
            {
                p += 1;
            }
            if p < rest.len() {
                idx = p;
                proof {
                    found = true;
                }
            }
            proof {
                assert(!found ==> forall|q: int| 0 <= q < rest@.len() ==> vars[#[trigger] rest@[q] as int] == vars[out@[k - 1] as int]);
                assert(found ==> idx < rest@.len() && vars[rest@[idx as int] as int] != vars[out@[k - 1] as int]
                    && forall|q: int| 0 <= q < idx ==> vars[#[trigger] rest@[q] as int] == vars[out@[k - 1] as int]);
            }
        }
        let ghost capped = k > 0 && run >= cap;
        let ghost o0 = out@;
        let ghost r0 = rest@;
        let h = rest.remove(idx);
        let same = k > 0 && crate::script::str_eq(varieties[h].as_str(), varieties[out[k - 1]].as_str());
        out.push(h);
        proof {
            lemma_streak_prefix(vars, o0, h, k as int);
            if k >= 1 {
                lemma_streak_prefix(vars, o0, h, k - 1);
            }
            lemma_streak_bound(vars, o0, k as int);
        }
        if same {
            run = run + 1;
        } else {
            run = 1;
        }
        proof {
            let o1 = out@;
            let r1 = rest@;
            assert(o1 == o0.push(h));
            assert(r1 == r0.remove(idx as int));
            assert(h == r0[idx as int]);
            assert forall|i: int| 0 <= i < r1.len() implies #[trigger] r1[i] == r0[if i < idx { i } else { i + 1 }] by {}
            // the new result's placement
            assert(placed(vars, o1, r1, cap as nat, k as int)) by {
                assert(streak(vars, o1, k as int) == streak(vars, o0, k as int));
                assert(o1[k as int] == h);
                if k > 0 {
                    assert(vof(vars, o1, k - 1) == vof(vars, o0, k - 1));
                }
                if capped && found {
                    assert(vof(vars, o1, k as int) != vof(vars, o1, k - 1));
                    assert(!takes_best(vars, o1, r1, cap as nat, k as int));
                    assert forall|i: int| 0 <= i < r1.len() && vars[#[trigger] r1[i] as int] != vof(vars, o1, k - 1)
                        implies o1[k as int] < r1[i] by {
                        if i < idx {
                            assert(r1[i] == r0[i]);
                            assert(vars[r0[i] as int] == vars[o0[k - 1] as int]);
                        } else {
                            assert(r1[i] == r0[i + 1]);
                        }
                    }
                } else {
                    assert(idx == 0);
                    if capped {
                        assert forall|i: int| 0 <= i < r1.len() implies vars[#[trigger] r1[i] as int] == vof(vars, o1, k - 1) by {
                            assert(r1[i] == r0[i + 1]);
                            assert(vars[r0[i + 1] as int] == vars[o0[k - 1] as int]);
                        }
                        assert(vars[r0[0] as int] == vars[o0[k - 1] as int]);
                        assert(all_same_from(vars, o1, r1, k as int));
                    }
                    assert(takes_best(vars, o1, r1, cap as nat, k as int));
                    assert forall|i: int| 0 <= i < r1.len() implies o1[k as int] < #[trigger] r1[i] by {
                        assert(r1[i] == r0[i + 1]);
                    }
                }
            }
            // earlier placements still hold
            assert forall|j: int| 0 <= j < o1.len() implies #[trigger] placed(vars, o1, r1, cap as nat, j) by {
                if j < k {
                    assert(placed(vars, o0, r0, cap as nat, j));
                    lemma_streak_prefix(vars, o0, h, j);
                    assert(vof(vars, o1, j) == vof(vars, o0, j));
                    if j > 0 {
                        assert(vof(vars, o1, j - 1) == vof(vars, o0, j - 1));
                    }
                    assert(j > 0 ==> all_same_from(vars, o1, r1, j) == all_same_from(vars, o0, r0, j)) by {
                        if j > 0 && all_same_from(vars, o0, r0, j) {
                            assert forall|i: int| 0 <= i < r1.len() implies vars[#[trigger] r1[i] as int] == vof(vars, o1, j - 1) by {
                                if i < idx {
                                    assert(r1[i] == r0[i]);
                                    assert(vars[r0[i] as int] == vof(vars, o0, j - 1));
                                } else {
                                    assert(r1[i] == r0[i + 1]);
                                    assert(vars[r0[i + 1] as int] == vof(vars, o0, j - 1));
                                }
                            }
                            assert forall|m: int| j <= m < o1.len() implies #[trigger] vof(vars, o1, m) == vof(vars, o1, j - 1) by {
                                if m < k {
                                    assert(o1[m] == o0[m]);
                                    assert(vof(vars, o0, m) == vof(vars, o0, j - 1));
                                } else {
                                    assert(vars[r0[idx as int] as int] == vof(vars, o0, j - 1));
                                }
                            }
                        }
                        if j > 0 && all_same_from(vars, o1, r1, j) {
                            assert forall|i: int| 0 <= i < r0.len() implies vars[#[trigger] r0[i] as int] == vof(vars, o0, j - 1) by {
                                if i < idx {
                                    assert(r1[i] == r0[i]);
                                } else if i > idx {
                                    assert(r1[i - 1] == r0[i]);
                                } else {
                                    assert(vof(vars, o1, k as int) == vof(vars, o1, j - 1));
                                }
                            }
                            assert forall|m: int| j <= m < o0.len() implies #[trigger] vof(vars, o0, m) == vof(vars, o0, j - 1) by {
                                assert(o1[m] == o0[m]);
                                assert(vof(vars, o1, m) == vof(vars, o1, j - 1));
                            }
                        }
                    }
                    if takes_best(vars, o0, r0, cap as nat, j) {
                        assert forall|m: int| j < m < o1.len() implies o1[j] < #[trigger] o1[m] by {
                            if m < k {
                                assert(o1[m] == o0[m]);
                            } else {
                                assert(o0[j] < r0[idx as int]);
                            }
                        }
                        assert forall|i: int| 0 <= i < r1.len() implies o1[j] < #[trigger] r1[i] by {
                            if i < idx {
                                assert(r1[i] == r0[i]);
                            } else {
                                assert(r1[i] == r0[i + 1]);
                            }
                        }
                    } else {
                        assert forall|m: int| j < m < o1.len() && #[trigger] vof(vars, o1, m) != vof(vars, o1, j - 1) implies o1[j] < o1[m] by {
                            assert(j > 0);
                            assert(vof(vars, o1, j - 1) == vof(vars, o0, j - 1));
                            if m < k {
                                assert(o1[m] == o0[m]);
                                assert(vof(vars, o1, m) == vof(vars, o0, m));
                            } else {
                                assert(vars[r0[idx as int] as int] != vof(vars, o0, j - 1));
                            }
                        }
                        assert forall|i: int| 0 <= i < r1.len() && vars[#[trigger] r1[i] as int] != vof(vars, o1, j - 1) implies o1[j] < r1[i] by {
                            if i < idx {
                                assert(r1[i] == r0[i]);
                            } else {
                                assert(r1[i] == r0[i + 1]);
                            }
                        }
                    }
                }
            }
            assert forall|a: int, b: int| 0 <= a < b < o1.len() implies #[trigger] o1[a] != #[trigger] o1[b] by {
                if b == k {
                    assert(o0[a] != r0[idx as int]);
                }
            }
            assert forall|kk: int, i: int| 0 <= kk < o1.len() && 0 <= i < r1.len() implies #[trigger] o1[kk] != #[trigger] r1[i] by {
                let ii = if i < idx { i } else { i + 1 };
                if kk < k {
                    assert(o0[kk] != r0[ii]);
                } else {
                    assert(r0[idx as int] != r0[ii]);
                }
            }
            assert forall|a: int, b: int| 0 <= a < b < r1.len() implies r1[a] < r1[b] by {
                let aa = if a < idx { a } else { a + 1 };
                let bb = if b < idx { b } else { b + 1 };
                assert(r0[aa] < r0[bb]);
            }
            // the run
            if k >= 1 {
                assert(vof(vars, o1, k - 1) == vars[o0[k - 1] as int]);
            }
        }
    }
    proof {
        assert(rest@ =~= Seq::<usize>::empty());
    }
    out
}


/// Within each variety the reflow keeps the score order.
pub proof fn law_reflow_keeps_variety_order(vars: Seq<Seq<char>>, out: Seq<usize>, cap: nat, a: int, b: int)
    requires
        reflowed(vars, out, cap),
        0 <= a < b < out.len(),
        vof(vars, out, a) == vof(vars, out, b),
    ensures
        out[a] < out[b],
{
    assert(placed(vars, out, Seq::empty(), cap, a));
}

proof fn lemma_streak_at_least(vars: Seq<Seq<char>>, out: Seq<usize>, k: int, m: int)
    requires
        1 <= m <= k <= out.len(),
        forall|t: int| k - m <= t < k ==> #[trigger] vof(vars, out, t) == vof(vars, out, k - 1),
    ensures
        streak(vars, out, k) >= m,
    decreases m,
{
    if m > 1 {
        assert(vof(vars, out, k - 2) == vof(vars, out, k - 1));
        assert forall|t: int| (k - 1) - (m - 1) <= t < k - 1 implies #[trigger] vof(vars, out, t) == vof(vars, out, k - 2) by {
            assert(vof(vars, out, t) == vof(vars, out, k - 1));
        }
        lemma_streak_at_least(vars, out, k - 1, m - 1);
    }
}

/// Once `cap + 1` results in a row share a variety, no result of another variety comes after
/// them: a run only outgrows the cap when nothing else is left.
pub proof fn law_reflow_caps_runs(vars: Seq<Seq<char>>, out: Seq<usize>, cap: nat, i: int)
    requires
        reflowed(vars, out, cap),
        cap >= 1,
        0 <= i,
        i + cap < out.len(),
        forall|t: int| i <= t <= i + cap ==> #[trigger] vof(vars, out, t) == vof(vars, out, i),
    ensures
        forall|j: int| i <= j < out.len() ==> #[trigger] vof(vars, out, j) == vof(vars, out, i),
{
    let k = i + cap;
    assert forall|t: int| k - cap <= t < k implies #[trigger] vof(vars, out, t) == vof(vars, out, k - 1) by {
        assert(vof(vars, out, t) == vof(vars, out, i));
        assert(vof(vars, out, k - 1) == vof(vars, out, i));
    }
    lemma_streak_at_least(vars, out, k, cap as int);
    assert(placed(vars, out, Seq::empty(), cap, k));
    assert(vof(vars, out, k) == vof(vars, out, k - 1));
    assert(all_same_from(vars, out, Seq::empty(), k));
    assert forall|j: int| i <= j < out.len() implies #[trigger] vof(vars, out, j) == vof(vars, out, i) by {
        if j >= k {
            assert(vof(vars, out, j) == vof(vars, out, k - 1));
        }
    }
}

} // verus!

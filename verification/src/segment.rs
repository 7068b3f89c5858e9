//! Greedy longest-match segmentation of a Han string into known sub-words (紅出口 → 紅 · 出口).
//! Each maximal run of Han characters is split left to right, always taking the longest substring
//! (at most 6 characters, at least 2) that is a known word, else a single character. The
//! dictionary lookups are the caller's: the segmenter says what to look up next and takes the
//! answer back.
use vstd::prelude::*;
use crate::chars::{chars_of, string_of};
use crate::model::SegmentPart;
use crate::script::{is_han, spec_is_han};

verus! {

/// Longest sub-word probed at a position.
pub const SEG_MAXLEN: usize = 6;

/// What the segmenter needs looked up next.
pub enum SegAsk {
    /// the best word whose surface form is exactly this sub-word (id and short gloss)
    Word(String),
    /// the short character-table gloss of this single character
    CharGloss(char),
    /// the best word whose surface form is this single character
    CharWord(String),
    /// segmentation is complete
    Done,
}

#[derive(Clone, Copy, PartialEq, Eq, Debug, Structural)]
pub enum SegPhase {
    Words,
    CharGloss,
    CharWord,
    Finished,
}

/// The Han characters of a text, in order.
pub open spec fn han_only(s: Seq<char>) -> Seq<char> {
    s.filter(|c: char| spec_is_han(c))
}

/// The concatenated forms of the parts.
pub open spec fn spelled(parts: Seq<SegmentPart>) -> Seq<char>
    decreases parts.len(),
{
    if parts.len() == 0 {
        Seq::empty()
    } else {
        spelled(parts.drop_last()) + parts.last().form@
    }
}

pub open spec fn min_nat(a: int, b: int) -> int {
    if a <= b {
        a
    } else {
        b
    }
}

pub struct Segmenter {
    chars: Vec<char>,
    pos: usize,
    end: usize,
    len: usize,
    phase: SegPhase,
    parts: Vec<SegmentPart>,
}

impl Segmenter {
    pub closed spec fn text(&self) -> Seq<char> {
        self.chars@
    }

    /// The current position in the text.
    pub closed spec fn at(&self) -> int {
        self.pos as int
    }

    /// The end of the Han run being segmented.
    pub closed spec fn run_end(&self) -> int {
        self.end as int
    }

    /// The length of the sub-word being probed.
    pub closed spec fn probe_len(&self) -> int {
        self.len as int
    }

    pub closed spec fn state(&self) -> SegPhase {
        self.phase
    }

    pub closed spec fn done_parts(&self) -> Seq<SegmentPart> {
        self.parts@
    }

    /// The parts so far spell the Han characters before the current position; the position
    /// is inside a maximal Han run (or at the end when finished), and the probe fits the run.
    pub closed spec fn wf(&self) -> bool {
        let t = self.chars@;
        &&& self.pos <= self.end <= t.len()
        &&& spelled(self.parts@) == han_only(t.take(self.pos as int))
        &&& forall|k: int| self.pos <= k < self.end ==> spec_is_han(#[trigger] t[k])
        &&& (self.end < t.len() ==> !spec_is_han(t[self.end as int]))
        &&& (self.phase == SegPhase::Finished <==> self.pos == t.len())
        &&& (self.phase == SegPhase::Finished ==> self.end == t.len())
        &&& (self.phase != SegPhase::Finished ==> self.pos < self.end)
        &&& (self.phase == SegPhase::Words ==> 2 <= self.len <= SEG_MAXLEN && self.pos + self.len <= self.end)
        &&& t.len() < usize::MAX
    }

    /// The lookup the current state asks for.
    pub open spec fn asks(&self, a: SegAsk) -> bool {
        match self.state() {
            SegPhase::Words => a matches SegAsk::Word(w) && w@ == self.text().subrange(self.at(), self.at() + self.probe_len()),
            SegPhase::CharGloss => a == SegAsk::CharGloss(self.text()[self.at()]),
            SegPhase::CharWord => a matches SegAsk::CharWord(w) && w@ == seq![self.text()[self.at()]],
            SegPhase::Finished => a is Done,
        }
    }

    /// From position `p` inside a Han run ending at `e`: probe the longest sub-word (up to 6),
    /// or go straight to the single character when fewer than 2 characters remain.
    pub open spec fn starts_at(&self, p: int) -> bool {
        &&& self.at() == p
        &&& if min_nat(self.run_end() - p, SEG_MAXLEN as int) >= 2 {
            self.state() == SegPhase::Words && self.probe_len() == min_nat(self.run_end() - p, SEG_MAXLEN as int)
        } else {
            self.state() == SegPhase::CharGloss
        }
    }

    /// After finishing a part that ended at `p`: continue the run, or move to the next Han run,
    /// or finish.
    pub open spec fn moved_to(&self, old_end: int, p: int) -> bool {
        if p < old_end {
            self.run_end() == old_end && self.starts_at(p)
        } else {
            let t = self.text();
            // skip to the next Han character, if any
            &&& forall|k: int| p <= k < self.at() ==> !spec_is_han(#[trigger] t[k])
            &&& (self.state() == SegPhase::Finished || (spec_is_han(t[self.at()]) && self.starts_at(self.at())))
        }
    }

    fn enter(&mut self)
        requires
            old(self).pos <= old(self).chars@.len(),
            old(self).chars@.len() < usize::MAX,
            old(self).pos < old(self).end ==> old(self).end <= old(self).chars@.len() && (forall|k: int|
                old(self).pos <= k < old(self).end ==> spec_is_han(#[trigger] old(self).chars@[k])) && (
            old(self).end < old(self).chars@.len() ==> !spec_is_han(old(self).chars@[old(self).end as int])),
            spelled(old(self).parts@) == han_only(old(self).chars@.take(old(self).pos as int)),
        ensures
            final(self).wf(),
            final(self).chars@ == old(self).chars@,
            final(self).parts@ == old(self).parts@,
            final(self).moved_to(old(self).end as int, old(self).pos as int),
    {
        let t = &self.chars;
        if self.pos >= self.end {
            // find the next Han character
            let ghost p0 = self.pos as int;
            let mut p = self.pos;
            while p < self.chars.len() && !is_han(self.chars[p])
                invariant
                    p0 <= p <= self.chars@.len(),
                    forall|k: int| p0 <= k < p ==> !spec_is_han(#[trigger] self.chars@[k]),
                decreases self.chars@.len() - p,
            {
                p += 1;
            }
            proof {
                lemma_han_only_skip(self.chars@, p0, p as int);
            }
            self.pos = p;
            if p == self.chars.len() {
                self.end = p;
                self.phase = SegPhase::Finished;
                return;
            }
            let mut e = p;
            while e < self.chars.len() && is_han(self.chars[e])
                invariant
                    p <= e <= self.chars@.len(),
                    forall|k: int| p <= k < e ==> spec_is_han(#[trigger] self.chars@[k]),
                decreases self.chars@.len() - e,
            {
                e += 1;
            }
            self.end = e;
        }
        let rem = self.end - self.pos;
        let maxl = if rem < SEG_MAXLEN {
            rem
        } else {
            SEG_MAXLEN
        };
        if maxl >= 2 {
            self.len = maxl;
            self.phase = SegPhase::Words;
        } else {
            self.phase = SegPhase::CharGloss;
        }
    }

    /// Start segmenting `q`.
    pub fn new(q: &str) -> (s: Self)
        requires
            q@.len() < usize::MAX,
        ensures
            s.wf(),
            s.text() == q@,
            s.done_parts() == Seq::<SegmentPart>::empty(),
            s.moved_to(0, 0),
    {
        let chars = chars_of(q);
        let mut s = Segmenter { chars, pos: 0, end: 0, len: 0, phase: SegPhase::Finished, parts: Vec::new() };
        proof {
            assert(s.chars@.take(0) =~= Seq::<char>::empty());
            assert(han_only(Seq::<char>::empty()) =~= Seq::<char>::empty());
        }
        s.enter();
        s
    }

    /// What to look up next.
    pub fn next(&self) -> (a: SegAsk)
        requires
            self.wf(),
        ensures
            self.asks(a),
    {
        match self.phase {
            SegPhase::Words => {
                let mut w: Vec<char> = Vec::new();
                let mut k = self.pos;
                while k < self.pos + self.len
                    invariant
                        self.wf(),
                        self.phase == SegPhase::Words,
                        self.pos <= k <= self.pos + self.len,
                        w@ == self.chars@.subrange(self.pos as int, k as int),
                    decreases self.pos + self.len - k,
                {
                    w.push(self.chars[k]);
                    proof {
                        assert(w@ =~= self.chars@.subrange(self.pos as int, k + 1));
                    }
                    k += 1;
                }
                SegAsk::Word(string_of(&w))
            },
            SegPhase::CharGloss => SegAsk::CharGloss(self.chars[self.pos]),
            SegPhase::CharWord => {
                let mut w: Vec<char> = Vec::new();
                w.push(self.chars[self.pos]);
                SegAsk::CharWord(string_of(&w))
            },
            SegPhase::Finished => SegAsk::Done,
        }
    }

    fn push_part(&mut self, n: usize, gloss: String, id: Option<i64>)
        requires
            old(self).wf(),
            old(self).phase != SegPhase::Finished,
            1 <= n,
            old(self).pos + n <= old(self).end,
        ensures
            final(self).wf(),
            final(self).chars@ == old(self).chars@,
            final(self).parts@ == old(self).parts@.push(
                SegmentPart { form: final(self).parts@.last().form, gloss, lexeme_id: id },
            ),
            final(self).parts@.last().form@ == old(self).chars@.subrange(
                old(self).pos as int,
                old(self).pos + n,
            ),
            final(self).moved_to(old(self).end as int, old(self).pos + n),
    {
        let mut w: Vec<char> = Vec::new();
        let mut k = self.pos;
        while k < self.pos + n
            invariant
                self.wf(),
                self.pos + n <= self.end,
                self.pos <= k <= self.pos + n,
                w@ == self.chars@.subrange(self.pos as int, k as int),
            decreases self.pos + n - k,
        {
            w.push(self.chars[k]);
            proof {
                assert(w@ =~= self.chars@.subrange(self.pos as int, k + 1));
            }
            k += 1;
        }
        let ghost p0 = self.pos as int;
        let ghost t = self.chars@;
        let ghost sp0 = self.parts@;
        self.parts.push(SegmentPart { form: string_of(&w), gloss, lexeme_id: id });
        proof {
            assert(self.parts@.drop_last() =~= sp0);
            assert(spelled(self.parts@) == han_only(t.take(p0)) + t.subrange(p0, p0 + n));
            lemma_han_only_run(t, p0, p0 + n);
        }
        self.pos = self.pos + n;
        self.enter();
    }

    /// Take the answer to a `Word` or `CharWord` question: the best word with that form (its id
    /// and short gloss), or `None`. A found sub-word becomes a part; otherwise the next shorter
    /// sub-word is probed, then the character's own gloss. A single character with no word
    /// becomes a part with an empty gloss.
    pub fn feed_word(&mut self, hit: Option<(i64, String)>)
        requires
            old(self).wf(),
            old(self).state() == SegPhase::Words || old(self).state() == SegPhase::CharWord,
        ensures
            final(self).wf(),
            final(self).text() == old(self).text(),
            ({
                let p = old(self).at();
                let n = if old(self).state() == SegPhase::Words { old(self).probe_len() } else { 1 };
                match hit {
                    Some((id, g)) => {
                        &&& final(self).done_parts().len() == old(self).done_parts().len() + 1
                        &&& final(self).done_parts().drop_last() == old(self).done_parts()
                        &&& final(self).done_parts().last().form@ == old(self).text().subrange(p, p + n)
                        &&& final(self).done_parts().last().gloss == g
                        &&& final(self).done_parts().last().lexeme_id == Some(id)
                        &&& final(self).moved_to(old(self).run_end(), p + n)
                    },
                    None => if old(self).state() == SegPhase::CharWord {
                        &&& final(self).done_parts().len() == old(self).done_parts().len() + 1
                        &&& final(self).done_parts().drop_last() == old(self).done_parts()
                        &&& final(self).done_parts().last().form@ == seq![old(self).text()[p]]
                        &&& final(self).done_parts().last().gloss@ == Seq::<char>::empty()
                        &&& final(self).done_parts().last().lexeme_id is None
                        &&& final(self).moved_to(old(self).run_end(), p + 1)
                    } else {
                        &&& final(self).done_parts() == old(self).done_parts()
                        &&& final(self).at() == p
                        &&& final(self).run_end() == old(self).run_end()
                        &&& if old(self).probe_len() > 2 {
                            final(self).state() == SegPhase::Words && final(self).probe_len() == old(self).probe_len() - 1
                        } else {
                            final(self).state() == SegPhase::CharGloss
                        }
                    },
                }
            }),
    {
        let n = if self.phase == SegPhase::Words {
            self.len
        } else {
            1
        };
        match hit {
            Some((id, g)) => {
                self.push_part(n, g, Some(id));
                proof {
                    assert(self.parts@.drop_last() =~= old(self).parts@);
                }
            },
            None => {
                if self.phase == SegPhase::CharWord {
                    let e: Vec<char> = Vec::new();
                    let empty = string_of(&e);
                    self.push_part(1, empty, None);
                    proof {
                        assert(self.parts@.drop_last() =~= old(self).parts@);
                        assert(old(self).chars@.subrange(old(self).pos as int, old(self).pos + 1) =~= seq![old(self).chars@[old(self).pos as int]]);
                    }
                } else if self.len > 2 {
                    self.len = self.len - 1;
                } else {
                    self.phase = SegPhase::CharGloss;
                }
            },
        }
    }

    /// Take the answer to a `CharGloss` question: the character's own short gloss makes a
    /// single-character part; without one, the character is looked up as a word.
    pub fn feed_char_gloss(&mut self, gloss: Option<String>)
        requires
            old(self).wf(),
            old(self).state() == SegPhase::CharGloss,
        ensures
            final(self).wf(),
            final(self).text() == old(self).text(),
            match gloss {
                Some(g) => {
                    &&& final(self).done_parts().len() == old(self).done_parts().len() + 1
                    &&& final(self).done_parts().drop_last() == old(self).done_parts()
                    &&& final(self).done_parts().last().form@ == seq![old(self).text()[old(self).at()]]
                    &&& final(self).done_parts().last().gloss == g
                    &&& final(self).done_parts().last().lexeme_id is None
                    &&& final(self).moved_to(old(self).run_end(), old(self).at() + 1)
                },
                None => {
                    &&& final(self).done_parts() == old(self).done_parts()
                    &&& final(self).at() == old(self).at()
                    &&& final(self).run_end() == old(self).run_end()
                    &&& final(self).state() == SegPhase::CharWord
                },
            },
    {
        match gloss {
            Some(g) => {
                self.push_part(1, g, None);
                proof {
                    assert(self.parts@.drop_last() =~= old(self).parts@);
                    assert(old(self).chars@.subrange(old(self).pos as int, old(self).pos + 1) =~= seq![old(self).chars@[old(self).pos as int]]);
                }
            },
            None => {
                self.phase = SegPhase::CharWord;
            },
        }
    }

    /// The parts found (complete once `next` asks `Done`).
    pub fn parts(&self) -> (r: &Vec<SegmentPart>)
        ensures
            r@ == self.done_parts(),
    {
        &self.parts
    }

    /// The segments spell the Han characters of the text, in order, each exactly once: when
    /// segmentation is done, the parts' forms put together are the text with every non-Han
    /// character dropped.
    pub proof fn law_segments_spell_the_han_text(&self)
        requires
            self.wf(),
            self.state() == SegPhase::Finished,
        ensures
            spelled(self.done_parts()) == han_only(self.text()),
    {
        assert(self.chars@.take(self.chars@.len() as int) =~= self.chars@);
    }
}

proof fn lemma_han_only_skip(t: Seq<char>, a: int, b: int)
    requires
        0 <= a <= b <= t.len(),
        forall|k: int| a <= k < b ==> !spec_is_han(#[trigger] t[k]),
    ensures
        han_only(t.take(b)) == han_only(t.take(a)),
    decreases b - a,
{
    if b > a {
        lemma_han_only_skip(t, a, b - 1);
        assert(t.take(b) =~= t.take(b - 1).push(t[b - 1]));
        t.take(b - 1).lemma_filter_push(t[b - 1], |c: char| spec_is_han(c));
    }
}

proof fn lemma_han_only_run(t: Seq<char>, a: int, b: int)
    requires
        0 <= a <= b <= t.len(),
        forall|k: int| a <= k < b ==> spec_is_han(#[trigger] t[k]),
    ensures
        han_only(t.take(b)) == han_only(t.take(a)) + t.subrange(a, b),
    decreases b - a,
{
    if b > a {
        lemma_han_only_run(t, a, b - 1);
        assert(t.take(b) =~= t.take(b - 1).push(t[b - 1]));
        t.take(b - 1).lemma_filter_push(t[b - 1], |c: char| spec_is_han(c));
        assert(t.subrange(a, b) =~= t.subrange(a, b - 1).push(t[b - 1]));
    } else {
        assert(t.subrange(a, b) =~= Seq::<char>::empty());
    }
}

} // verus!

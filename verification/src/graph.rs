//! The in-memory character/variant graph: identity-class edges (simplification, shinjitai,
//! z-variant) unioned into equivalence classes, and each surface form's backbone key (the
//! sequence of its characters' class ids) indexing the lexemes that share it, so 学校 and 學校
//! meet in one lookup. Semantic-variant edges are never part of the input, so they never merge.
use vstd::prelude::*;
use vstd::hash_map::{HashMapWithView, StringHashMap};
use crate::chars::{chars_of, string_of, append_vec};

verus! {

broadcast use vstd::std_specs::hash::group_hash_axioms, vstd::hash_map::group_hash_map_axioms;

// ---------------------------------------------------------------------------------------------
// Union-find with path halving and union by rank
// ---------------------------------------------------------------------------------------------
/// Every parent is in range and ranks strictly increase from a node to its parent, so following
/// parents always ends at a root.
pub open spec fn ranks_ok(p: Seq<u32>, r: Seq<u32>) -> bool {
    &&& p.len() == r.len()
    &&& forall|j: int| 0 <= j < p.len() ==> (#[trigger] p[j]) < p.len()
    &&& forall|j: int| 0 <= j < p.len() && p[j] != j ==> r[j] < r[p[j] as int]
}

/// The root reached from `i` by following parents.
pub open spec fn root(p: Seq<u32>, r: Seq<u32>, i: int) -> int
    decreases (u32::MAX as int) - r[i],
    when ranks_ok(p, r) && 0 <= i < p.len()
{
    if p[i] == i {
        i
    } else {
        root(p, r, p[i] as int)
    }
}

pub proof fn lemma_root(p: Seq<u32>, r: Seq<u32>, i: int)
    requires
        ranks_ok(p, r),
        0 <= i < p.len(),
    ensures
        0 <= root(p, r, i) < p.len(),
        p[root(p, r, i)] == root(p, r, i),
        r[i] <= r[root(p, r, i)],
        p[i] == i ==> root(p, r, i) == i,
    decreases (u32::MAX as int) - r[i],
{
    if p[i] != i {
        lemma_root(p, r, p[i] as int);
    }
}

/// Pointing a non-root `x` at its grandparent keeps every node's root.
proof fn lemma_halving(p: Seq<u32>, r: Seq<u32>, x: int, j: int)
    requires
        ranks_ok(p, r),
        0 <= x < p.len(),
        p[x] != x,
        0 <= j < p.len(),
    ensures
        ranks_ok(p.update(x, p[p[x] as int]), r),
        root(p.update(x, p[p[x] as int]), r, j) == root(p, r, j),
    decreases (u32::MAX as int) - r[j],
{
    let q = p.update(x, p[p[x] as int]);
    let px = p[x] as int;
    assert(ranks_ok(q, r)) by {
        assert forall|k: int| 0 <= k < q.len() && q[k] != k implies r[k] < r[q[k] as int] by {
            if k == x {
                if p[px] != px {
                    assert(r[px] < r[p[px] as int]);
                }
            }
        }
    }
    lemma_root(p, r, j);
    if p[j] != j {
        if j == x {
            let g = p[px] as int;
            assert(r[x] < r[px]);
            if g != px {
                assert(r[px] < r[g]);
            }
            lemma_halving(p, r, x, g);
            assert(q[x] == g);
            assert(g != x);
            assert(root(q, r, x) == root(q, r, g));
            assert(root(p, r, x) == root(p, r, px));
            if g == px {
                assert(root(p, r, px) == px);
            } else {
                assert(root(p, r, px) == root(p, r, g));
            }
        } else {
            lemma_halving(p, r, x, p[j] as int);
            assert(q[j] == p[j]);
        }
    } else {
        assert(j != x);
        assert(q[j] == j);
    }
}

/// Hanging root `rb` under root `ra` (raising `ra`'s rank when the two were equal) sends every
/// node of `rb`'s class to `ra` and leaves every other node's root alone.
proof fn lemma_link(p: Seq<u32>, r: Seq<u32>, ra: int, rb: int, r2: Seq<u32>, j: int)
    requires
        ranks_ok(p, r),
        0 <= ra < p.len(),
        0 <= rb < p.len(),
        ra != rb,
        p[ra] == ra,
        p[rb] == rb,
        r[rb] <= r[ra],
        r2.len() == r.len(),
        r[rb] < r2[ra],
        r[ra] <= r2[ra],
        forall|k: int| 0 <= k < r.len() && k != ra ==> r2[k] == r[k],
        0 <= j < p.len(),
    ensures
        ranks_ok(p.update(rb, ra as u32), r2),
        root(p.update(rb, ra as u32), r2, j) == if root(p, r, j) == rb {
            ra
        } else {
            root(p, r, j)
        },
    decreases (u32::MAX as int) - r[j],
{
    let q = p.update(rb, ra as u32);
    assert(ranks_ok(q, r2)) by {
        assert forall|k: int| 0 <= k < q.len() && q[k] != k implies r2[k] < r2[q[k] as int] by {
            if k == rb {
            } else {
                assert(p[k] != k);
                assert(r[k] < r[p[k] as int]);
            }
        }
    }
    lemma_root(p, r, j);
    if j == rb {
        assert(root(q, r2, ra) == ra);
    } else if p[j] == j {
    } else {
        lemma_link(p, r, ra, rb, r2, p[j] as int);
        lemma_root(p, r, p[j] as int);
    }
}

pub struct UnionFind {
    parent: Vec<u32>,
    rank: Vec<u32>,
    /// the set of current roots
    roots: Ghost<Set<int>>,
    /// how many successful unions have happened (bounds every rank)
    merges: Ghost<nat>,
}

impl UnionFind {
    pub closed spec fn parents(&self) -> Seq<u32> {
        self.parent@
    }

    pub closed spec fn ranks(&self) -> Seq<u32> {
        self.rank@
    }

    pub closed spec fn size(&self) -> nat {
        self.parent@.len()
    }

    /// The class representative of element `i`.
    pub closed spec fn rep(&self, i: int) -> int {
        root(self.parent@, self.rank@, i)
    }

    /// A representative is itself an element.
    pub proof fn lemma_rep_in_range(&self, i: int)
        requires
            self.wf(),
            0 <= i < self.size(),
        ensures
            0 <= self.rep(i) < self.size(),
    {
        lemma_root(self.parent@, self.rank@, i);
    }

    pub closed spec fn wf(&self) -> bool {
        &&& ranks_ok(self.parent@, self.rank@)
        &&& self.roots@ == Set::new(|i: int| 0 <= i < self.parent@.len() && self.parent@[i] == i)
        &&& self.roots@.finite()
        &&& self.merges@ + self.roots@.len() == self.parent@.len()
        &&& forall|i: int| 0 <= i < self.rank@.len() ==> #[trigger] self.rank@[i] <= self.merges@
        &&& self.parent@.len() < u32::MAX
    }

    pub fn new() -> (uf: Self)
        ensures
            uf.wf(),
            uf.size() == 0,
    {
        let uf = UnionFind {
            parent: Vec::new(),
            rank: Vec::new(),
            roots: Ghost(Set::empty()),
            merges: Ghost(0),
        };
        assert(uf.roots@ =~= Set::new(|i: int| 0 <= i < uf.parent@.len() && uf.parent@[i] == i));
        uf
    }

    /// Add a fresh singleton element and return its index.
    pub fn make(&mut self) -> (id: u32)
        requires
            old(self).wf(),
            old(self).size() + 1 < u32::MAX,
        ensures
            final(self).wf(),
            id == old(self).size(),
            final(self).size() == old(self).size() + 1,
            forall|j: int| 0 <= j < old(self).size() ==> final(self).rep(j) == old(self).rep(j),
            final(self).rep(id as int) == id,
    {
        let ghost p0 = self.parent@;
        let ghost r0 = self.rank@;
        let id = self.parent.len() as u32;
        self.parent.push(id);
        self.rank.push(0);
        let ghost n = id as int;
        proof {
            self.roots@ = self.roots@.insert(n);
            assert(self.roots@ =~= Set::new(|i: int| 0 <= i < self.parent@.len() && self.parent@[i] == i));
            assert(ranks_ok(self.parent@, self.rank@));
            assert forall|j: int| 0 <= j < p0.len() implies self.rep(j) == root(p0, r0, j) by {
                lemma_extend(p0, r0, j);
            }
        }
        id
    }

    /// The representative of `x`'s class, halving the path on the way.
    pub fn find(&mut self, x: u32) -> (r: u32)
        requires
            old(self).wf(),
            x < old(self).size(),
        ensures
            final(self).wf(),
            final(self).size() == old(self).size(),
            r == old(self).rep(x as int),
            r < final(self).size(),
            final(self).parents()[r as int] == r,
            final(self).ranks() == old(self).ranks(),
            forall|j: int| 0 <= j < old(self).size() ==> final(self).rep(j) == old(self).rep(j),
    {
        let ghost p0 = self.parent@;
        let ghost r0 = self.rank@;
        let ghost x0 = x as int;
        let mut x = x;
        proof {
            lemma_root(p0, r0, x as int);
        }
        while self.parent[x as usize] != x
            invariant
                self.wf(),
                self.parent@.len() == p0.len(),
                self.rank@ == r0,
                x < self.parent@.len(),
                ranks_ok(p0, r0),
                forall|j: int| 0 <= j < p0.len() ==> self.rep(j) == root(p0, r0, j),
                x0 < p0.len(),
                self.rep(x as int) == root(p0, r0, x0),
            decreases (u32::MAX as int) - self.rank@[x as int],
        {
            let p = self.parent[x as usize];
            let gp = self.parent[p as usize];
            let ghost before = self.parent@;
            proof {
                assert forall|j: int| 0 <= j < before.len() implies root(before.update(x as int, gp), r0, j) == root(before, r0, j) by {
                    lemma_halving(before, r0, x as int, j);
                }
                lemma_halving(before, r0, x as int, 0);
            }
            self.parent.set(x as usize, gp);
            proof {
                assert(self.parent@ == before.update(x as int, gp));
                assert(self.roots@ =~= Set::new(|i: int| 0 <= i < self.parent@.len() && self.parent@[i] == i));
                if p != gp {
                    assert(r0[p as int] < r0[gp as int]);
                }
            }
            x = gp;
        }
        proof {
            lemma_root(self.parent@, self.rank@, x as int);
        }
        x
    }

    /// Merge the classes of `a` and `b` (union by rank).
    pub fn union(&mut self, a: u32, b: u32)
        requires
            old(self).wf(),
            a < old(self).size(),
            b < old(self).size(),
        ensures
            final(self).wf(),
            final(self).size() == old(self).size(),
            final(self).rep(a as int) == final(self).rep(b as int),
            final(self).rep(a as int) == old(self).rep(a as int) || final(self).rep(a as int)
                == old(self).rep(b as int),
            forall|j: int|
                0 <= j < old(self).size() ==> #[trigger] final(self).rep(j) == if old(self).rep(j)
                    == old(self).rep(a as int) || old(self).rep(j) == old(self).rep(b as int) {
                    final(self).rep(a as int)
                } else {
                    old(self).rep(j)
                },
    {
        let ghost s0 = *self;
        let ra0 = self.find(a);
        let rb0 = self.find(b);
        let ghost s1 = *self;
        proof {
            lemma_root(s0.parent@, s0.rank@, a as int);
            lemma_root(s0.parent@, s0.rank@, b as int);
            lemma_root(s0.parent@, s0.rank@, ra0 as int);
            lemma_root(s0.parent@, s0.rank@, rb0 as int);
            assert(s1.rep(ra0 as int) == s0.rep(ra0 as int));
            assert(s1.rep(rb0 as int) == s0.rep(rb0 as int));
            lemma_root(s1.parent@, s1.rank@, ra0 as int);
            lemma_root(s1.parent@, s1.rank@, rb0 as int);
        }
        if ra0 == rb0 {
            return;
        }
        let (ra, rb) = if self.rank[ra0 as usize] < self.rank[rb0 as usize] {
            (rb0, ra0)
        } else {
            (ra0, rb0)
        };
        let ghost p1 = self.parent@;
        let ghost r1 = self.rank@;
        proof {
            lemma_root(s0.parent@, s0.rank@, a as int);
            lemma_root(s0.parent@, s0.rank@, b as int);
            assert(self.roots@.contains(ra as int));
            assert(self.roots@.contains(rb as int));
            assert(self.roots@.remove(ra as int).contains(rb as int));
            assert(self.roots@.remove(ra as int).len() >= 1);
        }
        self.parent.set(rb as usize, ra);
        if self.rank[ra as usize] == self.rank[rb as usize] {
            let nr = self.rank[ra as usize] + 1;
            self.rank.set(ra as usize, nr);
        }
        proof {
            let r2 = self.rank@;
            self.merges@ = self.merges@ + 1;
            self.roots@ = self.roots@.remove(rb as int);
            assert(self.roots@ =~= Set::new(|i: int| 0 <= i < self.parent@.len() && self.parent@[i] == i));
            assert forall|j: int| 0 <= j < p1.len() implies #[trigger] root(self.parent@, r2, j) == if root(p1, r1, j) == rb {
                ra as int
            } else {
                root(p1, r1, j)
            } by {
                lemma_link(p1, r1, ra as int, rb as int, r2, j);
            }
            lemma_link(p1, r1, ra as int, rb as int, r2, 0);
        }
    }
}

proof fn lemma_extend(p: Seq<u32>, r: Seq<u32>, j: int)
    requires
        ranks_ok(p, r),
        0 <= j < p.len(),
        p.len() < u32::MAX,
    ensures
        ranks_ok(p.push(p.len() as u32), r.push(0)),
        root(p.push(p.len() as u32), r.push(0), j) == root(p, r, j),
    decreases (u32::MAX as int) - r[j],
{
    let q = p.push(p.len() as u32);
    let s = r.push(0);
    assert(ranks_ok(q, s)) by {
        assert forall|k: int| 0 <= k < q.len() implies (#[trigger] q[k]) < q.len() by {
            if k < p.len() {
                assert(p[k] < p.len());
            }
        }
        assert forall|k: int| 0 <= k < q.len() && q[k] != k implies s[k] < s[q[k] as int] by {
            if k < p.len() {
                assert(p[k] < p.len());
            }
        }
    }
    if p[j] != j {
        lemma_extend(p, r, p[j] as int);
    }
}

// ---------------------------------------------------------------------------------------------
// Backbone keys
// ---------------------------------------------------------------------------------------------
pub open spec fn digit_char(d: nat) -> char {
    ((d + 48) as u32) as char
}

/// Decimal digits of `n` (no leading zeros; `0` is "0").
pub open spec fn decimal(n: nat) -> Seq<char>
    decreases n,
{
    if n < 10 {
        seq![digit_char(n)]
    } else {
        decimal(n / 10).push(digit_char(n % 10))
    }
}

pub fn decimal_exec(n: u32) -> (r: Vec<char>)
    ensures
        r@ == decimal(n as nat),
    decreases n,
{
    let d = (n % 10) as u8;
    let c = (d + 48) as char;
    proof {
        assert(c as u32 == d + 48);
        assert(((d + 48) as u32) as char == c);
    }
    if n < 10 {
        let mut v: Vec<char> = Vec::new();
        v.push(c);
        v
    } else {
        let mut v = decimal_exec(n / 10);
        v.push(c);
        v
    }
}

/// A character's token in a backbone key: `c<class>.` when it has identity edges, else
/// `u<codepoint>.`.
pub open spec fn token(classes: Map<u32, u32>, ch: char) -> Seq<char> {
    if classes.contains_key(ch as u32) {
        seq!['c'] + decimal(classes[ch as u32] as nat) + seq!['.']
    } else {
        seq!['u'] + decimal(ch as u32 as nat) + seq!['.']
    }
}

/// The backbone key of a surface string: its characters' tokens, concatenated.
pub open spec fn key_of(classes: Map<u32, u32>, s: Seq<char>) -> Seq<char>
    decreases s.len(),
{
    if s.len() == 0 {
        Seq::empty()
    } else {
        key_of(classes, s.drop_last()) + token(classes, s.last())
    }
}

/// What a character's token records: whether it has a class, and the class id (else the
/// codepoint).
pub open spec fn key_token(classes: Map<u32, u32>, ch: char) -> (bool, u32) {
    if classes.contains_key(ch as u32) {
        (true, classes[ch as u32])
    } else {
        (false, ch as u32)
    }
}

pub open spec fn is_digit_char(c: char) -> bool {
    '0' <= c && c <= '9'
}

proof fn lemma_decimal_digits(n: nat)
    ensures
        decimal(n).len() >= 1,
        forall|i: int| 0 <= i < decimal(n).len() ==> is_digit_char(#[trigger] decimal(n)[i]),
    decreases n,
{
    if n >= 10 {
        lemma_decimal_digits(n / 10);
    }
}

proof fn lemma_decimal_injective(n: nat, m: nat)
    requires
        decimal(n) == decimal(m),
    ensures
        n == m,
    decreases n,
{
    lemma_decimal_digits(n);
    lemma_decimal_digits(m);
    if n >= 10 {
        lemma_decimal_digits(n / 10);
    }
    if m >= 10 {
        lemma_decimal_digits(m / 10);
    }
    if n < 10 && m < 10 {
        assert(decimal(n)[0] == digit_char(n));
        assert(decimal(m)[0] == digit_char(m));
        assert(digit_char(n) as u32 == n + 48);
        assert(digit_char(m) as u32 == m + 48);
    } else if n >= 10 && m >= 10 {
        assert(decimal(n).drop_last() =~= decimal(n / 10));
        assert(decimal(m).drop_last() =~= decimal(m / 10));
        lemma_decimal_injective(n / 10, m / 10);
        assert(decimal(n).last() == digit_char(n % 10));
        assert(decimal(m).last() == digit_char(m % 10));
        assert(digit_char(n % 10) as u32 == n % 10 + 48);
        assert(digit_char(m % 10) as u32 == m % 10 + 48);
    } else {
        assert(decimal(n).len() != decimal(m).len());
    }
}

/// A token is a letter, digits, and a final `.`: the `.` occurs nowhere else in it.
proof fn lemma_token_shape(classes: Map<u32, u32>, ch: char)
    ensures
        token(classes, ch).len() >= 3,
        token(classes, ch).last() == '.',
        forall|k: int| 0 <= k < token(classes, ch).len() - 1 ==> #[trigger] token(classes, ch)[k] != '.',
{
    let t = token(classes, ch);
    let d = if classes.contains_key(ch as u32) { decimal(classes[ch as u32] as nat) } else { decimal(ch as u32 as nat) };
    lemma_decimal_digits(if classes.contains_key(ch as u32) { classes[ch as u32] as nat } else { ch as u32 as nat });
    assert forall|k: int| 0 <= k < t.len() - 1 implies #[trigger] t[k] != '.' by {
        if k > 0 {
            assert(t[k] == d[k - 1]);
            assert(is_digit_char(d[k - 1]));
        }
    }
}

/// Equal tokens record the same thing.
proof fn lemma_token_injective(classes: Map<u32, u32>, a: char, b: char)
    requires
        token(classes, a) == token(classes, b),
    ensures
        key_token(classes, a) == key_token(classes, b),
{
    let ta = token(classes, a);
    let tb = token(classes, b);
    assert(ta[0] == tb[0]);
    let na: nat = if classes.contains_key(a as u32) { classes[a as u32] as nat } else { a as u32 as nat };
    let nb: nat = if classes.contains_key(b as u32) { classes[b as u32] as nat } else { b as u32 as nat };
    assert(ta.subrange(1, ta.len() - 1) =~= decimal(na));
    assert(tb.subrange(1, tb.len() - 1) =~= decimal(nb));
    lemma_decimal_injective(na, nb);
}

/// Two token-started strings that agree start with the same token.
proof fn lemma_token_prefix(classes: Map<u32, u32>, a: char, b: char, x: Seq<char>, y: Seq<char>)
    requires
        token(classes, a) + x == token(classes, b) + y,
    ensures
        token(classes, a) == token(classes, b),
        x == y,
{
    let ta = token(classes, a);
    let tb = token(classes, b);
    let w = ta + x;
    lemma_token_shape(classes, a);
    lemma_token_shape(classes, b);
    if ta.len() < tb.len() {
        assert(w[ta.len() - 1] == ta[ta.len() - 1]);
        assert((tb + y)[ta.len() - 1] == tb[ta.len() - 1]);
        assert(tb[ta.len() - 1] != '.');
    } else if tb.len() < ta.len() {
        assert((tb + y)[tb.len() - 1] == tb[tb.len() - 1]);
        assert(w[tb.len() - 1] == ta[tb.len() - 1]);
        assert(ta[tb.len() - 1] != '.');
    }
    assert(ta.len() == tb.len());
    assert(ta =~= w.take(ta.len() as int));
    assert(tb =~= (tb + y).take(tb.len() as int));
    assert(x =~= w.skip(ta.len() as int));
    assert(y =~= (tb + y).skip(tb.len() as int));
}

/// The key of two strings put together is their keys put together.
pub proof fn lemma_key_of_concat(classes: Map<u32, u32>, s: Seq<char>, t: Seq<char>)
    ensures
        key_of(classes, s + t) == key_of(classes, s) + key_of(classes, t),
    decreases t.len(),
{
    if t.len() == 0 {
        assert(s + t =~= s);
        assert(key_of(classes, s) + key_of(classes, t) =~= key_of(classes, s));
    } else {
        lemma_key_of_concat(classes, s, t.drop_last());
        assert((s + t).drop_last() =~= s + t.drop_last());
        assert((s + t).last() == t.last());
        assert(key_of(classes, s + t) =~= key_of(classes, s) + key_of(classes, t));
    }
}

proof fn lemma_key_front(classes: Map<u32, u32>, s: Seq<char>)
    requires
        s.len() > 0,
    ensures
        key_of(classes, s) == token(classes, s[0]) + key_of(classes, s.drop_first()),
{
    assert(s =~= seq![s[0]] + s.drop_first());
    lemma_key_of_concat(classes, seq![s[0]], s.drop_first());
    assert(seq![s[0]].drop_last() =~= Seq::<char>::empty());
    assert(key_of(classes, seq![s[0]].drop_last()) == Seq::<char>::empty());
    assert(seq![s[0]].last() == s[0]);
    assert(key_of(classes, seq![s[0]]) =~= token(classes, s[0]));
}

/// Equal keys come exactly from equal token sequences.
pub proof fn lemma_key_tokens(classes: Map<u32, u32>, s: Seq<char>, t: Seq<char>)
    ensures
        key_of(classes, s) == key_of(classes, t) <==> s.map_values(|c: char| key_token(classes, c))
            == t.map_values(|c: char| key_token(classes, c)),
    decreases s.len(),
{
    let ms = s.map_values(|c: char| key_token(classes, c));
    let mt = t.map_values(|c: char| key_token(classes, c));
    if s.len() == 0 || t.len() == 0 {
        if s.len() > 0 {
            lemma_key_front(classes, s);
            lemma_token_shape(classes, s[0]);
            assert(key_of(classes, s).len() > 0);
            assert(ms.len() != mt.len());
        } else if t.len() > 0 {
            lemma_key_front(classes, t);
            lemma_token_shape(classes, t[0]);
            assert(key_of(classes, t).len() > 0);
            assert(ms.len() != mt.len());
        } else {
            assert(ms =~= mt);
        }
    } else {
        lemma_key_front(classes, s);
        lemma_key_front(classes, t);
        lemma_key_tokens(classes, s.drop_first(), t.drop_first());
        let rs = s.drop_first().map_values(|c: char| key_token(classes, c));
        let rt = t.drop_first().map_values(|c: char| key_token(classes, c));
        assert(ms =~= seq![key_token(classes, s[0])] + rs);
        assert(mt =~= seq![key_token(classes, t[0])] + rt);
        if key_of(classes, s) == key_of(classes, t) {
            lemma_token_prefix(classes, s[0], t[0], key_of(classes, s.drop_first()), key_of(classes, t.drop_first()));
            lemma_token_injective(classes, s[0], t[0]);
            assert(ms =~= mt);
        }
        if ms == mt {
            assert(ms[0] == mt[0]);
            assert(rs =~= ms.drop_first());
            assert(rt =~= mt.drop_first());
            assert(token(classes, s[0]) =~= token(classes, t[0]));
        }
    }
}

/// `a` and `b` are joined by an identity edge, in either direction.
pub open spec fn linked(edges: Seq<(u32, u32)>, a: u32, b: u32) -> bool {
    exists|k: int| 0 <= k < edges.len() && (edges[k] == (a, b) || edges[k] == (b, a))
}

/// Step `i` of `path` follows an identity edge.
pub open spec fn step_ok(edges: Seq<(u32, u32)>, path: Seq<u32>, i: int) -> bool {
    linked(edges, path[i], path[i + 1])
}

/// A non-empty walk whose every step follows an identity edge.
pub open spec fn chain(edges: Seq<(u32, u32)>, path: Seq<u32>) -> bool {
    path.len() >= 1 && forall|i: int| 0 <= i < path.len() - 1 ==> #[trigger] step_ok(edges, path, i)
}

/// `a` and `b` are joined by a chain of identity edges.
pub open spec fn joined(edges: Seq<(u32, u32)>, a: u32, b: u32) -> bool {
    exists|path: Seq<u32>| #[trigger] chain(edges, path) && path[0] == a && path.last() == b
}

proof fn lemma_joined_refl(edges: Seq<(u32, u32)>, a: u32)
    ensures
        joined(edges, a, a),
{
    let path = seq![a];
    assert(chain(edges, path));
}

proof fn lemma_joined_edge(edges: Seq<(u32, u32)>, a: u32, b: u32)
    requires
        linked(edges, a, b),
    ensures
        joined(edges, a, b),
{
    let path = seq![a, b];
    assert forall|i: int| 0 <= i < path.len() - 1 implies #[trigger] step_ok(edges, path, i) by {
        assert(i == 0);
    }
    assert(chain(edges, path));
}

proof fn lemma_joined_sym(edges: Seq<(u32, u32)>, a: u32, b: u32)
    requires
        joined(edges, a, b),
    ensures
        joined(edges, b, a),
{
    let path = choose|path: Seq<u32>| #[trigger] chain(edges, path) && path[0] == a && path.last() == b;
    let n = path.len();
    let rev = Seq::new(n, |i: int| path[n - 1 - i]);
    assert forall|i: int| 0 <= i < rev.len() - 1 implies #[trigger] step_ok(edges, rev, i) by {
        assert(step_ok(edges, path, n - 2 - i));
        let k = choose|k: int|
            0 <= k < edges.len() && (edges[k] == (path[n - 2 - i], path[n - 1 - i]) || edges[k] == (
                path[n - 1 - i],
                path[n - 2 - i],
            ));
        assert(rev[i] == path[n - 1 - i] && rev[i + 1] == path[n - 2 - i]);
        assert(0 <= k < edges.len() && (edges[k] == (rev[i], rev[i + 1]) || edges[k] == (rev[i + 1], rev[i])));
    }
    assert(chain(edges, rev));
}

proof fn lemma_joined_trans(edges: Seq<(u32, u32)>, a: u32, b: u32, c: u32)
    requires
        joined(edges, a, b),
        joined(edges, b, c),
    ensures
        joined(edges, a, c),
{
    let p = choose|path: Seq<u32>| #[trigger] chain(edges, path) && path[0] == a && path.last() == b;
    let q = choose|path: Seq<u32>| #[trigger] chain(edges, path) && path[0] == b && path.last() == c;
    let w = p + q.drop_first();
    assert forall|i: int| 0 <= i < w.len() - 1 implies #[trigger] step_ok(edges, w, i) by {
        if i < p.len() - 1 {
            assert(step_ok(edges, p, i));
            assert(w[i] == p[i] && w[i + 1] == p[i + 1]);
        } else {
            let j = i - (p.len() - 1);
            assert(step_ok(edges, q, j));
            assert(w[i] == q[j] && w[i + 1] == q[j + 1]);
        }
    }
    assert(chain(edges, w));
    if q.len() == 1 {
        assert(w.last() == p.last());
    } else {
        assert(w.last() == q.last());
    }
}

/// A chain over some of the edges is a chain over more of them.
proof fn lemma_joined_grow(edges: Seq<(u32, u32)>, k: int, a: u32, b: u32)
    requires
        0 <= k < edges.len(),
        joined(edges.take(k), a, b),
    ensures
        joined(edges.take(k + 1), a, b),
{
    let p = choose|path: Seq<u32>| #[trigger] chain(edges.take(k), path) && path[0] == a && path.last() == b;
    assert forall|i: int| 0 <= i < p.len() - 1 implies #[trigger] step_ok(edges.take(k + 1), p, i) by {
        assert(step_ok(edges.take(k), p, i));
        let m = choose|m: int|
            0 <= m < edges.take(k).len() && (edges.take(k)[m] == (p[i], p[i + 1]) || edges.take(k)[m]
                == (p[i + 1], p[i]));
        assert(edges.take(k + 1)[m] == edges.take(k)[m]);
    }
    assert(chain(edges.take(k + 1), p));
}

/// Strictly increasing (sorted, no duplicates).
pub open spec fn strictly_sorted(v: Seq<i64>) -> bool {
    forall|i: int, j: int| 0 <= i < j < v.len() ==> v[i] < v[j]
}

pub struct VariantGraph {
    /// codepoint -> equivalence class id
    class_of: HashMapWithView<u32, u32>,
    /// backbone key -> lexeme ids sharing that key (sorted, deduplicated)
    form_index: StringHashMap<Vec<i64>>,
    /// the identity edges the classes were built from
    edges: Ghost<Seq<(u32, u32)>>,
    /// the (form, lexeme id) rows the index was built from
    forms: Ghost<Seq<(Seq<char>, i64)>>,
}

impl VariantGraph {
    /// Class id of each codepoint that has identity edges.
    pub closed spec fn classes(&self) -> Map<u32, u32> {
        self.class_of@
    }

    /// Backbone key -> the lexeme ids sharing it.
    pub closed spec fn index(&self) -> Map<Seq<char>, Seq<i64>> {
        self.form_index@.map_values(|v: Vec<i64>| v@)
    }

    pub closed spec fn source_edges(&self) -> Seq<(u32, u32)> {
        self.edges@
    }

    pub closed spec fn source_forms(&self) -> Seq<(Seq<char>, i64)> {
        self.forms@
    }

    pub open spec fn key_spec(&self, s: Seq<char>) -> Seq<char> {
        key_of(self.classes(), s)
    }

    /// The graph is what its rows make: every endpoint of an identity edge has a class and both
    /// ends of an edge share it; the index maps exactly the keys of the surface forms to the
    /// sorted ids of the lexemes having a form with that key.
    pub open spec fn wf(&self) -> bool {
        &&& forall|k: int|
            0 <= k < self.source_edges().len() ==> {
                let (c, p) = #[trigger] self.source_edges()[k];
                &&& self.classes().contains_key(c)
                &&& self.classes().contains_key(p)
                &&& self.classes()[c] == self.classes()[p]
            }
        &&& forall|a: u32, b: u32|
            self.classes().contains_key(a) && self.classes().contains_key(b) && #[trigger] self.classes()[a]
                == #[trigger] self.classes()[b] ==> joined(self.source_edges(), a, b)
        &&& forall|cp: u32|
            #[trigger] self.classes().contains_key(cp) ==> exists|k: int|
                0 <= k < self.source_edges().len() && (self.source_edges()[k].0 == cp
                    || self.source_edges()[k].1 == cp)
        &&& forall|key: Seq<char>|
            #[trigger] self.index().contains_key(key) <==> exists|j: int|
                0 <= j < self.source_forms().len() && self.key_spec(self.source_forms()[j].0)
                    == key
        &&& forall|key: Seq<char>|
            #[trigger] self.index().contains_key(key) ==> strictly_sorted(self.index()[key])
        &&& forall|key: Seq<char>, id: i64|
            #[trigger] self.index().contains_key(key) ==> (#[trigger] self.index()[key].contains(id)
                <==> exists|j: int|
                0 <= j < self.source_forms().len() && self.key_spec(self.source_forms()[j].0)
                    == key && self.source_forms()[j].1 == id)
    }

    /// Backbone key for a surface string: each char mapped to its class id (or its codepoint if
    /// it has no identity edges), so variant glyphs collapse to one key.
    pub fn key(&self, s: &str) -> (r: String)
        ensures
            r@ == self.key_spec(s@),
    {
        let cs = chars_of(s);
        let mut out: Vec<char> = Vec::new();
        for i in 0..cs.len()
            invariant
                cs@ == s@,
                out@ == key_of(self.classes(), s@.take(i as int)),
        {
            proof {
                assert(s@.take(i + 1).drop_last() =~= s@.take(i as int));
            }
            let cp = cs[i] as u32;
            let ghost before = out@;
            match self.class_of.get(&cp) {
                Some(cls) => {
                    out.push('c');
                    let d = decimal_exec(*cls);
                    append_vec(&mut out, &d);
                },
                None => {
                    out.push('u');
                    let d = decimal_exec(cp);
                    append_vec(&mut out, &d);
                },
            }
            out.push('.');
            proof {
                assert(out@ =~= before + token(self.classes(), s@[i as int]));
            }
        }
        proof {
            assert(s@.take(cs.len() as int) =~= s@);
        }
        string_of(&out)
    }

    /// Lexeme ids whose backbone key matches this string (cross-script + same-form).
    pub fn lexemes_by_key(&self, s: &str) -> (r: &[i64])
        ensures
            r@ == if self.index().contains_key(self.key_spec(s@)) {
                self.index()[self.key_spec(s@)]
            } else {
                Seq::empty()
            },
    {
        let k = self.key(s);
        match self.form_index.get(k.as_str()) {
            Some(v) => v.as_slice(),
            None => &[],
        }
    }

    /// How many distinct backbone keys are indexed.
    pub fn num_classes(&self) -> (r: usize)
        ensures
            r == self.index().len(),
    {
        proof {
            assert(self.index().dom() =~= self.form_index@.dom());
        }
        self.form_index.len()
    }
}

/// `idx` and `cps` are inverse: `idx` sends each interned codepoint to its union-find element,
/// and `cps` lists the codepoint of each element.
pub open spec fn interned(idx: Map<u32, u32>, cps: Seq<u32>) -> bool {
    &&& forall|cp: u32|
        #[trigger] idx.contains_key(cp) ==> idx[cp] < cps.len() && cps[idx[cp] as int] == cp
    &&& forall|i: int| 0 <= i < cps.len() ==> idx.contains_key(#[trigger] cps[i]) && idx[cps[i]] == i
}

/// The union-find element of `cp`, made fresh the first time `cp` is seen.
fn intern(uf: &mut UnionFind, idx: &mut HashMapWithView<u32, u32>, cps: &mut Vec<u32>, cp: u32) -> (i: u32)
    requires
        old(uf).wf(),
        interned(old(idx)@, old(cps)@),
        old(cps)@.len() == old(uf).size(),
        old(uf).size() + 1 < u32::MAX,
    ensures
        final(uf).wf(),
        interned(final(idx)@, final(cps)@),
        final(cps)@.len() == final(uf).size(),
        old(uf).size() <= final(uf).size() <= old(uf).size() + 1,
        final(idx)@.contains_key(cp),
        final(idx)@[cp] == i,
        i < final(uf).size(),
        forall|c: u32| old(idx)@.contains_key(c) ==> #[trigger] final(idx)@.contains_key(c) && final(idx)@[c] == old(idx)@[c],
        forall|c: u32| #[trigger] final(idx)@.contains_key(c) ==> old(idx)@.contains_key(c) || c == cp,
        forall|j: int| 0 <= j < old(uf).size() ==> #[trigger] final(uf).rep(j) == old(uf).rep(j),
        forall|j: int| old(uf).size() <= j < final(uf).size() ==> #[trigger] final(uf).rep(j) == j,
        forall|j: int| 0 <= j < old(cps)@.len() ==> #[trigger] final(cps)@[j] == old(cps)@[j],
{
    match idx.get(&cp) {
        Some(i) => *i,
        None => {
            let i = uf.make();
            let ghost c0 = cps@;
            cps.push(cp);
            idx.insert(cp, i);
            proof {
                assert forall|c: u32| #[trigger] idx@.contains_key(c) implies idx@[c] < cps@.len() && cps@[idx@[c] as int] == c by {
                    if c != cp {
                        assert(c0[idx@[c] as int] == c);
                    }
                }
                assert forall|j: int| 0 <= j < cps@.len() implies idx@.contains_key(#[trigger] cps@[j]) && idx@[cps@[j]] == j by {
                    if j < c0.len() {
                        assert(cps@[j] == c0[j]);
                        assert(c0[j] != cp);
                    }
                }
            }
            i
        },
    }
}


/// After interning, two elements with one representative are either both old (and so joined
/// before) or one and the same fresh element.
proof fn lemma_intern_joins(u0: UnionFind, u2: UnionFind, cps: Seq<u32>, edges: Seq<(u32, u32)>)
    requires
        u0.wf(),
        u2.wf(),
        u0.size() <= u2.size(),
        cps.len() == u2.size(),
        forall|j: int| 0 <= j < u0.size() ==> #[trigger] u2.rep(j) == u0.rep(j),
        forall|j: int| u0.size() <= j < u2.size() ==> #[trigger] u2.rep(j) == j,
        forall|i: int, j: int|
            0 <= i < u0.size() && 0 <= j < u0.size() && #[trigger] u0.rep(i) == #[trigger] u0.rep(j)
                ==> joined(edges, cps[i], cps[j]),
    ensures
        forall|i: int, j: int|
            0 <= i < u2.size() && 0 <= j < u2.size() && #[trigger] u2.rep(i) == #[trigger] u2.rep(j)
                ==> joined(edges, cps[i], cps[j]),
{
    assert forall|i: int, j: int|
        0 <= i < u2.size() && 0 <= j < u2.size() && #[trigger] u2.rep(i) == #[trigger] u2.rep(j)
            implies joined(edges, cps[i], cps[j]) by {
        if i < u0.size() && j < u0.size() {
            assert(u0.rep(i) == u0.rep(j));
        } else if i < u0.size() {
            u0.lemma_rep_in_range(i);
        } else if j < u0.size() {
            u0.lemma_rep_in_range(j);
        } else {
            assert(i == j);
            lemma_joined_refl(edges, cps[i]);
        }
    }
}

/// Merging the classes of the two ends of edge `k` keeps every class a set of codepoints joined by
/// the first `k + 1` edges.
proof fn lemma_union_joins(
    u2: UnionFind,
    uf: UnionFind,
    cps: Seq<u32>,
    es: Seq<(u32, u32)>,
    k: int,
    ci: int,
    pi: int,
)
    requires
        u2.wf(),
        uf.wf(),
        uf.size() == u2.size(),
        cps.len() == u2.size(),
        0 <= k < es.len(),
        0 <= ci < u2.size(),
        0 <= pi < u2.size(),
        es[k] == (cps[ci], cps[pi]),
        forall|i: int, j: int|
            0 <= i < u2.size() && 0 <= j < u2.size() && #[trigger] u2.rep(i) == #[trigger] u2.rep(j)
                ==> joined(es.take(k), cps[i], cps[j]),
        forall|j: int|
            0 <= j < u2.size() ==> #[trigger] uf.rep(j) == if u2.rep(j) == u2.rep(ci) || u2.rep(j)
                == u2.rep(pi) {
                uf.rep(ci)
            } else {
                u2.rep(j)
            },
        uf.rep(ci) == u2.rep(ci) || uf.rep(ci) == u2.rep(pi),
    ensures
        forall|i: int, j: int|
            0 <= i < uf.size() && 0 <= j < uf.size() && #[trigger] uf.rep(i) == #[trigger] uf.rep(j)
                ==> joined(es.take(k + 1), cps[i], cps[j]),
{
    let e1 = es.take(k + 1);
    assert(e1[k] == es[k]);
    assert(linked(e1, cps[ci], cps[pi]));
    lemma_joined_edge(e1, cps[ci], cps[pi]);
    assert forall|i: int, j: int|
        0 <= i < uf.size() && 0 <= j < uf.size() && #[trigger] uf.rep(i) == #[trigger] uf.rep(j)
            implies joined(e1, cps[i], cps[j]) by {
        let a = u2.rep(ci);
        let b = u2.rep(pi);
        let ini = u2.rep(i) == a || u2.rep(i) == b;
        let inj = u2.rep(j) == a || u2.rep(j) == b;
        assert(uf.rep(i) == if ini { uf.rep(ci) } else { u2.rep(i) });
        assert(uf.rep(j) == if inj { uf.rep(ci) } else { u2.rep(j) });
        if !ini && !inj {
            assert(u2.rep(i) == u2.rep(j));
            lemma_joined_grow(es, k, cps[i], cps[j]);
        } else if ini && inj {
            // i ~ (ci or pi), j ~ (ci or pi), and ci - pi is an edge
            let xi = if u2.rep(i) == a { ci } else { pi };
            let xj = if u2.rep(j) == a { ci } else { pi };
            assert(u2.rep(i) == u2.rep(xi));
            assert(u2.rep(xj) == u2.rep(j));
            lemma_joined_grow(es, k, cps[i], cps[xi]);
            lemma_joined_grow(es, k, cps[xj], cps[j]);
            if xi == xj {
                lemma_joined_trans(e1, cps[i], cps[xi], cps[j]);
            } else {
                if xi == ci {
                    lemma_joined_trans(e1, cps[i], cps[ci], cps[pi]);
                    lemma_joined_trans(e1, cps[i], cps[pi], cps[j]);
                } else {
                    lemma_joined_sym(e1, cps[ci], cps[pi]);
                    lemma_joined_trans(e1, cps[i], cps[pi], cps[ci]);
                    lemma_joined_trans(e1, cps[i], cps[ci], cps[j]);
                }
            }
        } else {
            assert(false);
        }
    }
}

/// Keep `v` a sorted set while adding `x`.
fn insert_sorted(v: &Vec<i64>, x: i64) -> (r: Vec<i64>)
    requires
        strictly_sorted(v@),
    ensures
        strictly_sorted(r@),
        forall|y: i64| r@.contains(y) <==> (v@.contains(y) || y == x),
{
    let mut r: Vec<i64> = Vec::new();
    let mut i: usize = 0;
    while i < v.len() && v[i] < x
        invariant
            i <= v.len(),
            strictly_sorted(v@),
            r@ == v@.take(i as int),
            forall|k: int| 0 <= k < i ==> v@[k] < x,
        decreases v.len() - i,
    {
        r.push(v[i]);
        i += 1;
    }
    let ghost cut = i as int;
    let present = i < v.len() && v[i] == x;
    if !present {
        r.push(x);
    }
    while i < v.len()
        invariant
            0 <= cut <= i <= v.len(),
            strictly_sorted(v@),
            r@ == v@.take(cut) + (if present { Seq::<i64>::empty() } else { seq![x] }) + v@.subrange(cut, i as int),
            forall|k: int| 0 <= k < cut ==> v@[k] < x,
            cut < v.len() ==> x <= v@[cut],
            present ==> cut < v.len() && v@[cut] == x,
        decreases v.len() - i,
    {
        proof {
            assert(v@.subrange(cut, i + 1) =~= v@.subrange(cut, i as int).push(v@[i as int]));
        }
        r.push(v[i]);
        i += 1;
    }
    proof {
        let mid: Seq<i64> = if present { Seq::<i64>::empty() } else { seq![x] };
        assert(r@ =~= v@.take(cut) + mid + v@.subrange(cut, v.len() as int));
        assert forall|a: int, b: int| 0 <= a < b < r@.len() implies r@[a] < r@[b] by {
            if present {
                assert(r@ =~= v@);
            } else {
                if a < cut && b > cut {
                    assert(r@[b] == v@[b - 1]);
                    assert(v@[a] < x);
                    if b - 1 > cut {
                        assert(v@[cut] < v@[b - 1]);
                    }
                } else if a > cut {
                    assert(r@[a] == v@[a - 1] && r@[b] == v@[b - 1]);
                } else if a == cut {
                    assert(r@[b] == v@[b - 1]);
                    if b - 1 > cut {
                        assert(v@[cut] < v@[b - 1]);
                    } else {
                        assert(x != v@[cut]);
                    }
                }
            }
        }
        assert forall|y: i64| r@.contains(y) <==> (v@.contains(y) || y == x) by {
            if r@.contains(y) {
                let k = choose|k: int| 0 <= k < r@.len() && r@[k] == y;
                if !present && k > cut {
                    assert(v@[k - 1] == y);
                } else if !present && k < cut {
                    assert(v@[k] == y);
                } else if present {
                    assert(v@[k] == y);
                }
            }
            if v@.contains(y) {
                let k = choose|k: int| 0 <= k < v@.len() && v@[k] == y;
                if present || k < cut {
                    assert(r@[k] == y);
                } else {
                    assert(r@[k + 1] == y);
                }
            }
            if y == x {
                if present {
                    assert(r@[cut] == x);
                } else {
                    assert(r@[cut] == x);
                }
            }
        }
    }
    r
}

impl VariantGraph {
    /// Build the graph from its rows: the identity-class edges `(child, parent)` (simplification,
    /// shinjitai and z-variant edges only) and the `(form, lexeme id)` surface-form rows. Each
    /// codepoint's class id is its union-find root; each surface form is indexed under its backbone
    /// key, and each key's ids are kept sorted and distinct.
    pub fn load(edges: &Vec<(u32, u32)>, forms: &Vec<(String, i64)>) -> (g: Self)
        requires
            2 * edges@.len() + 2 < u32::MAX,
        ensures
            g.wf(),
            g.source_edges() == edges@,
            g.source_forms() == forms@.map_values(|r: (String, i64)| (r.0@, r.1)),
    {
        let mut uf = UnionFind::new();
        let mut idx: HashMapWithView<u32, u32> = HashMapWithView::new();
        let mut cps: Vec<u32> = Vec::new();
        let ghost es = edges@;
        for k in 0..edges.len()
            invariant
                es == edges@,
                2 * es.len() + 2 < u32::MAX,
                uf.wf(),
                interned(idx@, cps@),
                cps@.len() == uf.size(),
                uf.size() <= 2 * k,
                forall|e: int|
                    0 <= e < k ==> idx@.contains_key((#[trigger] es[e]).0) && idx@.contains_key(es[e].1)
                        && uf.rep(idx@[es[e].0] as int) == uf.rep(idx@[es[e].1] as int),
                forall|cp: u32|
                    #[trigger] idx@.contains_key(cp) ==> exists|e: int|
                        0 <= e < k && (es[e].0 == cp || es[e].1 == cp),
                forall|i: int, j: int|
                    0 <= i < uf.size() && 0 <= j < uf.size() && #[trigger] uf.rep(i) == #[trigger] uf.rep(j)
                        ==> joined(es.take(k as int), cps@[i], cps@[j]),
        {
            let (c, p) = edges[k];
            let ghost i0 = idx@;
            let ghost u0 = uf;
            let ghost c0 = cps@;
            let ci = intern(&mut uf, &mut idx, &mut cps, c);
            let ghost i1 = idx@;
            let ghost u1 = uf;
            let pi = intern(&mut uf, &mut idx, &mut cps, p);
            let ghost u2 = uf;
            proof {
                assert(i1.contains_key(c));
                assert(idx@.contains_key(c));
                assert(idx@[c] == ci);
            }
            proof {
                assert forall|j: int| 0 <= j < u0.size() implies #[trigger] u2.rep(j) == u0.rep(j) by {
                    assert(u1.rep(j) == u0.rep(j));
                }
                assert forall|j: int| u0.size() <= j < u2.size() implies #[trigger] u2.rep(j) == j by {
                    if j < u1.size() {
                        assert(u1.rep(j) == j);
                    }
                }
                assert forall|i: int, j: int|
                    0 <= i < u0.size() && 0 <= j < u0.size() && #[trigger] u0.rep(i) == #[trigger] u0.rep(j)
                        implies joined(es.take(k as int), cps@[i], cps@[j]) by {
                    assert(joined(es.take(k as int), c0[i], c0[j]));
                    assert(cps@[i] == c0[i]);
                    assert(cps@[j] == c0[j]);
                }
                lemma_intern_joins(u0, u2, cps@, es.take(k as int));
            }
            uf.union(ci, pi);
            proof {
                assert(es[k as int] == (cps@[ci as int], cps@[pi as int]));
                lemma_union_joins(u2, uf, cps@, es, k as int, ci as int, pi as int);
                assert forall|e: int|
                    0 <= e < k + 1 implies idx@.contains_key((#[trigger] es[e]).0) && idx@.contains_key(es[e].1)
                        && uf.rep(idx@[es[e].0] as int) == uf.rep(idx@[es[e].1] as int) by {
                    if e < k {
                        let x = idx@[es[e].0] as int;
                        let y = idx@[es[e].1] as int;
                        assert(i0.contains_key(es[e].0) && i0.contains_key(es[e].1));
                        assert(i1.contains_key(es[e].0) && i1.contains_key(es[e].1));
                        assert(idx@.contains_key(es[e].0) && idx@.contains_key(es[e].1));
                        assert(x == i0[es[e].0] && y == i0[es[e].1]);
                        assert(u1.rep(x) == u0.rep(x) && u2.rep(x) == u1.rep(x));
                        assert(u1.rep(y) == u0.rep(y) && u2.rep(y) == u1.rep(y));
                        assert(uf.rep(x) == uf.rep(y));
                    } else {
                        assert(es[e] == (c, p));
                    }
                }
                assert forall|cp: u32| #[trigger] idx@.contains_key(cp) implies exists|e: int|
                    0 <= e < k + 1 && (es[e].0 == cp || es[e].1 == cp) by {
                    if i0.contains_key(cp) {
                        let e = choose|e: int| 0 <= e < k && (es[e].0 == cp || es[e].1 == cp);
                        assert(0 <= e < k + 1);
                    } else {
                        assert(es[k as int] == (c, p));
                    }
                }
            }
        }
        // codepoint -> stable class id (the root element of its class)
        let mut class_of: HashMapWithView<u32, u32> = HashMapWithView::new();
        let ghost u3 = uf;
        for i in 0..cps.len()
            invariant
                uf.wf(),
                uf.size() == u3.size(),
                cps@.len() == uf.size(),
                interned(idx@, cps@),
                forall|j: int| 0 <= j < uf.size() ==> #[trigger] uf.rep(j) == u3.rep(j),
                forall|j: int|
                    0 <= j < i ==> class_of@.contains_key(#[trigger] cps@[j]) && class_of@[cps@[j]]
                        == u3.rep(j),
                forall|cp: u32|
                    #[trigger] class_of@.contains_key(cp) ==> idx@.contains_key(cp) && idx@[cp] < i,
        {
            let r = uf.find(i as u32);
            class_of.insert(cps[i], r);
            proof {
                assert forall|j: int| 0 <= j < i + 1 implies class_of@.contains_key(#[trigger] cps@[j])
                    && class_of@[cps@[j]] == u3.rep(j) by {
                    if j < i {
                        assert(cps@[j] != cps@[i as int]);
                    }
                }
            }
        }
        let ghost fs = forms@.map_values(|r: (String, i64)| (r.0@, r.1));
        let ghost cls = class_of@;
        proof {
            assert forall|k: int| 0 <= k < es.len() implies {
                let (c, p) = #[trigger] es[k];
                &&& cls.contains_key(c)
                &&& cls.contains_key(p)
                &&& cls[c] == cls[p]
            } by {
                let (c, p) = es[k];
                assert(idx@.contains_key(c) && idx@.contains_key(p));
                let ic = idx@[c] as int;
                let ip = idx@[p] as int;
                assert(cps@[ic] == c && cps@[ip] == p);
                assert(cls.contains_key(cps@[ic]));
                assert(cls.contains_key(cps@[ip]));
                assert(u3.rep(ic) == u3.rep(ip));
            }
            assert forall|cp: u32| #[trigger] cls.contains_key(cp) implies exists|k: int|
                0 <= k < es.len() && (es[k].0 == cp || es[k].1 == cp) by {
                assert(idx@.contains_key(cp));
            }
            assert(es.take(es.len() as int) =~= es);
            assert forall|a: u32, b: u32|
                cls.contains_key(a) && cls.contains_key(b) && #[trigger] cls[a] == #[trigger] cls[b]
                    implies joined(es, a, b) by {
                let ia = idx@[a] as int;
                let ib = idx@[b] as int;
                assert(cps@[ia] == a && cps@[ib] == b);
                assert(cls.contains_key(cps@[ia]) && cls[cps@[ia]] == u3.rep(ia));
                assert(cls.contains_key(cps@[ib]) && cls[cps@[ib]] == u3.rep(ib));
                assert(u3.rep(ia) == u3.rep(ib));
                assert(joined(es.take(es.len() as int), cps@[ia], cps@[ib]));
            }
        }
        let mut g = VariantGraph {
            class_of,
            form_index: StringHashMap::new(),
            edges: Ghost(edges@),
            forms: Ghost(fs),
        };
        // the backbone-key index over every surface form
        for j in 0..forms.len()
            invariant
                fs == forms@.map_values(|r: (String, i64)| (r.0@, r.1)),
                g.source_forms() == fs,
                g.classes() == cls,
                g.source_edges() == es,
                forall|key: Seq<char>|
                    #[trigger] g.form_index@.contains_key(key) <==> exists|m: int|
                        0 <= m < j && g.key_spec(fs[m].0) == key,
                forall|key: Seq<char>|
                    #[trigger] g.form_index@.contains_key(key) ==> strictly_sorted(g.form_index@[key]@),
                forall|key: Seq<char>, id: i64|
                    #[trigger] g.form_index@.contains_key(key) ==> (#[trigger] g.form_index@[key]@.contains(id)
                        <==> exists|m: int| 0 <= m < j && g.key_spec(fs[m].0) == key && fs[m].1 == id),
        {
            let key = g.key(forms[j].0.as_str());
            let id = forms[j].1;
            let ghost kv = key@;
            let ghost before = g.form_index@;
            assert(fs[j as int] == (forms@[j as int].0@, forms@[j as int].1));
            let nv = match g.form_index.get(key.as_str()) {
                Some(v) => insert_sorted(v, id),
                None => {
                    let mut v: Vec<i64> = Vec::new();
                    v.push(id);
                    proof {
                        assert forall|y: i64| v@.contains(y) <==> y == id by {
                            if v@.contains(y) {
                                assert(v@[0] == y);
                            }
                            if y == id {
                                assert(v@[0] == id);
                            }
                        }
                    }
                    v
                },
            };
            g.form_index.insert(key, nv);
            proof {
                assert forall|key2: Seq<char>| #[trigger] g.form_index@.contains_key(key2) <==> exists|m: int|
                    0 <= m < j + 1 && g.key_spec(fs[m].0) == key2 by {
                    if key2 == kv {
                        assert(g.key_spec(fs[j as int].0) == kv);
                    } else if before.contains_key(key2) {
                        let m = choose|m: int| 0 <= m < j && g.key_spec(fs[m].0) == key2;
                        assert(0 <= m < j + 1);
                    } else if exists|m: int| 0 <= m < j + 1 && g.key_spec(fs[m].0) == key2 {
                        let m = choose|m: int| 0 <= m < j + 1 && g.key_spec(fs[m].0) == key2;
                        assert(m != j);
                    }
                }
                assert forall|key2: Seq<char>, id2: i64| #[trigger] g.form_index@.contains_key(key2) implies (
                    #[trigger] g.form_index@[key2]@.contains(id2) <==> exists|m: int|
                        0 <= m < j + 1 && g.key_spec(fs[m].0) == key2 && fs[m].1 == id2) by {
                    if key2 == kv {
                        if exists|m: int| 0 <= m < j + 1 && g.key_spec(fs[m].0) == key2 && fs[m].1 == id2 {
                            let m = choose|m: int| 0 <= m < j + 1 && g.key_spec(fs[m].0) == key2 && fs[m].1 == id2;
                            if m < j {
                                assert(before.contains_key(key2));
                            }
                        }
                        if before.contains_key(key2) && before[key2]@.contains(id2) {
                            let m = choose|m: int| 0 <= m < j && g.key_spec(fs[m].0) == key2 && fs[m].1 == id2;
                            assert(0 <= m < j + 1);
                        }
                    } else {
                        assert(before.contains_key(key2));
                        if before[key2]@.contains(id2) {
                            let m = choose|m: int| 0 <= m < j && g.key_spec(fs[m].0) == key2 && fs[m].1 == id2;
                            assert(0 <= m < j + 1);
                        }
                        if exists|m: int| 0 <= m < j + 1 && g.key_spec(fs[m].0) == key2 && fs[m].1 == id2 {
                            let m = choose|m: int| 0 <= m < j + 1 && g.key_spec(fs[m].0) == key2 && fs[m].1 == id2;
                            assert(m != j);
                        }
                    }
                }
            }
        }
        proof {
            assert forall|key: Seq<char>| #[trigger] g.index().contains_key(key) <==> exists|m: int|
                0 <= m < g.source_forms().len() && g.key_spec(g.source_forms()[m].0) == key by {
                assert(g.index().contains_key(key) == g.form_index@.contains_key(key));
            }
            assert forall|key: Seq<char>| #[trigger] g.index().contains_key(key) implies strictly_sorted(g.index()[key]) by {
                assert(g.index()[key] == g.form_index@[key]@);
            }
            assert forall|key: Seq<char>, id: i64| #[trigger] g.index().contains_key(key) implies (#[trigger] g.index()[key].contains(id)
                <==> exists|m: int| 0 <= m < g.source_forms().len() && g.key_spec(g.source_forms()[m].0) == key && g.source_forms()[m].1 == id) by {
                assert(g.index()[key] == g.form_index@[key]@);
            }
        }
        g
    }
}

/// Two strings whose characters pair up, position by position, as the same character or as the
/// two ends of an identity edge (学校 / 學校, 会社 / 會社) have the same backbone key, so one index
/// lookup finds the words written either way.
pub proof fn law_variant_spellings_share_key(g: VariantGraph, s: Seq<char>, t: Seq<char>)
    requires
        g.wf(),
        s.len() == t.len(),
        forall|i: int|
            0 <= i < s.len() ==> s[i] == t[i] || linked(g.source_edges(), s[i] as u32, t[i] as u32),
    ensures
        g.key_spec(s) == g.key_spec(t),
    decreases s.len(),
{
    if s.len() > 0 {
        law_variant_spellings_share_key(g, s.drop_last(), t.drop_last());
        let a = s.last();
        let b = t.last();
        if a != b {
            assert(linked(g.source_edges(), a as u32, b as u32));
            let k = choose|k: int|
                0 <= k < g.source_edges().len() && (g.source_edges()[k] == (a as u32, b as u32)
                    || g.source_edges()[k] == (b as u32, a as u32));
            let e = g.source_edges()[k];
            assert(g.classes().contains_key(e.0) && g.classes().contains_key(e.1)
                && g.classes()[e.0] == g.classes()[e.1]);
        }
    }
}


/// A backbone key is exactly its characters' tokens: two strings get the same key exactly when,
/// character by character, they have the same class (or, without one, the same codepoint), and
/// the key of a string put together is the keys of its parts put together.
pub proof fn law_key_is_its_tokens(g: VariantGraph, s: Seq<char>, t: Seq<char>)
    ensures
        g.key_spec(s) == g.key_spec(t) <==> s.map_values(|c: char| key_token(g.classes(), c))
            == t.map_values(|c: char| key_token(g.classes(), c)),
        g.key_spec(s + t) == g.key_spec(s) + g.key_spec(t),
{
    lemma_key_tokens(g.classes(), s, t);
    lemma_key_of_concat(g.classes(), s, t);
}

/// Two codepoints share a class exactly when a chain of identity edges (simplification,
/// shinjitai, z-variant) joins them: classes merge along those edges and along nothing else, so a
/// pair linked only by a semantic-variant edge never collapses into one key.
pub proof fn law_classes_are_identity_chains(g: VariantGraph, a: u32, b: u32)
    requires
        g.wf(),
        g.classes().contains_key(a),
        g.classes().contains_key(b),
    ensures
        g.classes()[a] == g.classes()[b] <==> joined(g.source_edges(), a, b),
{
    if joined(g.source_edges(), a, b) {
        let p = choose|path: Seq<u32>| #[trigger] chain(g.source_edges(), path) && path[0] == a && path.last() == b;
        lemma_chain_one_class(g, p, p.len() as int - 1);
    }
}

proof fn lemma_chain_one_class(g: VariantGraph, p: Seq<u32>, n: int)
    requires
        g.wf(),
        chain(g.source_edges(), p),
        g.classes().contains_key(p[0]),
        0 <= n < p.len(),
    ensures
        g.classes().contains_key(p[n]),
        g.classes()[p[n]] == g.classes()[p[0]],
    decreases n,
{
    if n > 0 {
        lemma_chain_one_class(g, p, n - 1);
        assert(step_ok(g.source_edges(), p, n - 1));
        let es = g.source_edges();
        let k = choose|k: int| 0 <= k < es.len() && (es[k] == (p[n - 1], p[n]) || es[k] == (p[n], p[n - 1]));
        let e = es[k];
        assert(g.classes().contains_key(e.0) && g.classes().contains_key(e.1) && g.classes()[e.0] == g.classes()[e.1]);
    }
}

} // verus!

//! Lexicographic order on strings and the sorted, duplicate-free name set
//! that both tools emit their results through.

use vstd::prelude::*;

verus! {

/// Lexicographic "less than" on character sequences, compared from index
/// `i` onward. Characters are ordered by their Unicode scalar values.
pub open spec fn lex_lt_from(a: Seq<char>, b: Seq<char>, i: int) -> bool
    decreases a.len() - i,
{
    if i >= a.len() {
        i < b.len()
    } else if i >= b.len() {
        false
    } else if a[i] != b[i] {
        (a[i] as int) < (b[i] as int)
    } else {
        lex_lt_from(a, b, i + 1)
    }
}

/// Strict lexicographic order on character sequences.
pub open spec fn lex_lt(a: Seq<char>, b: Seq<char>) -> bool {
    lex_lt_from(a, b, 0)
}

/// The views of a vector of strings, element by element.
pub open spec fn views_of(v: Seq<String>) -> Seq<Seq<char>> {
    v.map_values(|s: String| s@)
}

/// `s` holds the sequence `t` as an element.
pub open spec fn contains_seq(s: Seq<Seq<char>>, t: Seq<char>) -> bool {
    exists|k: int| 0 <= k < s.len() && s[k] == t
}

/// Every earlier element is strictly below every later one: the sequence is
/// ascending and free of duplicates.
pub open spec fn strictly_sorted(s: Seq<Seq<char>>) -> bool {
    forall|i: int, j: int| 0 <= i < j < s.len() ==> lex_lt(s[i], s[j])
}

pub proof fn lemma_lex_lt_from_irrefl(a: Seq<char>, i: int)
    ensures
        !lex_lt_from(a, a, i),
    decreases a.len() - i,
{
    if i < a.len() {
        lemma_lex_lt_from_irrefl(a, i + 1);
    }
}

pub proof fn lemma_lex_lt_from_asym(a: Seq<char>, b: Seq<char>, i: int)
    requires
        lex_lt_from(a, b, i),
    ensures
        !lex_lt_from(b, a, i),
    decreases a.len() - i,
{
    if i < a.len() && i < b.len() && a[i] == b[i] {
        lemma_lex_lt_from_asym(a, b, i + 1);
    }
}

pub proof fn lemma_lex_lt_from_trans(a: Seq<char>, b: Seq<char>, c: Seq<char>, i: int)
    requires
        lex_lt_from(a, b, i),
        lex_lt_from(b, c, i),
    ensures
        lex_lt_from(a, c, i),
    decreases a.len() - i,
{
    if i < a.len() && i < b.len() && i < c.len() && a[i] == b[i] && b[i] == c[i] {
        lemma_lex_lt_from_trans(a, b, c, i + 1);
    }
}

pub proof fn lemma_lex_lt_from_connected(a: Seq<char>, b: Seq<char>, i: int)
    requires
        0 <= i <= a.len(),
        0 <= i <= b.len(),
        !lex_lt_from(a, b, i),
        !lex_lt_from(b, a, i),
    ensures
        a.len() == b.len(),
        forall|k: int| i <= k < a.len() ==> a[k] == b[k],
    decreases a.len() - i,
{
    if i < a.len() && i < b.len() {
        assert(a[i] == b[i]) by {
            if a[i] != b[i] {
                assert((a[i] as int) >= (b[i] as int));
                assert((b[i] as int) >= (a[i] as int));
            }
        }
        lemma_lex_lt_from_connected(a, b, i + 1);
    } else if i == a.len() && i < b.len() {
        assert(lex_lt_from(a, b, i));
        assert(false);
    } else if i == b.len() && i < a.len() {
        assert(lex_lt_from(b, a, i));
        assert(false);
    }
}

/// Trichotomy at the top level: two sequences that are ordered neither way
/// are equal.
pub proof fn lemma_lex_connected(a: Seq<char>, b: Seq<char>)
    requires
        !lex_lt(a, b),
        !lex_lt(b, a),
    ensures
        a == b,
{
    lemma_lex_lt_from_connected(a, b, 0);
    assert(a =~= b);
}

pub proof fn lemma_lex_trans(a: Seq<char>, b: Seq<char>, c: Seq<char>)
    requires
        lex_lt(a, b),
        lex_lt(b, c),
    ensures
        lex_lt(a, c),
{
    lemma_lex_lt_from_trans(a, b, c, 0);
}

/// A strictly sorted sequence is determined by its elements: two strictly
/// sorted sequences holding the same elements are equal. This is why both
/// tools emit the same output however their inputs were discovered.
pub proof fn lemma_sorted_unique(x: Seq<Seq<char>>, y: Seq<Seq<char>>)
    requires
        strictly_sorted(x),
        strictly_sorted(y),
        forall|t: Seq<char>|
            #![trigger contains_seq(x, t)]
            #![trigger contains_seq(y, t)]
            contains_seq(x, t) <==> contains_seq(y, t),
    ensures
        x == y,
    decreases x.len(),
{
    if x.len() == 0 {
        if y.len() > 0 {
            assert(contains_seq(y, y[0]));
            assert(false);
        }
        assert(x =~= y);
    } else {
        assert(contains_seq(x, x[0]));
        let k = choose|k: int| 0 <= k < y.len() && y[k] == x[0];
        assert(contains_seq(y, y[0]));
        let m = choose|m: int| 0 <= m < x.len() && x[m] == y[0];
        if k > 0 {
            assert(lex_lt(y[0], y[k]));
            if m > 0 {
                assert(lex_lt(x[0], x[m]));
                lemma_lex_lt_from_asym(y[0], x[0], 0);
                assert(false);
            } else {
                lemma_lex_lt_from_irrefl(x[0], 0);
                assert(false);
            }
        }
        assert(x[0] == y[0]);
        let x1 = x.skip(1);
        let y1 = y.skip(1);
        assert forall|t: Seq<char>|
            #![trigger contains_seq(x1, t)]
            #![trigger contains_seq(y1, t)]
            contains_seq(x1, t) <==> contains_seq(y1, t) by {
            if contains_seq(x1, t) {
                let p = choose|p: int| 0 <= p < x1.len() && x1[p] == t;
                assert(x[p + 1] == t);
                assert(contains_seq(x, t));
                let q = choose|q: int| 0 <= q < y.len() && y[q] == t;
                assert(lex_lt(x[0], x[p + 1]));
                if q == 0 {
                    lemma_lex_lt_from_irrefl(x[0], 0);
                    assert(false);
                }
                assert(y1[q - 1] == t);
                assert(contains_seq(y1, t));
            }
            if contains_seq(y1, t) {
                let p = choose|p: int| 0 <= p < y1.len() && y1[p] == t;
                assert(y[p + 1] == t);
                assert(contains_seq(y, t));
                let q = choose|q: int| 0 <= q < x.len() && x[q] == t;
                assert(lex_lt(y[0], y[p + 1]));
                if q == 0 {
                    lemma_lex_lt_from_irrefl(y[0], 0);
                    assert(false);
                }
                assert(x1[q - 1] == t);
                assert(contains_seq(x1, t));
            }
        }
        lemma_sorted_unique(x1, y1);
        assert(x.len() == y.len());
        assert forall|k: int| 0 <= k < x.len() implies x[k] == y[k] by {
            if k > 0 {
                assert(x1[k - 1] == y1[k - 1]);
            }
        }
        assert(x =~= y);
    }
}

/// Decides `lex_lt(a@, b@)` by walking both strings in step.
pub fn str_lt(a: &str, b: &str) -> (r: bool)
    ensures
        r == lex_lt(a@, b@),
{
    let alen: usize = a.unicode_len();
    let blen: usize = b.unicode_len();
    let mut i: usize = 0;
    loop
        invariant
            i <= alen,
            i <= blen,
            alen == a@.len(),
            blen == b@.len(),
            lex_lt(a@, b@) == lex_lt_from(a@, b@, i as int),
        decreases alen - i,
    {
        if i >= alen {
            return i < blen;
        }
        if i >= blen {
            return false;
        }
        let ca = a.get_char(i);
        let cb = b.get_char(i);
        if ca != cb {
            return ca < cb;
        }
        i = i + 1;
    }
}

/// Decides whether two strings hold the same characters.
pub fn str_eq(a: &str, b: &str) -> (r: bool)
    ensures
        r == (a@ == b@),
{
    let alen: usize = a.unicode_len();
    let blen: usize = b.unicode_len();
    if alen != blen {
        return false;
    }
    let mut i: usize = 0;
    while i < alen
        invariant
            i <= alen,
            alen == a@.len(),
            alen == b@.len(),
            forall|k: int| 0 <= k < i ==> a@[k] == b@[k],
        decreases alen - i,
    {
        if a.get_char(i) != b.get_char(i) {
            return false;
        }
        i = i + 1;
    }
    proof {
        assert(a@ =~= b@);
    }
    true
}

/// A set of names, kept ascending and free of duplicates while it is
/// built, then handed out as a vector. Both tools accumulate their output
/// through one of these.
pub struct NameSet {
    names: Vec<String>,
}

impl View for NameSet {
    type V = Seq<Seq<char>>;

    closed spec fn view(&self) -> Seq<Seq<char>> {
        views_of(self.names@)
    }
}

impl NameSet {
    /// The set's invariant: its names are strictly ascending.
    pub open spec fn wf(&self) -> bool {
        strictly_sorted(self@)
    }

    pub fn new() -> (s: Self)
        ensures
            s.wf(),
            s@ == Seq::<Seq<char>>::empty(),
    {
        let s = NameSet { names: Vec::new() };
        proof {
            assert(s@ =~= Seq::<Seq<char>>::empty());
        }
        s
    }

    /// Adds `name` to the set; adding a name that is already present
    /// changes nothing.
    pub fn insert(&mut self, name: String)
        requires
            old(self).wf(),
        ensures
            final(self).wf(),
            forall|t: Seq<char>|
                contains_seq(final(self)@, t) <==> (contains_seq(old(self)@, t) || t == name@),
    {
        let n: usize = self.names.len();
        let mut i: usize = 0;
        while i < n && str_lt(self.names[i].as_str(), name.as_str())
            invariant
                i <= n,
                n == self.names.len(),
                *self == *old(self),
                forall|k: int| 0 <= k < i ==> lex_lt(#[trigger] self@[k], name@),
            decreases n - i,
        {
            i = i + 1;
        }
        if i < n && self.names[i] == name {
            proof {
                assert(self@[i as int] == self.names@[i as int]@);
                assert(self@[i as int] == name@);
                assert(contains_seq(self@, name@));
            }
            return;
        }
        proof {
            if i < self.names@.len() {
                assert(!lex_lt(self@[i as int], name@));
                if self@[i as int] != name@ {
                    if !lex_lt(name@, self@[i as int]) {
                        lemma_lex_connected(name@, self@[i as int]);
                        assert(false);
                    }
                }
                assert(lex_lt(name@, self@[i as int]));
            }
        }
        let ghost old_views = self@;
        self.names.insert(i, name);
        proof {
            let nv = self@;
            assert(nv =~= old_views.insert(i as int, name@)) by {
                assert forall|k: int| 0 <= k < nv.len() implies nv[k] == old_views.insert(
                    i as int,
                    name@,
                )[k] by {
                    assert(nv[k] == self.names@[k]@);
                }
            }
            assert forall|p: int, q: int| 0 <= p < q < nv.len() implies lex_lt(
                nv[p],
                nv[q],
            ) by {
                if q < i {
                    assert(lex_lt(old_views[p], old_views[q]));
                } else if p < i && q == i {
                    assert(lex_lt(old_views[p], name@));
                } else if p < i && q > i {
                    assert(lex_lt(old_views[p], old_views[q - 1]));
                } else if p == i {
                    assert(lex_lt(name@, old_views[i as int]));
                    if q - 1 > i {
                        assert(lex_lt(old_views[i as int], old_views[q - 1]));
                        lemma_lex_trans(name@, old_views[i as int], old_views[q - 1]);
                    }
                } else {
                    assert(lex_lt(old_views[p - 1], old_views[q - 1]));
                }
            }
            assert forall|t: Seq<char>|
                contains_seq(nv, t) <==> (contains_seq(old_views, t) || t == name@) by {
                if contains_seq(nv, t) {
                    let k = choose|k: int| 0 <= k < nv.len() && nv[k] == t;
                    if k < i {
                        assert(old_views[k] == t);
                        assert(contains_seq(old_views, t));
                    } else if k > i {
                        assert(old_views[k - 1] == t);
                        assert(contains_seq(old_views, t));
                    }
                }
                if contains_seq(old_views, t) {
                    let k = choose|k: int| 0 <= k < old_views.len() && old_views[k] == t;
                    if k < i {
                        assert(nv[k] == t);
                    } else {
                        assert(nv[k + 1] == t);
                    }
                    assert(contains_seq(nv, t));
                }
                if t == name@ {
                    assert(nv[i as int] == t);
                    assert(contains_seq(nv, t));
                }
            }
        }
    }

    /// Hands the accumulated names out, in ascending order.
    pub fn into_names(self) -> (v: Vec<String>)
        ensures
            views_of(v@) == self@,
    {
        self.names
    }
}

} // verus!

//! The token/marking model: a net state is a sparse mapping from place to
//! token count with default-zero semantics.  The mapping is kept in a
//! canonical form (entries strictly sorted by place, zero counts never
//! stored), so that two markings with the same contents are equal as data
//! regardless of the order in which places were set.

use vstd::pervasive::VecAdditionalExecFns;
use vstd::prelude::*;

verus! {

/// A number of tokens in a place.
#[derive(Debug, Clone, Copy, PartialEq, Eq, Hash, Structural)]
pub struct Tokens(pub usize);

/// Identity of a place: a dense, zero-based index assigned once at net
/// construction.
#[derive(Debug, Clone, Copy, PartialEq, Eq, Hash, Structural)]
pub struct PlaceId(pub usize);

/// The entries are strictly sorted by place id, with no duplicates.
pub open spec fn sorted_distinct(s: Seq<(usize, usize)>) -> bool {
    forall|i: int, j: int| 0 <= i < j < s.len() ==> (#[trigger] s[i]).0 < (#[trigger] s[j]).0
}

/// Every stored entry carries a nonzero token count.
pub open spec fn all_positive(s: Seq<(usize, usize)>) -> bool {
    forall|i: int| 0 <= i < s.len() ==> (#[trigger] s[i]).1 > 0
}

/// Canonical form of a marking's entry list.
pub open spec fn wf_entries(s: Seq<(usize, usize)>) -> bool {
    sorted_distinct(s) && all_positive(s)
}

/// Some entry of `s` is for place `p`.
pub open spec fn has_place(s: Seq<(usize, usize)>, p: int) -> bool {
    exists|i: int| 0 <= i < s.len() && (#[trigger] s[i]).0 == p
}

/// The index of the entry for place `p` (meaningful when `has_place` holds
/// and the entries are sorted, which makes the index unique).
pub open spec fn place_index(s: Seq<(usize, usize)>, p: int) -> int {
    choose|i: int| 0 <= i < s.len() && (#[trigger] s[i]).0 == p
}

/// The token count that an entry list assigns to place `p`; places without
/// an entry hold zero tokens.
pub open spec fn count_in(s: Seq<(usize, usize)>, p: int) -> nat {
    if has_place(s, p) {
        s[place_index(s, p)].1 as nat
    } else {
        0
    }
}

/// The total map from places to token counts that an entry list denotes.
pub open spec fn entries_map(s: Seq<(usize, usize)>) -> Map<int, nat> {
    Map::new(|p: int| true, |p: int| count_in(s, p))
}

/// In a sorted entry list the entry at index `i` is the one `count_in` reads.
pub proof fn lemma_count_at_index(s: Seq<(usize, usize)>, i: int)
    requires
        sorted_distinct(s),
        0 <= i < s.len(),
    ensures
        count_in(s, s[i].0 as int) == s[i].1,
        has_place(s, s[i].0 as int),
        place_index(s, s[i].0 as int) == i,
{
    assert(has_place(s, s[i].0 as int));
    let k = place_index(s, s[i].0 as int);
    if k < i {
        assert(s[k].0 < s[i].0);
    } else if k > i {
        assert(s[i].0 < s[k].0);
    }
}

/// A place that no entry mentions holds zero tokens.
pub proof fn lemma_count_absent(s: Seq<(usize, usize)>, p: int)
    requires
        forall|i: int| 0 <= i < s.len() ==> (#[trigger] s[i]).0 != p,
    ensures
        count_in(s, p) == 0,
{
    assert(!has_place(s, p));
}

/// Canonical entry lists are unique: two well-formed lists that assign the
/// same count to every place are the same list.
pub proof fn lemma_canonical_unique(a: Seq<(usize, usize)>, b: Seq<(usize, usize)>)
    requires
        wf_entries(a),
        wf_entries(b),
        forall|p: int| count_in(a, p) == count_in(b, p),
    ensures
        a == b,
    decreases a.len(),
{
    if a.len() == 0 {
        if b.len() > 0 {
            lemma_count_at_index(b, 0);
            assert(count_in(a, b[0].0 as int) == 0) by {
                lemma_count_absent(a, b[0].0 as int);
            }
        }
        assert(a =~= b);
    } else {
        if b.len() == 0 {
            lemma_count_at_index(a, 0);
            lemma_count_absent(b, a[0].0 as int);
            assert(false);
        }
        // The head entries are for the same (minimal) place.
        lemma_count_at_index(a, 0);
        lemma_count_at_index(b, 0);
        assert(count_in(b, a[0].0 as int) == a[0].1 && a[0].1 > 0);
        assert(has_place(b, a[0].0 as int));
        let jb = place_index(b, a[0].0 as int);
        assert(b[0].0 <= b[jb].0);
        assert(has_place(a, b[0].0 as int)) by {
            if count_in(a, b[0].0 as int) == 0 {
                assert(count_in(b, b[0].0 as int) == 0);
                assert(false);
            }
        }
        let ja = place_index(a, b[0].0 as int);
        assert(a[0].0 <= a[ja].0);
        assert(a[0].0 == b[0].0);
        assert(a[0].1 == b[0].1) by {
            assert(count_in(a, a[0].0 as int) == count_in(b, a[0].0 as int));
        }
        let at = a.drop_first();
        let bt = b.drop_first();
        assert(wf_entries(at)) by {
            assert(forall|i: int| 0 <= i < at.len() ==> at[i] == a[i + 1]);
        }
        assert(wf_entries(bt)) by {
            assert(forall|i: int| 0 <= i < bt.len() ==> bt[i] == b[i + 1]);
        }
        assert forall|p: int| count_in(at, p) == count_in(bt, p) by {
            lemma_count_drop_first(a, p);
            lemma_count_drop_first(b, p);
        }
        lemma_canonical_unique(at, bt);
        assert(a =~= b) by {
            assert(forall|i: int| 1 <= i < a.len() ==> a[i] == at[i - 1] && b[i] == bt[i - 1]);
        }
    }
}

/// Dropping the head entry keeps the counts of all other places and zeroes
/// the head's own place.
pub proof fn lemma_count_drop_first(s: Seq<(usize, usize)>, p: int)
    requires
        wf_entries(s),
        s.len() > 0,
    ensures
        p == s[0].0 as int ==> count_in(s.drop_first(), p) == 0,
        p != s[0].0 as int ==> count_in(s.drop_first(), p) == count_in(s, p),
{
    let t = s.drop_first();
    assert(forall|i: int| 0 <= i < t.len() ==> t[i] == s[i + 1]);
    if p == s[0].0 as int {
        assert forall|i: int| 0 <= i < t.len() implies (#[trigger] t[i]).0 != p by {
            assert(s[0].0 < s[i + 1].0);
        }
        lemma_count_absent(t, p);
    } else {
        if has_place(s, p) {
            let i = place_index(s, p);
            assert(s[i].0 == p);
            assert(i != 0);
            assert(t[i - 1].0 == p);
            assert(sorted_distinct(t));
            lemma_count_at_index(t, i - 1);
            lemma_count_at_index(s, i);
        } else {
            assert forall|i: int| 0 <= i < t.len() implies (#[trigger] t[i]).0 != p by {
                assert(s[i + 1].0 != p);
            }
            lemma_count_absent(t, p);
        }
    }
}

/// A marking function maps each place of the net to the number of tokens it
/// holds; places never mentioned hold zero tokens.
pub trait MarkingFn: Sized {
    /// The number of tokens at place `p`.
    spec fn tokens_at(&self, p: int) -> nat;

    /// The representation invariant of the marking.
    spec fn inv(&self) -> bool;

    /// Get the marking at a place.
    fn get(&self, id: &PlaceId) -> (t: Tokens)
        requires
            self.inv(),
        ensures
            t.0 == self.tokens_at(id.0 as int),
    ;

    /// Set the marking at a place.
    fn set(&mut self, id: PlaceId, tokens: Tokens)
        requires
            old(self).inv(),
        ensures
            final(self).inv(),
            forall|p: int|
                final(self).tokens_at(p) == if p == id.0 as int {
                    tokens.0 as nat
                } else {
                    old(self).tokens_at(p)
                },
    ;
}

/// A marking: one full state of the net, as a sparse map from place to
/// token count in canonical form.
#[derive(Debug)]
pub struct Marking {
    /// The canonical entry list: `(place, tokens)` pairs, strictly sorted by
    /// place, zero counts never stored.
    pub entries: Vec<(usize, usize)>,
}

impl View for Marking {
    type V = Map<int, nat>;

    open spec fn view(&self) -> Map<int, nat> {
        entries_map(self.entries@)
    }
}

impl Marking {
    /// The representation invariant: entries strictly sorted by place and
    /// all counts nonzero.
    pub open spec fn wf(&self) -> bool {
        wf_entries(self.entries@)
    }

    /// The number of tokens the marking assigns to place `p`.
    pub open spec fn count(&self, p: int) -> nat {
        count_in(self.entries@, p)
    }

    /// Every place holding a token lies below `n`.
    pub open spec fn places_below(&self, n: int) -> bool {
        forall|p: int| p >= n ==> self.count(p) == 0
    }

    /// The empty marking: zero tokens on every place.
    pub fn new() -> (m: Marking)
        ensures
            m.wf(),
            forall|p: int| m.count(p) == 0,
    {
        let m = Marking { entries: Vec::new() };
        proof {
            assert forall|p: int| m.count(p) == 0 by {
                lemma_count_absent(m.entries@, p);
            }
        }
        m
    }

    /// Build a marking by setting the given pairs in order; a later pair for
    /// the same place overrides an earlier one.
    pub fn from_pairs(pairs: &Vec<(PlaceId, Tokens)>) -> (m: Marking)
        ensures
            m.wf(),
            forall|p: int| m.count(p) == pairs_count(pairs@, p),
    {
        let mut m = Marking::new();
        let mut i: usize = 0;
        while i < pairs.len()
            invariant
                i <= pairs.len(),
                m.wf(),
                forall|p: int| m.count(p) == pairs_count(pairs@.take(i as int), p),
            decreases pairs.len() - i,
        {
            let (id, tokens) = pairs[i];
            let ghost m0 = m;
            m.set(id, tokens);
            proof {
                assert(pairs@.take(i as int + 1).drop_last() =~= pairs@.take(i as int));
                assert(pairs@.take(i as int + 1).last() == pairs@[i as int]);
                assert forall|p: int|
                    m.count(p) == pairs_count(pairs@.take(i as int + 1), p) by {
                    assert(m.tokens_at(p) == m.count(p));
                    assert(m0.tokens_at(p) == m0.count(p));
                }
            }
            i += 1;
        }
        proof {
            assert(pairs@.take(pairs@.len() as int) =~= pairs@);
        }
        m
    }

    /// Returns true iff this marking is covered by `other`: on every place,
    /// `other` holds at least as many tokens.  Places absent from `self`
    /// need not be matched, since they hold zero tokens.
    pub fn covered_by(&self, other: &Self) -> (r: bool)
        requires
            self.wf(),
            other.wf(),
        ensures
            r == covered(self@, other@),
    {
        let mut i: usize = 0;
        while i < self.entries.len()
            invariant
                self.wf(),
                other.wf(),
                i <= self.entries.len(),
                forall|j: int|
                    0 <= j < i ==> count_in(self.entries@, (#[trigger] self.entries@[j]).0 as int)
                        <= count_in(other.entries@, self.entries@[j].0 as int),
            decreases self.entries.len() - i,
        {
            let (p, n) = self.entries[i];
            let t = other.get(&PlaceId(p));
            proof {
                lemma_count_at_index(self.entries@, i as int);
            }
            if t.0 < n {
                proof {
                    assert(self@[p as int] > other@[p as int]);
                }
                return false;
            }
            i += 1;
        }
        proof {
            assert forall|p: int| self@[p] <= other@[p] by {
                if has_place(self.entries@, p) {
                    let j = place_index(self.entries@, p);
                    lemma_count_at_index(self.entries@, j);
                }
            }
        }
        true
    }
}

/// A marking's view reads back its counts.
pub proof fn lemma_view_index(m: &Marking, p: int)
    ensures
        m@[p] == m.count(p),
{
}

/// A marking whose counts agree with another's except at one place views as
/// that marking's map with the one place overwritten.  The hypothesis is
/// exactly what `MarkingFn::set` ensures.
pub proof fn lemma_view_insert(m0: &Marking, m1: &Marking, p: int, v: nat)
    requires
        forall|q: int|
            m1.tokens_at(q) == if q == p {
                v
            } else {
                m0.tokens_at(q)
            },
    ensures
        m1@ == m0@.insert(p, v),
        forall|q: int|
            m1.count(q) == if q == p {
                v
            } else {
                m0.count(q)
            },
{
    assert forall|q: int|
        m1.count(q) == if q == p {
            v
        } else {
            m0.count(q)
        } by {
        assert(m1.tokens_at(q) == m1.count(q));
        assert(m0.tokens_at(q) == m0.count(q));
    }
    assert(m1@ =~= m0@.insert(p, v)) by {
        assert forall|q: int| m1@[q] == #[trigger] m0@.insert(p, v)[q] by {
            lemma_view_index(m0, q);
            lemma_view_index(m1, q);
        }
    }
}

/// Two markings with the same entry list have the same counts.
pub proof fn lemma_same_entries(m0: &Marking, m1: &Marking)
    requires
        m0.entries@ == m1.entries@,
    ensures
        forall|q: int| m0.count(q) == m1.count(q),
        m0@ == m1@,
{
    assert(m0@ =~= m1@) by {
        assert forall|q: int| #[trigger] m0@[q] == m1@[q] by {
            lemma_view_index(m0, q);
            lemma_view_index(m1, q);
        }
    }
}

/// Two markings with the same counts everywhere have the same view.
pub proof fn lemma_view_ext(m0: &Marking, m1: &Marking)
    requires
        forall|q: int| m0.count(q) == m1.count(q),
    ensures
        m0@ == m1@,
{
    assert(m0@ =~= m1@) by {
        assert forall|q: int| #[trigger] m0@[q] == m1@[q] by {
            lemma_view_index(m0, q);
            lemma_view_index(m1, q);
        }
    }
}

/// `a` is covered by `b`: `b` dominates `a` on every place.
pub open spec fn covered(a: Map<int, nat>, b: Map<int, nat>) -> bool {
    forall|p: int| #[trigger] a[p] <= b[p]
}

/// `covered_by` is reflexive: every marking covers itself.
pub proof fn lemma_covered_reflexive(a: Map<int, nat>)
    ensures
        covered(a, a),
{
}

/// The count that a pair list denotes at `p` after setting each pair in
/// order: the last pair for `p` wins, and absent places hold zero.
pub open spec fn pairs_count(pairs: Seq<(PlaceId, Tokens)>, p: int) -> nat
    decreases pairs.len(),
{
    if pairs.len() == 0 {
        0
    } else if pairs.last().0.0 as int == p {
        pairs.last().1.0 as nat
    } else {
        pairs_count(pairs.drop_last(), p)
    }
}

impl Clone for Marking {
    /// Cloning a marking preserves its entries, and so its counts.
    fn clone(&self) -> (r: Self)
        ensures
            r.entries@ == self.entries@,
            r@ == self@,
    {
        let mut entries: Vec<(usize, usize)> = Vec::new();
        let mut i: usize = 0;
        while i < self.entries.len()
            invariant
                i <= self.entries.len(),
                entries@ == self.entries@.take(i as int),
            decreases self.entries.len() - i,
        {
            let e = self.entries[i];
            entries.push(e);
            proof {
                assert(entries@ =~= self.entries@.take(i as int + 1));
            }
            i += 1;
        }
        proof {
            assert(entries@ =~= self.entries@);
        }
        Marking { entries }
    }
}

impl MarkingFn for Marking {
    open spec fn tokens_at(&self, p: int) -> nat {
        self.count(p)
    }

    open spec fn inv(&self) -> bool {
        self.wf()
    }

    fn get(&self, id: &PlaceId) -> (t: Tokens) {
        let p = id.0;
        let mut i: usize = 0;
        while i < self.entries.len()
            invariant
                i <= self.entries.len(),
                p == id.0,
                forall|j: int| 0 <= j < i ==> (#[trigger] self.entries@[j]).0 != p,
                self.wf(),
            decreases self.entries.len() - i,
        {
            if self.entries[i].0 == p {
                let result = Tokens(self.entries[i].1);
                proof {
                    lemma_count_at_index(self.entries@, i as int);
                    assert(result.0 == self.tokens_at(id.0 as int));
                }
                return result;
            }
            i += 1;
        }
        proof {
            lemma_count_absent(self.entries@, p as int);
        }
        Tokens(0)
    }

    fn set(&mut self, id: PlaceId, tokens: Tokens) {
        let p = id.0;
        let ghost s0 = self.entries@;
        let mut idx: usize = 0;
        while idx < self.entries.len() && self.entries[idx].0 < p
            invariant
                idx <= self.entries.len(),
                self.entries@ == s0,
                wf_entries(s0),
                forall|i: int| 0 <= i < idx ==> (#[trigger] s0[i]).0 < p,
            decreases self.entries.len() - idx,
        {
            idx += 1;
        }
        // idx is the position of the first entry at or beyond place p
        if idx < self.entries.len() && self.entries[idx].0 == p {
            if tokens.0 == 0 {
                self.entries.remove(idx);
                proof {
                    lemma_set_removed(s0, idx as int, self.entries@);
                }
            } else {
                self.entries.set(idx, (p, tokens.0));
                proof {
                    lemma_set_replaced(s0, idx as int, tokens.0, self.entries@);
                }
            }
        } else {
            if tokens.0 > 0 {
                self.entries.insert(idx, (p, tokens.0));
                proof {
                    lemma_set_inserted(s0, idx as int, p, tokens.0, self.entries@);
                }
            } else {
                proof {
                    assert forall|i: int| 0 <= i < s0.len() implies (#[trigger] s0[i]).0 != p by {
                        if i >= idx {
                            if i > idx {
                                assert(s0[idx as int].0 < s0[i].0);
                            }
                        }
                    }
                    lemma_count_absent(s0, p as int);
                }
            }
        }
    }
}

/// Removing the entry at `idx` zeroes its place and keeps every other count.
proof fn lemma_set_removed(s: Seq<(usize, usize)>, idx: int, r: Seq<(usize, usize)>)
    requires
        wf_entries(s),
        0 <= idx < s.len(),
        r == s.remove(idx),
    ensures
        wf_entries(r),
        forall|q: int|
            count_in(r, q) == if q == s[idx].0 as int {
                0
            } else {
                count_in(s, q)
            },
{
    let p = s[idx].0 as int;
    assert(forall|i: int| 0 <= i < idx ==> r[i] == s[i]);
    assert(forall|i: int| idx <= i < r.len() ==> r[i] == s[i + 1]);
    assert(wf_entries(r));
    assert forall|q: int|
        count_in(r, q) == if q == p {
            0
        } else {
            count_in(s, q)
        } by {
        if q == p {
            assert forall|i: int| 0 <= i < r.len() implies (#[trigger] r[i]).0 != q by {
                if i < idx {
                    assert(s[i].0 < s[idx].0);
                } else {
                    assert(s[idx].0 < s[i + 1].0);
                }
            }
            lemma_count_absent(r, q);
        } else {
            if has_place(s, q) {
                let i = place_index(s, q);
                lemma_count_at_index(s, i);
                if i < idx {
                    lemma_count_at_index(r, i);
                } else {
                    assert(i > idx);
                    lemma_count_at_index(r, i - 1);
                }
            } else {
                assert(forall|i: int| 0 <= i < s.len() ==> (#[trigger] s[i]).0 != q);
                assert forall|i: int| 0 <= i < r.len() implies (#[trigger] r[i]).0 != q by {
                    if i < idx {
                        assert(r[i] == s[i]);
                    } else {
                        assert(r[i] == s[i + 1]);
                    }
                }
                lemma_count_absent(s, q);
                lemma_count_absent(r, q);
            }
        }
    }
}

/// Overwriting the entry at `idx` with a nonzero count for the same place
/// updates that place and keeps every other count.
proof fn lemma_set_replaced(s: Seq<(usize, usize)>, idx: int, t: usize, r: Seq<(usize, usize)>)
    requires
        wf_entries(s),
        0 <= idx < s.len(),
        t > 0,
        r == s.update(idx, (s[idx].0, t)),
    ensures
        wf_entries(r),
        forall|q: int|
            count_in(r, q) == if q == s[idx].0 as int {
                t as nat
            } else {
                count_in(s, q)
            },
{
    let p = s[idx].0 as int;
    assert(forall|i: int| 0 <= i < r.len() && i != idx ==> r[i] == s[i]);
    assert(r[idx] == (s[idx].0, t));
    assert(forall|i: int| 0 <= i < r.len() ==> (#[trigger] r[i]).0 == s[i].0);
    assert(wf_entries(r));
    assert forall|q: int|
        count_in(r, q) == if q == p {
            t as nat
        } else {
            count_in(s, q)
        } by {
        if q == p {
            lemma_count_at_index(r, idx);
        } else {
            if has_place(s, q) {
                let i = place_index(s, q);
                lemma_count_at_index(s, i);
                assert(i != idx);
                lemma_count_at_index(r, i);
            } else {
                assert(forall|i: int| 0 <= i < s.len() ==> (#[trigger] s[i]).0 != q);
                assert(forall|i: int| 0 <= i < r.len() ==> (#[trigger] r[i]).0 != q);
                lemma_count_absent(s, q);
                lemma_count_absent(r, q);
            }
        }
    }
}

/// Inserting a fresh entry `(p, t)` at the sorted position `idx` gives `p`
/// the count `t` and keeps every other count.
proof fn lemma_set_inserted(s: Seq<(usize, usize)>, idx: int, p: usize, t: usize, r: Seq<
    (usize, usize),
>)
    requires
        wf_entries(s),
        0 <= idx <= s.len(),
        t > 0,
        forall|i: int| 0 <= i < idx ==> (#[trigger] s[i]).0 < p,
        forall|i: int| idx <= i < s.len() ==> (#[trigger] s[i]).0 > p,
        r == s.insert(idx, (p, t)),
    ensures
        wf_entries(r),
        forall|q: int|
            count_in(r, q) == if q == p as int {
                t as nat
            } else {
                count_in(s, q)
            },
{
    assert(forall|i: int| 0 <= i < idx ==> r[i] == s[i]);
    assert(r[idx] == (p, t));
    assert(forall|i: int| idx < i < r.len() ==> r[i] == s[i - 1]);
    assert(wf_entries(r));
    assert forall|q: int|
        count_in(r, q) == if q == p as int {
            t as nat
        } else {
            count_in(s, q)
        } by {
        if q == p as int {
            lemma_count_at_index(r, idx);
        } else {
            if has_place(s, q) {
                let i = place_index(s, q);
                lemma_count_at_index(s, i);
                if i < idx {
                    lemma_count_at_index(r, i);
                } else {
                    lemma_count_at_index(r, i + 1);
                }
            } else {
                assert(forall|i: int| 0 <= i < s.len() ==> (#[trigger] s[i]).0 != q);
                assert forall|i: int| 0 <= i < r.len() implies (#[trigger] r[i]).0 != q by {
                    if i < idx {
                        assert(r[i] == s[i]);
                    } else if i > idx {
                        assert(r[i] == s[i - 1]);
                    }
                }
                lemma_count_absent(s, q);
                lemma_count_absent(r, q);
            }
        }
    }
}

} // verus!

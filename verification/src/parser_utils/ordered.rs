//! Strictly increasing vectors as the canonical representation of finite
//! sets.  Every ordered collection in this crate (FIRST sets, item sets,
//! transition maps, parsing tables) is a strictly sorted, duplicate-free
//! vector, so a collection's contents determine its representation exactly;
//! this is what makes the whole construction pipeline deterministic.

use vstd::prelude::*;
use vstd::seq_lib::lemma_seq_contains_after_push;
use vstd::set_lib::lemma_len_subset;

verus! {

/// A key type with a decidable strict total order.
pub trait TotalOrdered: Sized + Copy {
    spec fn lt_spec(self, other: Self) -> bool;

    proof fn lemma_total(a: Self, b: Self, c: Self)
        ensures
            a.lt_spec(b) ==> !b.lt_spec(a) && a != b,
            a != b ==> a.lt_spec(b) || b.lt_spec(a),
            a.lt_spec(b) && b.lt_spec(c) ==> a.lt_spec(c),
    ;

    fn lt(&self, other: &Self) -> (r: bool)
        ensures
            r == self.lt_spec(*other),
    ;
}

/// `s` is in canonical (strictly increasing, duplicate-free) form.
pub open spec fn sorted_by<K: TotalOrdered>(s: Seq<K>) -> bool {
    forall|i: int, j: int| 0 <= i < j < s.len() ==> s[i].lt_spec(s[j])
}

/// A strictly increasing vector has no duplicate elements.
pub proof fn lemma_sorted_no_duplicates<K: TotalOrdered>(s: Seq<K>)
    requires
        sorted_by(s),
    ensures
        s.no_duplicates(),
{
    assert forall|i: int, j: int| 0 <= i < s.len() && 0 <= j < s.len() && i != j implies s[i]
        != s[j] by {
        if i < j {
            K::lemma_total(s[i], s[j], s[j]);
        } else {
            K::lemma_total(s[j], s[i], s[i]);
        }
    }
}

/// A strictly increasing vector whose elements all lie in the finite set `u`
/// is no longer than `u` is large.
pub proof fn lemma_sorted_len_le_card<K: TotalOrdered>(s: Seq<K>, u: Set<K>)
    requires
        sorted_by(s),
        forall|x: K| s.contains(x) ==> u.contains(x),
        u.finite(),
    ensures
        s.len() <= u.len(),
{
    lemma_sorted_no_duplicates(s);
    s.unique_seq_to_set();
    assert(s.to_set().subset_of(u));
    lemma_len_subset(s.to_set(), u);
}

/// Two strictly increasing vectors with the same elements are equal: the
/// canonical form of a finite set is unique.
pub proof fn lemma_sorted_unique<K: TotalOrdered>(a: Seq<K>, b: Seq<K>)
    requires
        sorted_by(a),
        sorted_by(b),
        forall|x: K| a.contains(x) <==> b.contains(x),
    ensures
        a == b,
    decreases a.len(),
{
    if a.len() == 0 {
        if b.len() > 0 {
            assert(b.contains(b[0]));
            assert(a.contains(b[0]));
        }
        assert(a =~= b);
    } else {
        assert(b.contains(a[0])) by {
            assert(a.contains(a[0]));
        }
        assert(a.contains(b[0])) by {
            assert(b.contains(b[0]));
        }
        let i = choose|i: int| 0 <= i < a.len() && a[i] == b[0];
        let j = choose|j: int| 0 <= j < b.len() && b[j] == a[0];
        assert(a[0] == b[0]) by {
            if i > 0 {
                assert(a[0].lt_spec(a[i]));
            }
            if j > 0 {
                assert(b[0].lt_spec(b[j]));
            }
            K::lemma_total(a[0], b[0], b[0]);
            K::lemma_total(b[0], a[0], a[0]);
        }
        let a1 = a.drop_first();
        let b1 = b.drop_first();
        assert forall|x: K| a1.contains(x) implies b1.contains(x) by {
            let k = choose|k: int| 0 <= k < a1.len() && a1[k] == x;
            assert(a[k + 1] == x);
            assert(a.contains(x));
            assert(b.contains(x));
            let m = choose|m: int| 0 <= m < b.len() && b[m] == x;
            assert(a[0].lt_spec(x));
            assert(m != 0) by {
                K::lemma_total(a[0], x, x);
            }
            assert(b1[m - 1] == x);
            assert(b1.contains(x));
        }
        assert forall|x: K| b1.contains(x) implies a1.contains(x) by {
            let k = choose|k: int| 0 <= k < b1.len() && b1[k] == x;
            assert(b[k + 1] == x);
            assert(b.contains(x));
            assert(a.contains(x));
            let m = choose|m: int| 0 <= m < a.len() && a[m] == x;
            assert(b[0].lt_spec(x));
            assert(m != 0) by {
                K::lemma_total(b[0], x, x);
            }
            assert(a1[m - 1] == x);
            assert(a1.contains(x));
        }
        lemma_sorted_unique(a1, b1);
        assert(a =~= b) by {
            assert(forall|k: int| 1 <= k < a.len() ==> a[k] == a1[k - 1] && b[k] == b1[k - 1]);
        }
    }
}

/// Membership test by linear scan; equality is decided through the order.
pub fn sorted_contains<K: TotalOrdered>(v: &Vec<K>, x: &K) -> (r: bool)
    ensures
        r == v@.contains(*x),
{
    let mut i: usize = 0;
    while i < v.len()
        invariant
            i <= v@.len(),
            forall|k: int| 0 <= k < i ==> v@[k] != *x,
        decreases v@.len() - i,
    {
        let below = v[i].lt(x);
        let above = x.lt(&v[i]);
        if !below && !above {
            proof {
                K::lemma_total(v@[i as int], *x, *x);
            }
            return true;
        }
        proof {
            K::lemma_total(v@[i as int], *x, *x);
        }
        i += 1;
    }
    false
}

/// Insert `x` into the sorted set `v`, keeping it sorted and duplicate-free.
pub fn sorted_insert<K: TotalOrdered>(v: &mut Vec<K>, x: K)
    requires
        sorted_by(old(v)@),
    ensures
        sorted_by(final(v)@),
        forall|y: K| #[trigger] final(v)@.contains(y) <==> (old(v)@.contains(y) || y == x),
        old(v)@.contains(x) ==> final(v)@ == old(v)@,
        !old(v)@.contains(x) ==> final(v)@.len() == old(v)@.len() + 1,
{
    let ghost orig = v@;
    let mut i: usize = 0;
    while i < v.len() && v[i].lt(&x)
        invariant
            v@ == orig,
            i <= v@.len(),
            forall|k: int| 0 <= k < i ==> v@[k].lt_spec(x),
        decreases v@.len() - i,
    {
        i += 1;
    }
    if i < v.len() {
        let found = !x.lt(&v[i]);
        if found {
            // `v[i]` is neither below nor above `x`, so it equals `x`.
            proof {
                K::lemma_total(v@[i as int], x, x);
                assert(v@[i as int] == x);
                assert(v@.contains(x));
                assert(forall|y: K| v@.contains(y) <==> (orig.contains(y) || y == x));
            }
            return ;
        }
    }
    proof {
        assert forall|k: int| i <= k < v@.len() implies x.lt_spec(v@[k]) by {
            if k > i {
                assert(v@[i as int].lt_spec(v@[k]));
                K::lemma_total(x, v@[i as int], v@[k]);
            }
        }
        assert(!orig.contains(x)) by {
            if orig.contains(x) {
                let k = choose|k: int| 0 <= k < orig.len() && orig[k] == x;
                if k < i {
                    K::lemma_total(orig[k], x, x);
                } else {
                    K::lemma_total(x, orig[k], orig[k]);
                }
            }
        }
    }
    v.insert(i, x);
    proof {
        let nw = v@;
        orig.insert_ensures(i as int, x);
        assert(forall|k: int| 0 <= k < i ==> nw[k] == orig[k]);
        assert(nw[i as int] == x);
        assert(forall|k: int| i < k < nw.len() ==> nw[k] == orig[k - 1]);
        assert forall|p: int, q: int| 0 <= p < q < nw.len() implies nw[p].lt_spec(nw[q]) by {
            if q < i {
                assert(orig[p].lt_spec(orig[q]));
            } else if p > i {
                assert(orig[p - 1].lt_spec(orig[q - 1]));
            } else if p < i && q == i {
                assert(orig[p].lt_spec(x));
            } else if p == i {
                assert(x.lt_spec(orig[q - 1]));
            } else {
                assert(orig[p].lt_spec(orig[q - 1]));
            }
        }
        assert forall|y: K| nw.contains(y) <==> (orig.contains(y) || y == x) by {
            if nw.contains(y) {
                let k = choose|k: int| 0 <= k < nw.len() && nw[k] == y;
                if k < i {
                    assert(orig[k] == y);
                    assert(orig.contains(y));
                } else if k > i {
                    assert(orig[k - 1] == y);
                    assert(orig.contains(y));
                }
            }
            if orig.contains(y) {
                let k = choose|k: int| 0 <= k < orig.len() && orig[k] == y;
                if k < i {
                    assert(nw[k] == y);
                } else {
                    assert(nw[k + 1] == y);
                }
                assert(nw.contains(y));
            }
            if y == x {
                assert(nw.contains(y));
            }
        }
    }
}

/// The union of two element sets in canonical form, as a value: the one
/// sorted vector holding exactly the elements of both.
pub open spec fn union_val<K: TotalOrdered>(a: Seq<K>, b: Seq<K>) -> Seq<K> {
    choose|r: Seq<K>|
        sorted_by(r) && (forall|y: K| #[trigger] r.contains(y) <==> (a.contains(y)
            || b.contains(y)))
}

/// Extend the sorted set `v` with every element of `other`.
pub fn sorted_union<K: TotalOrdered>(v: &mut Vec<K>, other: &Vec<K>)
    requires
        sorted_by(old(v)@),
    ensures
        sorted_by(final(v)@),
        forall|y: K|
            #[trigger] final(v)@.contains(y) <==> (old(v)@.contains(y) || other@.contains(y)),
        final(v)@ == union_val(old(v)@, other@),
{
    let ghost orig = v@;
    let mut i: usize = 0;
    while i < other.len()
        invariant
            sorted_by(v@),
            i <= other@.len(),
            forall|y: K|
                #[trigger] v@.contains(y) <==> (orig.contains(y) || other@.take(
                    i as int,
                ).contains(y)),
        decreases other@.len() - i,
    {
        let ghost before = v@;
        let x = other[i];
        sorted_insert(v, x);
        proof {
            assert(other@.take(i + 1) =~= other@.take(i as int).push(other@[i as int]));
            assert forall|y: K|
                #[trigger] v@.contains(y) <==> (orig.contains(y) || other@.take(i + 1).contains(
                    y,
                )) by {
                assert(before.contains(y) <==> (orig.contains(y) || other@.take(
                    i as int,
                ).contains(y)));
                lemma_seq_contains_after_push(other@.take(i as int), other@[i as int], y);
            }
        }
        i += 1;
    }
    proof {
        assert(other@.take(other@.len() as int) =~= other@);
        assert(forall|y: K|
            #[trigger] v@.contains(y) <==> (orig.contains(y) || other@.contains(y)));
        assert(exists|r: Seq<K>|
            #[trigger] sorted_by(r) && (forall|y: K| r.contains(y) <==> (orig.contains(y)
                || other@.contains(y)))) by {
            assert(sorted_by(v@) && (forall|y: K| v@.contains(y) <==> (orig.contains(y)
                || other@.contains(y))));
        }
        let u = union_val(orig, other@);
        assert(sorted_by(u) && (forall|y: K| #[trigger] u.contains(y) <==> (orig.contains(y)
            || other@.contains(y))));
        lemma_sorted_unique(v@, u);
    }
}

/// A union that added nothing left the sorted vector exactly as it was.
pub proof fn lemma_sorted_union_unchanged<K: TotalOrdered>(old_s: Seq<K>, new_s: Seq<K>, src: Seq<K>)
    requires
        sorted_by(old_s),
        sorted_by(new_s),
        forall|y: K| #[trigger] new_s.contains(y) <==> (old_s.contains(y) || src.contains(y)),
        new_s.len() == old_s.len(),
    ensures
        new_s == old_s,
{
    lemma_sorted_no_duplicates(old_s);
    lemma_sorted_no_duplicates(new_s);
    old_s.unique_seq_to_set();
    new_s.unique_seq_to_set();
    assert forall|y: K| old_s.contains(y) <==> new_s.contains(y) by {
        if new_s.contains(y) && !old_s.contains(y) {
            assert(old_s.to_set().subset_of(new_s.to_set().remove(y)));
            lemma_len_subset(old_s.to_set(), new_s.to_set().remove(y));
            assert(new_s.to_set().remove(y).len() == new_s.to_set().len() - 1);
            assert(false);
        }
    }
    lemma_sorted_unique(old_s, new_s);
}

impl TotalOrdered for u64 {
    open spec fn lt_spec(self, other: Self) -> bool {
        self < other
    }

    proof fn lemma_total(a: Self, b: Self, c: Self) {
    }

    fn lt(&self, other: &Self) -> (r: bool) {
        *self < *other
    }
}

impl TotalOrdered for usize {
    open spec fn lt_spec(self, other: Self) -> bool {
        self < other
    }

    proof fn lemma_total(a: Self, b: Self, c: Self) {
    }

    fn lt(&self, other: &Self) -> (r: bool) {
        *self < *other
    }
}

/// A set of terminal codes in canonical form.
pub open spec fn term_sorted(s: Seq<u64>) -> bool {
    sorted_by(s)
}

} // verus!

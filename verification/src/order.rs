//! The order of type names: lexicographic by character.
//!
//! The index enumerates its names in this order, which is the order that
//! the strings themselves have.

use vstd::prelude::*;

verus! {

/// `a` comes strictly before `b`: at the first position where they differ
/// `a` holds the smaller character, or `a` ends there and `b` goes on.
pub open spec fn precedes(a: Seq<char>, b: Seq<char>) -> bool
    decreases a.len(),
{
    if b.len() == 0 {
        false
    } else if a.len() == 0 {
        true
    } else if a[0] != b[0] {
        a[0] < b[0]
    } else {
        precedes(a.drop_first(), b.drop_first())
    }
}

/// Each name of `names` comes strictly before every later one.
pub open spec fn ascending(names: Seq<Seq<char>>) -> bool {
    forall|i: int, j: int| 0 <= i < j < names.len() ==> precedes(names[i], names[j])
}

/// No name comes before itself.
pub proof fn lemma_precedes_irreflexive(a: Seq<char>)
    ensures
        !precedes(a, a),
    decreases a.len(),
{
    if a.len() > 0 {
        lemma_precedes_irreflexive(a.drop_first());
    }
}

/// Of two different names one comes before the other.
pub proof fn lemma_precedes_total(a: Seq<char>, b: Seq<char>)
    ensures
        a == b || precedes(a, b) || precedes(b, a),
    decreases a.len(),
{
    if a.len() == 0 || b.len() == 0 {
        if a.len() == 0 && b.len() == 0 {
            assert(a =~= b);
        }
    } else if a[0] == b[0] {
        lemma_precedes_total(a.drop_first(), b.drop_first());
        if a.drop_first() == b.drop_first() {
            assert(a =~= seq![a[0]] + a.drop_first());
            assert(b =~= seq![b[0]] + b.drop_first());
        }
    }
}

/// Never does `a` come before `b` and `b` before `a`.
pub proof fn lemma_precedes_asymmetric(a: Seq<char>, b: Seq<char>)
    ensures
        !(precedes(a, b) && precedes(b, a)),
    decreases a.len(),
{
    if a.len() > 0 && b.len() > 0 && a[0] == b[0] {
        lemma_precedes_asymmetric(a.drop_first(), b.drop_first());
    }
}

/// Where `a` comes before `b` and `b` before `c`, `a` comes before `c`.
pub proof fn lemma_precedes_transitive(a: Seq<char>, b: Seq<char>, c: Seq<char>)
    requires
        precedes(a, b),
        precedes(b, c),
    ensures
        precedes(a, c),
    decreases a.len(),
{
    if a.len() > 0 && b.len() > 0 && c.len() > 0 && a[0] == b[0] && b[0] == c[0] {
        lemma_precedes_transitive(a.drop_first(), b.drop_first(), c.drop_first());
    }
}

/// The names of an ascending sequence are pairwise different.
pub proof fn lemma_ascending_distinct(names: Seq<Seq<char>>)
    requires
        ascending(names),
    ensures
        names.no_duplicates(),
{
    assert forall|i: int, j: int| 0 <= i < names.len() && 0 <= j < names.len() && i != j implies names[i]
        != names[j] by {
        lemma_precedes_irreflexive(names[i]);
        if i < j {
            assert(precedes(names[i], names[j]));
        } else {
            assert(precedes(names[j], names[i]));
        }
    }
}

/// Two ascending sequences that hold the same names are the same sequence:
/// a set of names has one ascending enumeration.
pub proof fn lemma_ascending_unique(x: Seq<Seq<char>>, y: Seq<Seq<char>>)
    requires
        ascending(x),
        ascending(y),
        x.to_set() == y.to_set(),
    ensures
        x == y,
    decreases x.len(),
{
    lemma_ascending_distinct(x);
    lemma_ascending_distinct(y);
    x.unique_seq_to_set();
    y.unique_seq_to_set();
    assert(x.len() == y.len());
    if x.len() > 0 {
        let n = x.len() - 1;
        // The last name of each is the greatest of the set, so they agree.
        let a = x[n];
        let b = y[n];
        assert(x.to_set().contains(a));
        assert(y.contains(a));
        let ia = choose|i: int| 0 <= i < y.len() && y[i] == a;
        assert(y.to_set().contains(b));
        assert(x.contains(b));
        let ib = choose|i: int| 0 <= i < x.len() && x[i] == b;
        if a != b {
            assert(ia < n);
            assert(ib < n);
            assert(precedes(y[ia], y[n]));
            assert(precedes(x[ib], x[n]));
            lemma_precedes_asymmetric(a, b);
        }
        let x1 = x.drop_last();
        let y1 = y.drop_last();
        assert forall|i: int, j: int| 0 <= i < j < x1.len() implies precedes(x1[i], x1[j]) by {
            assert(x1[i] == x[i] && x1[j] == x[j]);
        }
        assert forall|i: int, j: int| 0 <= i < j < y1.len() implies precedes(y1[i], y1[j]) by {
            assert(y1[i] == y[i] && y1[j] == y[j]);
        }
        assert forall|k: Seq<char>| x1.to_set().contains(k) <==> y1.to_set().contains(k) by {
            if x1.contains(k) {
                let i = choose|i: int| 0 <= i < x1.len() && x1[i] == k;
                assert(x[i] == k);
                assert(x.to_set().contains(k));
                assert(y.contains(k));
                let j = choose|j: int| 0 <= j < y.len() && y[j] == k;
                assert(j != n);
                assert(y1[j] == k);
            }
            if y1.contains(k) {
                let i = choose|i: int| 0 <= i < y1.len() && y1[i] == k;
                assert(y[i] == k);
                assert(y.to_set().contains(k));
                assert(x.contains(k));
                let j = choose|j: int| 0 <= j < x.len() && x[j] == k;
                assert(j != n);
                assert(x1[j] == k);
            }
        }
        assert(x1.to_set() =~= y1.to_set());
        lemma_ascending_unique(x1, y1);
        assert(x =~= x1.push(a));
        assert(y =~= y1.push(b));
    } else {
        assert(x =~= y);
    }
}

/// Whether `a` comes strictly before `b`.
pub fn chars_precede(a: &Vec<char>, b: &Vec<char>) -> (r: bool)
    ensures
        r == precedes(a@, b@),
{
    let mut i: usize = 0;
    proof {
        assert(a@.skip(0) =~= a@);
        assert(b@.skip(0) =~= b@);
    }
    while i < a.len() && i < b.len() && a[i] == b[i]
        invariant
            i <= a.len(),
            i <= b.len(),
            precedes(a@, b@) == precedes(a@.skip(i as int), b@.skip(i as int)),
        decreases a.len() - i,
    {
        proof {
            let x = a@.skip(i as int);
            let y = b@.skip(i as int);
            assert(x[0] == a@[i as int] && y[0] == b@[i as int]);
            assert(x.drop_first() =~= a@.skip(i + 1));
            assert(y.drop_first() =~= b@.skip(i + 1));
        }
        i += 1;
    }
    proof {
        let x = a@.skip(i as int);
        let y = b@.skip(i as int);
        if i < a.len() {
            assert(x[0] == a@[i as int]);
        }
        if i < b.len() {
            assert(y[0] == b@[i as int]);
        }
    }
    if i == b.len() {
        false
    } else if i == a.len() {
        true
    } else {
        a[i] < b[i]
    }
}

} // verus!

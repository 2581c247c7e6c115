//! Sets of message values held as duplicate-free vectors.
use vstd::prelude::*;

verus! {

/// Whether `x` occurs in `v`.
pub fn has_value(v: &Vec<u32>, x: u32) -> (r: bool)
    ensures
        r == v@.contains(x),
{
    let mut i: usize = 0;
    while i < v.len()
        invariant
            i <= v.len(),
            forall|k: int| 0 <= k < i ==> v@[k] != x,
        decreases v.len() - i,
    {
        if v[i] == x {
            return true;
        }
        i += 1;
    }
    false
}

/// Adds `x` to the set held by `v`; a value already there is left alone.
pub fn add_value(v: &mut Vec<u32>, x: u32)
    requires
        old(v)@.no_duplicates(),
    ensures
        final(v)@.no_duplicates(),
        final(v)@.to_set() == old(v)@.to_set().insert(x),
{
    if !has_value(v, x) {
        v.push(x);
        assert(v@.to_set() =~= old(v)@.to_set().insert(x)) by {
            assert(v@.last() == x);
            assert forall|a: u32| old(v)@.contains(a) implies v@.contains(a) by {
                let k = choose|k: int| 0 <= k < old(v)@.len() && old(v)@[k] == a;
                assert(v@[k] == a);
            }
        }
    }
}

/// Adds every value of `xs` to the set held by `v`.
pub fn add_values(v: &mut Vec<u32>, xs: &Vec<u32>)
    requires
        old(v)@.no_duplicates(),
    ensures
        final(v)@.no_duplicates(),
        final(v)@.to_set() == old(v)@.to_set() + xs@.to_set(),
{
    let mut i: usize = 0;
    while i < xs.len()
        invariant
            i <= xs.len(),
            v@.no_duplicates(),
            v@.to_set() == old(v)@.to_set() + xs@.take(i as int).to_set(),
        decreases xs.len() - i,
    {
        add_value(v, xs[i]);
        assert(xs@.take(i + 1) =~= xs@.take(i as int).push(xs@[i as int]));
        i += 1;
        proof {
            lemma_push_to_set(xs@.take(i - 1), xs@[i - 1]);
        }
    }
    assert(xs@.take(xs.len() as int) =~= xs@);
}

/// The values of `v` that `acked` does not hold, in the order of `v`.
pub fn values_missing_from(v: &Vec<u32>, acked: &Vec<u32>) -> (r: Vec<u32>)
    requires
        v@.no_duplicates(),
    ensures
        r@.no_duplicates(),
        r@.to_set() == v@.to_set() - acked@.to_set(),
{
    let mut r: Vec<u32> = Vec::new();
    let mut i: usize = 0;
    while i < v.len()
        invariant
            i <= v.len(),
            v@.no_duplicates(),
            r@.no_duplicates(),
            r@.to_set() == v@.take(i as int).to_set() - acked@.to_set(),
            forall|a: u32| r@.contains(a) ==> v@.take(i as int).contains(a),
        decreases v.len() - i,
    {
        let x = v[i];
        assert(v@.take(i + 1) =~= v@.take(i as int).push(x));
        proof {
            lemma_push_to_set(v@.take(i as int), x);
        }
        if !has_value(acked, x) {
            assert(!r@.contains(x)) by {
                if r@.contains(x) {
                    let k = choose|k: int| 0 <= k < i && v@.take(i as int)[k] == x;
                    assert(v@[k] == v@[i as int]);
                }
            }
            let ghost before = r@;
            r.push(x);
            proof {
                lemma_push_to_set(before, x);
                assert(r@ == before.push(x));
                assert forall|a: u32| r@.contains(a) implies v@.take(i + 1).contains(a) by {
                    if a != x {
                        assert(before.contains(a));
                        let k = choose|k: int| 0 <= k < i && v@.take(i as int)[k] == a;
                        assert(v@.take(i + 1)[k] == a);
                    } else {
                        assert(v@.take(i + 1)[i as int] == x);
                    }
                }
                assert(r@.no_duplicates()) by {
                    assert forall|p: int, q: int| 0 <= p < r@.len() && 0 <= q < r@.len() && p != q
                        implies r@[p] != r@[q] by {
                        if q == before.len() as int {
                            assert(before.contains(before[p]));
                        } else if p == before.len() as int {
                            assert(before.contains(before[q]));
                        }
                    }
                }
            }
            assert(r@.to_set() =~= v@.take(i + 1).to_set() - acked@.to_set());
        } else {
            assert(r@.to_set() =~= v@.take(i + 1).to_set() - acked@.to_set());
            assert forall|a: u32| r@.contains(a) implies v@.take(i + 1).contains(a) by {
                let k = choose|k: int| 0 <= k < i && v@.take(i as int)[k] == a;
                assert(v@.take(i + 1)[k] == a);
            }
        }
        i += 1;
    }
    assert(v@.take(v.len() as int) =~= v@);
    r
}

/// The values of `v` that `a` or `b` holds, in the order of `v`.
pub fn values_found_in(v: &Vec<u32>, a: &Vec<u32>, b: &Vec<u32>) -> (r: Vec<u32>)
    requires
        v@.no_duplicates(),
    ensures
        r@.no_duplicates(),
        r@.to_set() == v@.to_set().intersect(a@.to_set() + b@.to_set()),
{
    let mut r: Vec<u32> = Vec::new();
    let mut i: usize = 0;
    while i < v.len()
        invariant
            i <= v.len(),
            v@.no_duplicates(),
            r@.no_duplicates(),
            r@.to_set() == v@.take(i as int).to_set().intersect(a@.to_set() + b@.to_set()),
            forall|x: u32| r@.contains(x) ==> v@.take(i as int).contains(x),
        decreases v.len() - i,
    {
        let x = v[i];
        assert(v@.take(i + 1) =~= v@.take(i as int).push(x));
        proof {
            lemma_push_to_set(v@.take(i as int), x);
        }
        if has_value(a, x) || has_value(b, x) {
            assert(!r@.contains(x)) by {
                if r@.contains(x) {
                    let k = choose|k: int| 0 <= k < i && v@.take(i as int)[k] == x;
                    assert(v@[k] == v@[i as int]);
                }
            }
            let ghost before = r@;
            r.push(x);
            proof {
                lemma_push_to_set(before, x);
                assert(r@ == before.push(x));
                assert forall|y: u32| r@.contains(y) implies v@.take(i + 1).contains(y) by {
                    if y != x {
                        assert(before.contains(y));
                        let k = choose|k: int| 0 <= k < i && v@.take(i as int)[k] == y;
                        assert(v@.take(i + 1)[k] == y);
                    } else {
                        assert(v@.take(i + 1)[i as int] == x);
                    }
                }
                assert(r@.no_duplicates()) by {
                    assert forall|p: int, q: int| 0 <= p < r@.len() && 0 <= q < r@.len() && p != q
                        implies r@[p] != r@[q] by {
                        if q == before.len() as int {
                            assert(before.contains(before[p]));
                        } else if p == before.len() as int {
                            assert(before.contains(before[q]));
                        }
                    }
                }
            }
            assert(r@.to_set() =~= v@.take(i + 1).to_set().intersect(a@.to_set() + b@.to_set()));
        } else {
            assert(r@.to_set() =~= v@.take(i + 1).to_set().intersect(a@.to_set() + b@.to_set()));
            assert forall|y: u32| r@.contains(y) implies v@.take(i + 1).contains(y) by {
                let k = choose|k: int| 0 <= k < i && v@.take(i as int)[k] == y;
                assert(v@.take(i + 1)[k] == y);
            }
        }
        i += 1;
    }
    assert(v@.take(v.len() as int) =~= v@);
    r
}

/// A vector of values holds none exactly when its set is empty.
pub proof fn lemma_empty_to_set(s: Seq<u32>)
    ensures
        (s.len() == 0) == (s.to_set() == Set::<u32>::empty()),
{
    if s.len() == 0 {
        assert(s.to_set() =~= Set::<u32>::empty());
    } else {
        assert(s.to_set().contains(s[0]));
    }
}

/// The set of a sequence with one more value is the old set with that value.
pub proof fn lemma_push_to_set(s: Seq<u32>, x: u32)
    ensures
        s.push(x).to_set() == s.to_set().insert(x),
{
    assert forall|a: u32| s.contains(a) implies s.push(x).contains(a) by {
        let k = choose|k: int| 0 <= k < s.len() && s[k] == a;
        assert(s.push(x)[k] == a);
    }
    assert forall|a: u32| s.push(x).contains(a) && a != x implies s.contains(a) by {
        let k = choose|k: int| 0 <= k < s.len() + 1 && s.push(x)[k] == a;
        assert(s[k] == a);
    }
    assert(s.push(x)[s.len() as int] == x);
    assert(s.push(x).to_set() =~= s.to_set().insert(x));
}

} // verus!

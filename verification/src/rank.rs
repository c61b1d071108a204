use vstd::prelude::*;

verus! {

/// A ranked list entry: a node position paired with its distance to the query
/// under consideration.
pub type Ranked = (usize, u64);

/// Ascending by distance.
pub open spec fn sorted_ranked(s: Seq<Ranked>) -> bool {
    forall|a: int, b: int| 0 <= a < b < s.len() ==> (#[trigger] s[a]).1 <= (#[trigger] s[b]).1
}

/// No position occurs twice.
pub open spec fn distinct_ranked(s: Seq<Ranked>) -> bool {
    forall|a: int, b: int| 0 <= a < b < s.len() ==> (#[trigger] s[a]).0 != (#[trigger] s[b]).0
}

/// Inserts `(idx, d)` into an ascending list, keeping it ascending; a list
/// that would exceed `cap` entries loses its worst (last) entry. Entries of
/// equal distance keep their relative order, the new entry placed after them.
pub fn insert_ranked(list: &mut Vec<Ranked>, idx: usize, d: u64, cap: usize)
    requires
        cap >= 1,
        sorted_ranked(old(list)@),
        old(list)@.len() <= cap,
    ensures
        sorted_ranked(final(list)@),
        final(list)@.len() == if old(list)@.len() < cap {
            old(list)@.len() + 1int
        } else {
            cap as int
        },
        forall|t: int|
            0 <= t < final(list)@.len() ==> (#[trigger] final(list)@[t]) == (idx, d) || old(
                list,
            )@.contains(final(list)@[t]),
        old(list)@.len() < cap ==> exists|p: int|
            0 <= p <= old(list)@.len() && final(list)@ == old(list)@.insert(p, (idx, d)),
        old(list)@.len() > 0 ==> final(list)@[0].1 <= old(list)@[0].1,
        (distinct_ranked(old(list)@) && (forall|t: int|
            0 <= t < old(list)@.len() ==> (#[trigger] old(list)@[t]).0 != idx)) ==> distinct_ranked(
            final(list)@,
        ),
{
    let ghost orig = list@;
    let mut p: usize = 0;
    while p < list.len() && list[p].1 <= d
        invariant
            p <= list@.len(),
            list@ == orig,
            forall|t: int| 0 <= t < p ==> (#[trigger] list@[t]).1 <= d,
        decreases list@.len() - p,
    {
        p += 1;
    }
    assert(forall|t: int| p <= t < orig.len() ==> (#[trigger] orig[t]).1 >= orig[p as int].1);
    list.insert(p, (idx, d));
    proof {
        let mid = orig.insert(p as int, (idx, d));
        assert(forall|t: int| 0 <= t < p ==> mid[t] == orig[t]);
        assert(mid[p as int] == (idx, d));
        assert(forall|t: int| p < t < mid.len() ==> mid[t] == orig[t - 1]);
        assert(sorted_ranked(mid));
        assert(forall|t: int| 0 <= t < mid.len() ==> mid[t] == (idx, d) || orig.contains(mid[t]))
            by {
            assert forall|t: int| 0 <= t < mid.len() && mid[t] != (idx, d) implies orig.contains(
                mid[t],
            ) by {
                if t < p {
                    assert(orig[t] == mid[t]);
                } else {
                    assert(orig[t - 1] == mid[t]);
                }
            }
        }
        if distinct_ranked(orig) && (forall|t: int|
            0 <= t < orig.len() ==> (#[trigger] orig[t]).0 != idx) {
            assert forall|a: int, b: int| 0 <= a < b < mid.len() implies (mid[a]).0 != (
            mid[b]).0 by {
                let oa: int = if a < p { a } else { a - 1 };
                let ob: int = if b < p { b } else { b - 1 };
                if a == p {
                    assert(mid[b].0 == orig[ob].0);
                } else if b == p {
                    assert(mid[a].0 == orig[oa].0);
                } else {
                    assert(mid[a].0 == orig[oa].0 && mid[b].0 == orig[ob].0);
                }
            }
        }
    }
    if list.len() > cap {
        list.pop();
        proof {
            let mid = orig.insert(p as int, (idx, d));
            assert(list@ =~= mid.subrange(0, cap as int));
            assert(forall|t: int| 0 <= t < list@.len() ==> list@[t] == mid[t]);
        }
    }
}

} // verus!

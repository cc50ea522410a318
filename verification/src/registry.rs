//! The order in which registered validators are visited.

use crate::types::ValidatorId;
use vstd::prelude::*;
use vstd::relations::*;
use vstd::seq_lib::*;

verus! {

/// The identifiers `ids`, each once, the smallest first.
pub open spec fn ascending(ids: Set<ValidatorId>) -> Seq<ValidatorId> {
    ids.to_sorted_seq(|a: ValidatorId, b: ValidatorId| a.0 <= b.0)
}

/// Whether `s` lists exactly the identifiers `ids`, and each identifier in
/// it is greater than the one before.
pub open spec fn lists_ascending(s: Seq<ValidatorId>, ids: Set<ValidatorId>) -> bool {
    &&& forall|i: int, j: int| 0 <= i < j < s.len() ==> s[i].0 < s[j].0
    &&& forall|id: ValidatorId| s.contains(id) <==> ids.contains(id)
}

proof fn lemma_to_seq_distinct<A>(s: Set<A>)
    requires
        s.finite(),
    ensures
        s.to_seq().no_duplicates(),
        s.to_seq().len() == s.len(),
    decreases s.len(),
{
    broadcast use vstd::set::group_set_axioms;

    if s.len() != 0 {
        let x = s.choose();
        let rest = s.remove(x);
        lemma_to_seq_distinct(rest);
        rest.lemma_to_seq_to_set_id();
        let tail = rest.to_seq();
        assert(!tail.contains(x)) by {
            if tail.contains(x) {
                assert(tail.to_set().contains(x));
            }
        }
        assert(s.to_seq() =~= seq![x] + tail);
    }
}

/// Two sequences without repetitions that hold the same values hold each
/// as often as the other.
proof fn lemma_same_values_same_multiset<A>(s: Seq<A>, t: Seq<A>)
    requires
        s.no_duplicates(),
        t.no_duplicates(),
        forall|a: A| s.contains(a) <==> t.contains(a),
    ensures
        s.to_multiset() == t.to_multiset(),
{
    broadcast use vstd::multiset::group_multiset_axioms;

    s.lemma_multiset_has_no_duplicates();
    t.lemma_multiset_has_no_duplicates();
    assert forall|a: A| s.to_multiset().count(a) == t.to_multiset().count(a) by {
        to_multiset_contains(s, a);
        to_multiset_contains(t, a);
    }
    assert(s.to_multiset() =~= t.to_multiset());
}

/// The ascending listing of a finite set of identifiers lists exactly that
/// set, in strictly growing order.
pub proof fn lemma_ascending(ids: Set<ValidatorId>)
    requires
        ids.finite(),
    ensures
        lists_ascending(ascending(ids), ids),
        ascending(ids).len() == ids.len(),
{
    let leq = |a: ValidatorId, b: ValidatorId| a.0 <= b.0;
    let raw = ids.to_seq();
    let s = ascending(ids);
    assert(total_ordering(leq));
    lemma_to_seq_distinct(ids);
    ids.lemma_to_seq_to_set_id();
    raw.lemma_sort_by_ensures(leq);
    raw.lemma_multiset_has_no_duplicates();
    s.lemma_multiset_has_no_duplicates_conv();
    to_multiset_len(raw);
    to_multiset_len(s);
    assert forall|id: ValidatorId| s.contains(id) <==> ids.contains(id) by {
        to_multiset_contains(raw, id);
        to_multiset_contains(s, id);
        assert(raw.contains(id) <==> raw.to_set().contains(id));
    }
    assert forall|i: int, j: int| 0 <= i < j < s.len() implies s[i].0 < s[j].0 by {
        assert(leq(s[i], s[j]));
        assert(s[i] != s[j]);
    }
}

/// There is only one way to list a finite set of identifiers in strictly
/// growing order.
pub proof fn lemma_ascending_unique(s: Seq<ValidatorId>, ids: Set<ValidatorId>)
    requires
        ids.finite(),
        lists_ascending(s, ids),
    ensures
        s == ascending(ids),
{
    let leq = |a: ValidatorId, b: ValidatorId| a.0 <= b.0;
    let t = ascending(ids);
    lemma_ascending(ids);
    assert(total_ordering(leq));
    assert(sorted_by(s, leq));
    assert(sorted_by(t, leq));
    lemma_same_values_same_multiset(s, t);
    lemma_sorted_unique(s, t, leq);
}

} // verus!

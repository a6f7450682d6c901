//! Positions in a sequence that a condition holds of.
use vstd::prelude::*;

verus! {

/// `places` are the positions below `n` that `p` holds of, in ascending order.
pub open spec fn are_places(places: Seq<int>, n: nat, p: spec_fn(int) -> bool) -> bool {
    &&& forall|i: int, j: int| 0 <= i < j < places.len() ==> places[i] < places[j]
    &&& forall|i: int| 0 <= i < places.len() ==> 0 <= #[trigger] places[i] < n && p(places[i])
    &&& forall|k: int| 0 <= k < n && #[trigger] p(k) ==> places.contains(k)
}

/// The elements of `part` are those of `whole` at the given places.
pub open spec fn stand_at<T>(part: Seq<T>, whole: Seq<T>, places: Seq<int>) -> bool {
    &&& part.len() == places.len()
    &&& forall|i: int| 0 <= i < places.len() ==> #[trigger] part[i] == whole[places[i]]
}

/// The number of positions below `n` that `p` holds of.
pub open spec fn number_of_places(n: nat, p: spec_fn(int) -> bool) -> nat {
    Set::new(|k: int| 0 <= k < n && p(k)).len()
}

/// What a filter leaves of a sequence stands at the places of what it keeps.
pub proof fn lemma_filter_places<T>(s: Seq<T>, p: spec_fn(T) -> bool) -> (places: Seq<int>)
    ensures
        are_places(places, s.len(), |k: int| p(s[k])),
        s.filter(p).len() == places.len(),
        forall|i: int| 0 <= i < places.len() ==> #[trigger] s.filter(p)[i] == s[places[i]],
    decreases s.len(),
{
    reveal(Seq::filter);
    if s.len() == 0 {
        Seq::empty()
    } else {
        let shorter = s.drop_last();
        let last = s.len() - 1;
        let q = |k: int| p(shorter[k]);
        let r = |k: int| p(s[k]);
        let before = lemma_filter_places(shorter, p);
        assert forall|k: int| 0 <= k < last implies #[trigger] q(k) == r(k) by {
            assert(shorter[k] == s[k]);
        }
        if p(s.last()) {
            let places = before.push(last);
            assert forall|k: int| 0 <= k < s.len() && #[trigger] r(k) implies places.contains(
                k,
            ) by {
                if k < last {
                    assert(q(k));
                    let i = choose|i: int| 0 <= i < before.len() && before[i] == k;
                    assert(places[i] == k);
                } else {
                    assert(places[before.len() as int] == k);
                }
            }
            assert forall|i: int| 0 <= i < places.len() implies 0 <= #[trigger] places[i] < s.len()
                && r(places[i]) by {
                if i < before.len() {
                    assert(places[i] == before[i]);
                    assert(q(before[i]));
                }
            }
            assert forall|i: int| 0 <= i < places.len() implies #[trigger] s.filter(p)[i]
                == s[places[i]] by {
                if i < before.len() {
                    assert(shorter.filter(p)[i] == shorter[before[i]]);
                }
            }
            places
        } else {
            assert forall|k: int| 0 <= k < s.len() && #[trigger] r(k) implies before.contains(
                k,
            ) by {
                assert(q(k));
            }
            assert forall|i: int| 0 <= i < before.len() implies 0 <= #[trigger] before[i] < s.len()
                && r(before[i]) by {
                assert(q(before[i]));
            }
            assert forall|i: int| 0 <= i < before.len() implies #[trigger] s.filter(p)[i]
                == s[before[i]] by {
                assert(shorter.filter(p)[i] == shorter[before[i]]);
            }
            before
        }
    }
}

/// The places of a condition are as many as the positions that it holds of.
pub proof fn lemma_number_of_places(places: Seq<int>, n: nat, p: spec_fn(int) -> bool)
    requires
        are_places(places, n, p),
    ensures
        number_of_places(n, p) == places.len(),
{
    let all = Set::new(|k: int| 0 <= k < n && p(k));
    assert(places.no_duplicates());
    places.unique_seq_to_set();
    assert(places.to_set() =~= all) by {
        assert forall|k: int| places.to_set().contains(k) <==> all.contains(k) by {
            if all.contains(k) {
                assert(p(k));
                assert(places.contains(k));
            }
            if places.to_set().contains(k) {
                assert(places.contains(k));
                let i = choose|i: int| 0 <= i < places.len() && places[i] == k;
                assert(p(places[i]));
            }
        }
    }
}

} // verus!

//! Sets of names, kept as vectors in strictly ascending order.
use crate::text;
use vstd::prelude::*;

verus! {

/// The texts of a sequence of strings.
pub open spec fn texts(names: Seq<String>) -> Seq<Seq<char>> {
    names.map_values(|s: String| s@)
}

/// The names ascend strictly, so that none occurs twice.
pub open spec fn ascending(names: Seq<Seq<char>>) -> bool {
    forall|i: int, j: int|
        0 <= i < j < names.len() ==> text::text_before(#[trigger] names[i], #[trigger] names[j])
}

/// The number of names that come before `name`.
fn lower_bound(names: &Vec<String>, name: &String) -> (r: usize)
    requires
        ascending(texts(names@)),
    ensures
        r <= names.len(),
        forall|k: int| 0 <= k < r ==> text::text_before(#[trigger] texts(names@)[k], name@),
        forall|k: int|
            r <= k < names.len() ==> !text::text_before(#[trigger] texts(names@)[k], name@),
{
    let ghost all = texts(names@);
    let mut lo: usize = 0;
    let mut hi: usize = names.len();
    while lo < hi
        invariant
            all == texts(names@),
            ascending(all),
            lo <= hi <= names.len(),
            forall|k: int| 0 <= k < lo ==> text::text_before(#[trigger] all[k], name@),
            forall|k: int| hi <= k < names.len() ==> !text::text_before(#[trigger] all[k], name@),
        decreases hi - lo,
    {
        let mid: usize = lo + (hi - lo) / 2;
        let before = text::is_before(names[mid].as_str(), name.as_str());
        assert(all[mid as int] == names@[mid as int]@);
        if before {
            assert forall|k: int| 0 <= k < mid + 1 implies text::text_before(
                #[trigger] all[k],
                name@,
            ) by {
                if k < mid {
                    text::lemma_before_transitive(all[k], all[mid as int], name@);
                }
            }
            lo = mid + 1;
        } else {
            assert forall|k: int| mid <= k < names.len() implies !text::text_before(
                #[trigger] all[k],
                name@,
            ) by {
                if k > mid && text::text_before(all[k], name@) {
                    text::lemma_before_transitive(all[mid as int], all[k], name@);
                }
            }
            hi = mid;
        }
    }
    lo
}

/// Whether `name` is one of the names.
pub(crate) fn has_name(names: &Vec<String>, name: &String) -> (r: bool)
    requires
        ascending(texts(names@)),
    ensures
        r == texts(names@).contains(name@),
{
    let ghost all = texts(names@);
    let pos = lower_bound(names, name);
    if pos < names.len() && names[pos] == *name {
        assert(all[pos as int] == name@);
        true
    } else {
        assert forall|k: int| 0 <= k < all.len() implies all[k] != name@ by {
            text::lemma_before_irreflexive(name@);
            if k > pos && all[k] == name@ {
                assert(text::text_before(all[pos as int], all[k]));
            }
        }
        false
    }
}

/// Adds `name` where it belongs, unless it is there.
pub(crate) fn add_name(names: &mut Vec<String>, name: String)
    requires
        ascending(texts(old(names)@)),
    ensures
        ascending(texts(final(names)@)),
        forall|n: Seq<char>| #[trigger]
            texts(final(names)@).contains(n) <==> texts(old(names)@).contains(n) || n == name@,
{
    let ghost before = texts(names@);
    let pos = lower_bound(names, &name);
    if pos < names.len() && names[pos] == name {
        assert(before[pos as int] == name@);
        return;
    }
    names.insert(pos, name);
    let ghost after = texts(names@);
    proof {
        let p = pos as int;
        assert(after =~= before.insert(p, name@));
        assert forall|i: int, j: int| 0 <= i < j < after.len() implies text::text_before(
            #[trigger] after[i],
            #[trigger] after[j],
        ) by {
            if i < p && j > p {
                assert(text::text_before(before[i], before[j - 1]));
            } else if i == p {
                text::lemma_before_total(before[p], name@);
                if j - 1 > p {
                    assert(text::text_before(before[p], before[j - 1]));
                    text::lemma_before_transitive(name@, before[p], before[j - 1]);
                }
            } else if i > p {
                assert(text::text_before(before[i - 1], before[j - 1]));
            }
        }
        assert forall|n: Seq<char>| #[trigger] after.contains(n) <==> before.contains(n) || n
            == name@ by {
            if before.contains(n) {
                let k = choose|k: int| 0 <= k < before.len() && before[k] == n;
                if k < p {
                    assert(after[k] == n);
                } else {
                    assert(after[k + 1] == n);
                }
            }
            if n == name@ {
                assert(after[p] == n);
            }
            if after.contains(n) {
                let k = choose|k: int| 0 <= k < after.len() && after[k] == n;
                if k < p {
                    assert(before[k] == n);
                } else if k > p {
                    assert(before[k - 1] == n);
                }
            }
        }
    }
}

/// Two strictly ascending sequences with the same names are the same.
pub proof fn lemma_ascending_unique(a: Seq<Seq<char>>, b: Seq<Seq<char>>)
    requires
        ascending(a),
        ascending(b),
        forall|n: Seq<char>| a.contains(n) <==> b.contains(n),
    ensures
        a == b,
    decreases a.len(),
{
    if a.len() == 0 {
        if b.len() > 0 {
            assert(b.contains(b[0]));
        }
        assert(a =~= b);
    } else {
        assert(a.contains(a.last()));
        assert(b.len() > 0);
        assert(b.contains(b.last()));
        let i = choose|i: int| 0 <= i < b.len() && b[i] == a.last();
        let j = choose|j: int| 0 <= j < a.len() && a[j] == b.last();
        if i < b.len() - 1 && j < a.len() - 1 {
            assert(text::text_before(b[i], b.last()));
            assert(text::text_before(a[j], a.last()));
            text::lemma_before_transitive(a.last(), b.last(), a.last());
            text::lemma_before_irreflexive(a.last());
        }
        assert(a.last() == b.last());
        text::lemma_before_irreflexive(a.last());
        let x = a.drop_last();
        let y = b.drop_last();
        assert forall|n: Seq<char>| x.contains(n) <==> y.contains(n) by {
            if x.contains(n) {
                let k = choose|k: int| 0 <= k < x.len() && x[k] == n;
                assert(a[k] == n && text::text_before(a[k], a.last()));
                assert(a.contains(n));
                let l = choose|l: int| 0 <= l < b.len() && b[l] == n;
                assert(y[l] == n);
            }
            if y.contains(n) {
                let k = choose|k: int| 0 <= k < y.len() && y[k] == n;
                assert(b[k] == n && text::text_before(b[k], b.last()));
                assert(b.contains(n));
                let l = choose|l: int| 0 <= l < a.len() && a[l] == n;
                assert(x[l] == n);
            }
        }
        lemma_ascending_unique(x, y);
        assert(a =~= x.push(a.last()));
        assert(b =~= y.push(b.last()));
    }
}

} // verus!

//! A fact shared by the modules that sort positions: two strictly sorted
//! listings of the same elements are the same listing.

use vstd::prelude::*;

verus! {

/// Two sequences that are strictly sorted by the same strict order `lt`
/// and hold the same elements are equal.
pub proof fn lemma_strictly_sorted_unique(
    lt: spec_fn(usize, usize) -> bool,
    o1: Seq<usize>,
    o2: Seq<usize>,
)
    requires
        forall|a: usize| !#[trigger] lt(a, a),
        forall|a: usize, b: usize| #[trigger] lt(a, b) ==> !lt(b, a),
        forall|k: int, l: int| 0 <= k < l < o1.len() ==> lt(o1[k], o1[l]),
        forall|k: int, l: int| 0 <= k < l < o2.len() ==> lt(o2[k], o2[l]),
        forall|x: usize| o1.contains(x) <==> o2.contains(x),
    ensures
        o1 == o2,
    decreases o1.len(),
{
    if o1.len() == 0 {
        if o2.len() > 0 {
            assert(o2.contains(o2[0]));
        }
        assert(o1 =~= o2);
    } else {
        assert(o1.contains(o1[0]));
        assert(o2.len() > 0);
        assert(o2.contains(o2[0]));
        let j = choose|j: int| 0 <= j < o2.len() && o2[j] == o1[0];
        let i = choose|i: int| 0 <= i < o1.len() && o1[i] == o2[0];
        if j > 0 {
            assert(lt(o2[0], o2[j]));
            if i > 0 {
                assert(lt(o1[0], o1[i]));
            }
        }
        assert(o1[0] == o2[0]);
        let a = o1.drop_first();
        let b = o2.drop_first();
        assert forall|x: usize| a.contains(x) <==> b.contains(x) by {
            if a.contains(x) {
                let k = choose|k: int| 0 <= k < a.len() && a[k] == x;
                assert(o1[k + 1] == x);
                assert(o1.contains(x));
                let l = choose|l: int| 0 <= l < o2.len() && o2[l] == x;
                if l == 0 {
                    assert(lt(o1[0], o1[k + 1]));
                }
                assert(b[l - 1] == x);
            }
            if b.contains(x) {
                let k = choose|k: int| 0 <= k < b.len() && b[k] == x;
                assert(o2[k + 1] == x);
                assert(o2.contains(x));
                let l = choose|l: int| 0 <= l < o1.len() && o1[l] == x;
                if l == 0 {
                    assert(lt(o2[0], o2[k + 1]));
                }
                assert(a[l - 1] == x);
            }
        }
        assert forall|k: int, l: int| 0 <= k < l < a.len() implies lt(a[k], a[l]) by {
            assert(a[k] == o1[k + 1] && a[l] == o1[l + 1]);
        }
        assert forall|k: int, l: int| 0 <= k < l < b.len() implies lt(b[k], b[l]) by {
            assert(b[k] == o2[k + 1] && b[l] == o2[l + 1]);
        }
        lemma_strictly_sorted_unique(lt, a, b);
        assert(o1 =~= o2) by {
            assert forall|k: int| 0 <= k < o1.len() implies o1[k] == o2[k] by {
                if k > 0 {
                    assert(a[k - 1] == b[k - 1]);
                }
            }
        }
    }
}

} // verus!

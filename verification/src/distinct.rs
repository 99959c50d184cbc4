//! Sequences in which every value is kept once, at the place where it first
//! occurs.

use vstd::prelude::*;

verus! {

/// `s` without the later occurrences of a value that occurs more than once.
pub open spec fn first_occurrences<A>(s: Seq<A>) -> Seq<A>
    decreases s.len(),
{
    if s.len() == 0 {
        s
    } else {
        let earlier = first_occurrences(s.drop_last());
        if earlier.contains(s.last()) {
            earlier
        } else {
            earlier.push(s.last())
        }
    }
}

/// Keeping first occurrences neither adds nor loses a value, and leaves no
/// value twice.
pub proof fn lemma_first_occurrences<A>(s: Seq<A>)
    ensures
        first_occurrences(s).no_duplicates(),
        forall|a: A| #[trigger] first_occurrences(s).contains(a) <==> s.contains(a),
    decreases s.len(),
{
    if s.len() > 0 {
        let init = s.drop_last();
        let earlier = first_occurrences(init);
        let all = first_occurrences(s);
        lemma_first_occurrences(init);
        assert forall|a: A| #[trigger] all.contains(a) <==> s.contains(a) by {
            assert(earlier.contains(a) <==> init.contains(a));
            if s.contains(a) {
                let i = choose|i: int| 0 <= i < s.len() && s[i] == a;
                if i < s.len() - 1 {
                    assert(init[i] == a);
                    assert(init.contains(a));
                    let k = choose|k: int| 0 <= k < earlier.len() && earlier[k] == a;
                    assert(all[k] == a);
                } else if earlier.contains(a) {
                    let k = choose|k: int| 0 <= k < earlier.len() && earlier[k] == a;
                    assert(all[k] == a);
                } else {
                    assert(all[earlier.len() as int] == a);
                }
            }
            if all.contains(a) {
                let k = choose|k: int| 0 <= k < all.len() && all[k] == a;
                if k < earlier.len() {
                    assert(earlier[k] == a);
                    assert(earlier.contains(a));
                    let i = choose|i: int| 0 <= i < init.len() && init[i] == a;
                    assert(s[i] == a);
                } else {
                    assert(s[s.len() - 1] == a);
                }
            }
        }
        if !earlier.contains(s.last()) {
            assert forall|i: int, j: int| 0 <= i < all.len() && 0 <= j < all.len() && i != j implies all[i]
                != all[j] by {
                if i < earlier.len() && j < earlier.len() {
                    assert(earlier[i] != earlier[j]);
                } else if i < earlier.len() {
                    assert(earlier.contains(earlier[i]));
                } else {
                    assert(earlier.contains(earlier[j]));
                }
            }
        }
    }
}

/// What one more value at the end does to the first occurrences.
pub proof fn lemma_first_occurrences_push<A>(s: Seq<A>, a: A)
    ensures
        first_occurrences(s.push(a)) == if first_occurrences(s).contains(a) {
            first_occurrences(s)
        } else {
            first_occurrences(s).push(a)
        },
{
    assert(s.push(a).drop_last() =~= s);
}

} // verus!

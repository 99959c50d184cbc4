//! Identity sets: the domain names that one certificate covers.
//!
//! An identity set is compared as a set: the order in which the names were
//! given, and how often each was given, make no difference.

use vstd::prelude::*;
use crate::distinct::{first_occurrences, lemma_first_occurrences_push};

verus! {

/// The names in `names`, place by place, as character sequences.
pub open spec fn name_views(names: Seq<String>) -> Seq<Seq<char>> {
    Seq::new(names.len(), |i: int| names[i]@)
}

/// The names that occur in `names`, as a set of character sequences.
pub open spec fn name_set(names: Seq<String>) -> Set<Seq<char>> {
    Set::new(|n: Seq<char>| exists|i: int| 0 <= i < names.len() && #[trigger] names[i]@ == n)
}

/// No name occurs at two places of `names`.
pub open spec fn distinct_names(names: Seq<String>) -> bool {
    forall|i: int, j: int| 0 <= i < j < names.len() ==> #[trigger] names[i]@ != #[trigger] names[j]@
}

/// Whether `name` occurs among the first `upto` entries of `names`.
fn occurs_in(names: &Vec<String>, upto: usize, name: &String) -> (r: bool)
    requires
        upto <= names.len(),
    ensures
        r == name_set(names@.take(upto as int)).contains(name@),
{
    let mut i: usize = 0;
    while i < upto
        invariant
            i <= upto <= names.len(),
            forall|k: int| 0 <= k < i ==> #[trigger] names[k]@ != name@,
        decreases upto - i,
    {
        if names[i] == *name {
            assert(names@.take(upto as int)[i as int]@ == name@);
            return true;
        }
        i += 1;
    }
    assert forall|k: int| 0 <= k < upto implies #[trigger] names@.take(upto as int)[k]@ != name@ by {
        assert(names@.take(upto as int)[k] == names[k]);
    }
    false
}

/// The set of domain names that a single certificate covers. It identifies
/// the certificate: two records are about the same certificate exactly when
/// their identity sets are equal as sets.
#[derive(Debug)]
pub struct IdentitySet {
    names: Vec<String>,
}

impl View for IdentitySet {
    type V = Set<Seq<char>>;

    closed spec fn view(&self) -> Set<Seq<char>> {
        name_set(self.names@)
    }
}

impl IdentitySet {
    #[verifier::type_invariant]
    spec fn unique(self) -> bool {
        distinct_names(self.names@)
    }

    /// The names of the set, each once, in the order in which they were
    /// first given.
    pub closed spec fn listing(&self) -> Seq<Seq<char>> {
        name_views(self.names@)
    }

    /// The identity set that holds exactly the names in `names`. Repeated
    /// names are kept once, at the place where they first occur.
    pub fn new(names: Vec<String>) -> (r: IdentitySet)
        ensures
            r@ == name_set(names@),
            r.listing() == first_occurrences(name_views(names@)),
    {
        let mut kept: Vec<String> = Vec::new();
        let mut i: usize = 0;
        proof {
            assert(name_views(names@.take(0)) =~= Seq::<Seq<char>>::empty());
            assert(name_views(kept@) =~= Seq::<Seq<char>>::empty());
        }
        while i < names.len()
            invariant
                i <= names.len(),
                distinct_names(kept@),
                name_set(kept@) == name_set(names@.take(i as int)),
                name_views(kept@) == first_occurrences(name_views(names@.take(i as int))),
            decreases names.len() - i,
        {
            let seen = occurs_in(&names, i, &names[i]);
            let ghost before = kept@;
            if !seen {
                kept.push(names[i].clone());
            }
            proof {
                let prefix = names@.take(i as int);
                let next = names@.take(i + 1);
                lemma_first_occurrences_push(name_views(prefix), names@[i as int]@);
                lemma_name_views(before);
                assert(name_views(next) =~= name_views(prefix).push(names@[i as int]@));
                if !seen {
                    assert(name_views(kept@) =~= name_views(before).push(names@[i as int]@));
                }
                assert forall|n: Seq<char>| name_set(kept@).contains(n) == name_set(
                    next,
                ).contains(n) by {
                    if name_set(kept@).contains(n) {
                        let k = choose|k: int| 0 <= k < kept@.len() && #[trigger] kept@[k]@ == n;
                        if k < before.len() {
                            assert(before[k]@ == n);
                            assert(name_set(before).contains(n));
                            let p = choose|p: int| 0 <= p < prefix.len() && #[trigger] prefix[p]@ == n;
                            assert(next[p]@ == n);
                        } else {
                            assert(next[i as int]@ == n);
                        }
                    }
                    if name_set(next).contains(n) {
                        let p = choose|p: int| 0 <= p < next.len() && #[trigger] next[p]@ == n;
                        if p < i {
                            assert(prefix[p]@ == n);
                            assert(name_set(prefix).contains(n));
                            let k = choose|k: int| 0 <= k < before.len() && #[trigger] before[k]@ == n;
                            assert(kept@[k]@ == n);
                        } else if seen {
                            assert(name_set(before).contains(n));
                            let k = choose|k: int| 0 <= k < before.len() && #[trigger] before[k]@ == n;
                            assert(kept@[k]@ == n);
                        } else {
                            assert(kept@[before.len() as int]@ == n);
                        }
                    }
                }
                assert(name_set(kept@) =~= name_set(next));
                if !seen {
                    assert forall|a: int, b: int| 0 <= a < b < kept@.len() implies #[trigger] kept@[a]@
                        != #[trigger] kept@[b]@ by {
                        if b == before.len() {
                            assert(before[a]@ == kept@[a]@);
                            assert(name_set(before).contains(before[a]@));
                        }
                    }
                }
            }
            i += 1;
        }
        assert(names@.take(names.len() as int) =~= names@);
        IdentitySet { names: kept }
    }

    /// The number of names in the set.
    pub fn len(&self) -> (r: usize)
        ensures
            r == self@.len(),
            self@.finite(),
    {
        proof {
            use_type_invariant(self);
            lemma_distinct_names_count(self.names@);
        }
        self.names.len()
    }

    /// Whether the set holds no name at all.
    pub fn is_empty(&self) -> (r: bool)
        ensures
            r == (self@ == Set::<Seq<char>>::empty()),
    {
        proof {
            if self.names@.len() > 0 {
                assert(name_set(self.names@).contains(self.names@[0]@));
            } else {
                assert(name_set(self.names@) =~= Set::<Seq<char>>::empty());
            }
        }
        self.names.len() == 0
    }

    /// Whether `name` is one of the names in the set.
    pub fn contains(&self, name: &String) -> (r: bool)
        ensures
            r == self@.contains(name@),
    {
        assert(self.names@.take(self.names.len() as int) =~= self.names@);
        occurs_in(&self.names, self.names.len(), name)
    }

    /// Whether every name of this set is also in `other`.
    pub fn is_subset_of(&self, other: &IdentitySet) -> (r: bool)
        ensures
            r == self@.subset_of(other@),
    {
        let mut i: usize = 0;
        while i < self.names.len()
            invariant
                i <= self.names.len(),
                forall|k: int| 0 <= k < i ==> other@.contains(#[trigger] self.names[k]@),
            decreases self.names.len() - i,
        {
            if !other.contains(&self.names[i]) {
                assert(self@.contains(self.names[i as int]@));
                return false;
            }
            i += 1;
        }
        true
    }

    /// Whether the two sets hold the same names.
    pub fn same_as(&self, other: &IdentitySet) -> (r: bool)
        ensures
            r == (self@ == other@),
    {
        let r = self.is_subset_of(other) && other.is_subset_of(self);
        proof {
            if r {
                assert(self@ =~= other@);
            }
        }
        r
    }

    /// The names of the set, each once, in the order in which they were first
    /// given.
    pub fn names(&self) -> (r: Vec<String>)
        ensures
            name_views(r@) == self.listing(),
            name_set(r@) == self@,
            distinct_names(r@),
    {
        proof {
            use_type_invariant(self);
        }
        let r = self.names.clone();
        proof {
            assert(r@.len() == self.names@.len());
            assert forall|k: int| 0 <= k < r@.len() implies #[trigger] r@[k]@ == self.names@[k]@ by {
                assert(cloned(self.names@[k], r@[k]));
            }
            lemma_same_names(r@, self.names@);
            assert(name_views(r@) =~= name_views(self.names@));
        }
        r
    }
}

impl Clone for IdentitySet {
    fn clone(&self) -> (r: IdentitySet)
        ensures
            r@ == self@,
            r.listing() == self.listing(),
    {
        IdentitySet { names: self.names() }
    }
}

/// A name is in the set of a sequence of names exactly when it is at one of
/// its places.
pub proof fn lemma_name_views(names: Seq<String>)
    ensures
        forall|n: Seq<char>| #[trigger] name_views(names).contains(n) <==> name_set(names).contains(n),
        name_views(names).no_duplicates() <==> distinct_names(names),
{
    let views = name_views(names);
    assert forall|n: Seq<char>| #[trigger] views.contains(n) <==> name_set(names).contains(n) by {
        if views.contains(n) {
            let k = choose|k: int| 0 <= k < views.len() && views[k] == n;
            assert(names[k]@ == n);
        }
        if name_set(names).contains(n) {
            let k = choose|k: int| 0 <= k < names.len() && #[trigger] names[k]@ == n;
            assert(views[k] == n);
        }
    }
    if distinct_names(names) {
        assert forall|i: int, j: int| 0 <= i < views.len() && 0 <= j < views.len() && i != j implies views[i]
            != views[j] by {
            if i < j {
                assert(names[i]@ != names[j]@);
            } else {
                assert(names[j]@ != names[i]@);
            }
        }
    }
    if views.no_duplicates() {
        assert forall|i: int, j: int| 0 <= i < j < names.len() implies #[trigger] names[i]@ != #[trigger] names[j]@ by {
            assert(views[i] != views[j]);
        }
    }
}

/// Two sequences that hold the same names at the same places hold the same
/// set, and are distinct together.
pub proof fn lemma_same_names(a: Seq<String>, b: Seq<String>)
    requires
        a.len() == b.len(),
        forall|k: int| 0 <= k < a.len() ==> #[trigger] a[k]@ == b[k]@,
    ensures
        name_set(a) == name_set(b),
        distinct_names(b) ==> distinct_names(a),
{
    assert forall|n: Seq<char>| name_set(a).contains(n) == name_set(b).contains(n) by {
        if name_set(a).contains(n) {
            let k = choose|k: int| 0 <= k < a.len() && #[trigger] a[k]@ == n;
            assert(b[k]@ == n);
        }
        if name_set(b).contains(n) {
            let k = choose|k: int| 0 <= k < b.len() && #[trigger] b[k]@ == n;
            assert(a[k]@ == n);
        }
    }
    assert(name_set(a) =~= name_set(b));
    if distinct_names(b) {
        assert forall|i: int, j: int| 0 <= i < j < a.len() implies #[trigger] a[i]@ != #[trigger] a[j]@ by {
            assert(b[i]@ != b[j]@);
        }
    }
}

/// A sequence without repeated names holds as many names as it is long.
pub proof fn lemma_distinct_names_count(names: Seq<String>)
    requires
        distinct_names(names),
    ensures
        name_set(names).finite(),
        name_set(names).len() == names.len(),
    decreases names.len(),
{
    if names.len() == 0 {
        assert(name_set(names) =~= Set::<Seq<char>>::empty());
    } else {
        let rest = names.drop_last();
        let last = names.last()@;
        assert forall|i: int, j: int| 0 <= i < j < rest.len() implies #[trigger] rest[i]@ != #[trigger] rest[j]@ by {
            assert(names[i]@ != names[j]@);
        }
        lemma_distinct_names_count(rest);
        assert(!name_set(rest).contains(last)) by {
            if name_set(rest).contains(last) {
                let k = choose|k: int| 0 <= k < rest.len() && #[trigger] rest[k]@ == last;
                assert(names[k]@ != names[names.len() - 1]@);
            }
        }
        assert forall|n: Seq<char>| name_set(names).contains(n) == name_set(rest).insert(last).contains(
            n,
        ) by {
            if name_set(names).contains(n) {
                let k = choose|k: int| 0 <= k < names.len() && #[trigger] names[k]@ == n;
                if k < rest.len() {
                    assert(rest[k]@ == n);
                }
            }
            if name_set(rest).contains(n) {
                let k = choose|k: int| 0 <= k < rest.len() && #[trigger] rest[k]@ == n;
                assert(names[k]@ == n);
            }
            if n == last {
                assert(names[names.len() - 1]@ == n);
            }
        }
        assert(name_set(names) =~= name_set(rest).insert(last));
    }
}

} // verus!

//! Mathematical models of objects, arrows and categories, together with the
//! first-match search functions that the executable lookups are specified
//! against.

use vstd::prelude::*;

verus! {

/// Model of an arrow: a name, domain and codomain object indices, and the
/// declared-composition table.  An entry `(f, g)` in `equals` means "this
/// arrow is the declared composite of arrow `f` followed by arrow `g`",
/// both given as indices into the owning category's arrow list.
pub ghost struct ArrowModel {
    pub name: Seq<char>,
    pub domain: int,
    pub codomain: int,
    pub equals: Seq<(int, int)>,
}

/// Model of a category: object names and arrows, both in insertion order.
pub ghost struct CatModel {
    pub objects: Seq<Seq<char>>,
    pub arrows: Seq<ArrowModel>,
}

/// Every index the arrow mentions is valid for a category with `n_objects`
/// objects and `n_arrows` arrows.
pub open spec fn arrow_wf(a: ArrowModel, n_objects: int, n_arrows: int) -> bool {
    &&& 0 <= a.domain < n_objects
    &&& 0 <= a.codomain < n_objects
    &&& forall|k: int|
        0 <= k < a.equals.len() ==> {
            &&& 0 <= (#[trigger] a.equals[k]).0 < n_arrows
            &&& 0 <= a.equals[k].1 < n_arrows
        }
}

/// Structural invariant of a category: every domain, codomain and
/// declared-composition index is in bounds.
pub open spec fn cat_wf(m: CatModel) -> bool {
    forall|i: int|
        0 <= i < m.arrows.len() ==> arrow_wf(
            #[trigger] m.arrows[i],
            m.objects.len() as int,
            m.arrows.len() as int,
        )
}

/// Index of the first element of `s` (at or after position `i`) that
/// satisfies `p`, or `None` if no element from `i` on does.
pub open spec fn first_match_from<A>(s: Seq<A>, p: spec_fn(A) -> bool, i: int) -> Option<int>
    decreases s.len() - i,
{
    if i < 0 || i >= s.len() {
        None
    } else if p(s[i]) {
        Some(i)
    } else {
        first_match_from(s, p, i + 1)
    }
}

/// Index of the first element of `s` satisfying `p`, if any.
pub open spec fn first_match<A>(s: Seq<A>, p: spec_fn(A) -> bool) -> Option<int> {
    first_match_from(s, p, 0)
}

/// What `first_match_from` returns: the first satisfying index at or after
/// `i`, with nothing satisfying `p` before it.
pub proof fn lemma_first_match_from<A>(s: Seq<A>, p: spec_fn(A) -> bool, i: int)
    requires
        0 <= i <= s.len(),
    ensures
        match first_match_from(s, p, i) {
            Some(j) => i <= j < s.len() && p(s[j]) && (forall|k: int| i <= k < j ==> !p(s[k])),
            None => forall|k: int| i <= k < s.len() ==> !p(s[k]),
        },
    decreases s.len() - i,
{
    if i < s.len() && !p(s[i]) {
        lemma_first_match_from(s, p, i + 1);
    }
}

/// Characterization of `first_match`.
pub proof fn lemma_first_match<A>(s: Seq<A>, p: spec_fn(A) -> bool)
    ensures
        match first_match(s, p) {
            Some(j) => 0 <= j < s.len() && p(s[j]) && (forall|k: int| 0 <= k < j ==> !p(s[k])),
            None => forall|k: int| 0 <= k < s.len() ==> !p(s[k]),
        },
{
    lemma_first_match_from(s, p, 0);
}

/// If `j` is a satisfying index with no satisfying index before it, then it
/// is exactly what `first_match` returns.
pub proof fn lemma_first_match_is<A>(s: Seq<A>, p: spec_fn(A) -> bool, j: int)
    requires
        0 <= j < s.len(),
        p(s[j]),
        forall|k: int| 0 <= k < j ==> !p(s[k]),
    ensures
        first_match(s, p) == Some(j),
{
    lemma_first_match(s, p);
    match first_match(s, p) {
        Some(r) => {
            if r < j {
                assert(!p(s[r]));
            }
            if j < r {
                assert(!p(s[j]));
            }
        },
        None => {
            assert(!p(s[j]));
        },
    }
}

/// The predicate "this object name is `name`".
pub open spec fn name_is(name: Seq<char>) -> spec_fn(Seq<char>) -> bool {
    |o: Seq<char>| o == name
}

/// Index of the first object named `name`, in insertion order.
pub open spec fn find_object(objects: Seq<Seq<char>>, name: Seq<char>) -> Option<int> {
    first_match(objects, name_is(name))
}

/// The predicate "this arrow is named `name`".
pub open spec fn arrow_name_is(name: Seq<char>) -> spec_fn(ArrowModel) -> bool {
    |a: ArrowModel| a.name == name
}

/// Index of the first arrow named `name`, in insertion order.
pub open spec fn find_arrow_named(arrows: Seq<ArrowModel>, name: Seq<char>) -> Option<int> {
    first_match(arrows, arrow_name_is(name))
}

/// The predicate "this arrow equals `a`".
pub open spec fn arrow_is(a: ArrowModel) -> spec_fn(ArrowModel) -> bool {
    |x: ArrowModel| x == a
}

/// Index of the first arrow equal (by value) to `a`, in insertion order.
pub open spec fn find_arrow(arrows: Seq<ArrowModel>, a: ArrowModel) -> Option<int> {
    first_match(arrows, arrow_is(a))
}

/// The arrow declares itself to be the composite of arrow `fi` followed by
/// arrow `gi`.
pub open spec fn has_pair(a: ArrowModel, fi: int, gi: int) -> bool {
    exists|k: int| 0 <= k < a.equals.len() && a.equals[k] == (fi, gi)
}

/// The predicate "this arrow declares the pair `(fi, gi)`".
pub open spec fn declares_pair(fi: int, gi: int) -> spec_fn(ArrowModel) -> bool {
    |a: ArrowModel| has_pair(a, fi, gi)
}

/// Index of the first arrow declaring itself the composite of `fi`
/// followed by `gi`, in insertion order.
pub open spec fn composite_index(arrows: Seq<ArrowModel>, fi: int, gi: int) -> Option<int> {
    first_match(arrows, declares_pair(fi, gi))
}

/// Model of an arrow description handed to the category builder: every name
/// as a sequence of characters.
pub ghost struct DescModel {
    pub name: Seq<char>,
    pub domain: Seq<char>,
    pub codomain: Seq<char>,
    pub equals: Seq<(Seq<char>, Seq<char>)>,
}

/// The predicate "this description is named `name`".
pub open spec fn desc_name_is(name: Seq<char>) -> spec_fn(DescModel) -> bool {
    |d: DescModel| d.name == name
}

/// Index of the first arrow description named `name`, in insertion order.
pub open spec fn find_desc_named(descs: Seq<DescModel>, name: Seq<char>) -> Option<int> {
    first_match(descs, desc_name_is(name))
}

} // verus!

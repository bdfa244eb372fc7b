//! The entity model: objects and arrows as owned values, equal by content,
//! with their views into the mathematical models of [`crate::model`].

use vstd::prelude::*;

use crate::model::ArrowModel;
use crate::model::DescModel;

verus! {

/// A named node of a category.  Objects carry no structure beyond their
/// name; equality is by name.
#[derive(Debug)]
pub struct Object {
    pub name: String,
}

impl View for Object {
    type V = Seq<char>;

    open spec fn view(&self) -> Seq<char> {
        self.name@
    }
}

impl Object {
    /// Makes an object with the given name.
    pub fn new(name: String) -> (o: Object)
        ensures
            o@ == name@,
    {
        Object { name }
    }

    /// The object's name.
    pub fn name(&self) -> (r: &String)
        ensures
            r@ == self@,
    {
        &self.name
    }
}

impl PartialEq for Object {
    fn eq(&self, other: &Object) -> bool {
        self.name == other.name
    }
}

impl vstd::std_specs::cmp::PartialEqSpecImpl for Object {
    open spec fn obeys_eq_spec() -> bool {
        true
    }

    open spec fn eq_spec(&self, other: &Object) -> bool {
        self@ == other@
    }
}

impl Clone for Object {
    fn clone(&self) -> (r: Object)
        ensures
            r@ == self@,
    {
        Object { name: self.name.clone() }
    }
}

/// Maps a list of executable index pairs to its mathematical model.
pub open spec fn pairs_model(s: Seq<(usize, usize)>) -> Seq<(int, int)> {
    s.map_values(|p: (usize, usize)| (p.0 as int, p.1 as int))
}

/// A named, directed edge of a category.  `domain` and `codomain` are
/// indices into the owning category's object list; `equals` lists the
/// ordered arrow-index pairs whose composite this arrow is declared to be.
#[derive(Debug)]
pub struct Arrow {
    pub name: String,
    pub domain: usize,
    pub codomain: usize,
    pub equals: Vec<(usize, usize)>,
}

impl View for Arrow {
    type V = ArrowModel;

    open spec fn view(&self) -> ArrowModel {
        ArrowModel {
            name: self.name@,
            domain: self.domain as int,
            codomain: self.codomain as int,
            equals: pairs_model(self.equals@),
        }
    }
}

impl Arrow {
    /// The arrow's name.
    pub fn name(&self) -> (r: &String)
        ensures
            r@ == self@.name,
    {
        &self.name
    }
}

/// Compares two declared-composition tables entry by entry.
fn equals_eq(a: &Vec<(usize, usize)>, b: &Vec<(usize, usize)>) -> (r: bool)
    ensures
        r == (pairs_model(a@) == pairs_model(b@)),
{
    if a.len() != b.len() {
        assert(pairs_model(a@).len() != pairs_model(b@).len());
        return false;
    }
    let mut k: usize = 0;
    while k < a.len()
        invariant
            0 <= k <= a.len(),
            a@.len() == b@.len(),
            forall|j: int| 0 <= j < k ==> a@[j] == b@[j],
        decreases a.len() - k,
    {
        if a[k].0 != b[k].0 || a[k].1 != b[k].1 {
            assert(pairs_model(a@)[k as int] != pairs_model(b@)[k as int]);
            return false;
        }
        k += 1;
    }
    assert(pairs_model(a@) =~= pairs_model(b@));
    true
}

impl PartialEq for Arrow {
    fn eq(&self, other: &Arrow) -> bool {
        self.name == other.name && self.domain == other.domain && self.codomain == other.codomain
            && equals_eq(&self.equals, &other.equals)
    }
}

impl vstd::std_specs::cmp::PartialEqSpecImpl for Arrow {
    open spec fn obeys_eq_spec() -> bool {
        true
    }

    open spec fn eq_spec(&self, other: &Arrow) -> bool {
        self@ == other@
    }
}

/// Copies a declared-composition table.
fn clone_pairs(v: &Vec<(usize, usize)>) -> (r: Vec<(usize, usize)>)
    ensures
        r@ == v@,
{
    let mut r: Vec<(usize, usize)> = Vec::new();
    let mut k: usize = 0;
    while k < v.len()
        invariant
            0 <= k <= v.len(),
            r@ =~= v@.subrange(0, k as int),
        decreases v.len() - k,
    {
        r.push(v[k]);
        k += 1;
    }
    assert(r@ =~= v@);
    r
}

impl Clone for Arrow {
    fn clone(&self) -> (r: Arrow)
        ensures
            r@ == self@,
    {
        Arrow {
            name: self.name.clone(),
            domain: self.domain,
            codomain: self.codomain,
            equals: clone_pairs(&self.equals),
        }
    }
}

/// Declarative description of one arrow handed to the category builder:
/// the arrow's name, the names of its domain and codomain objects, and the
/// `(before, after)` arrow-name pairs whose composite it is declared to be.
#[derive(Debug)]
pub struct ArrowDesc {
    pub name: String,
    pub domain: String,
    pub codomain: String,
    pub equals: Vec<(String, String)>,
}

impl View for ArrowDesc {
    type V = DescModel;

    open spec fn view(&self) -> DescModel {
        DescModel {
            name: self.name@,
            domain: self.domain@,
            codomain: self.codomain@,
            equals: self.equals@.map_values(|p: (String, String)| (p.0@, p.1@)),
        }
    }
}

impl ArrowDesc {
    /// Makes a description with no declared compositions.
    pub fn plain(name: String, domain: String, codomain: String) -> (d: ArrowDesc)
        ensures
            d@.name == name@,
            d@.domain == domain@,
            d@.codomain == codomain@,
            d@.equals.len() == 0,
    {
        let d = ArrowDesc { name, domain, codomain, equals: Vec::new() };
        assert(d@.equals =~= Seq::<(Seq<char>, Seq<char>)>::empty());
        d
    }
}

} // verus!

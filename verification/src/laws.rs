//! The law checkers: associativity and left/right unit predicates built
//! purely from the composition resolver and the identity lookup.  They
//! verify a category's laws, they never enforce them — a category that
//! breaks them can be built, and these predicates are how that is detected.
//! Any failed composition or identity lookup makes a check false, never a
//! panic.

use vstd::prelude::*;

use crate::category::Category;
use crate::category::spec_identity;
use crate::compose::spec_compose;
use crate::entity::Arrow;
use crate::entity::Object;
use crate::model::ArrowModel;
use crate::model::CatModel;

verus! {

/// The associativity check holds: both ways of composing `f`, `g`, `k`
/// resolve, and to the same arrow.
pub open spec fn spec_associative(
    m: CatModel,
    f: ArrowModel,
    g: ArrowModel,
    k: ArrowModel,
) -> bool {
    &&& spec_compose(m, f, g) is Ok
    &&& spec_compose(m, g, k) is Ok
    &&& spec_compose(m, spec_compose(m, f, g)->Ok_0, k) is Ok
    &&& spec_compose(m, f, spec_compose(m, g, k)->Ok_0) is Ok
    &&& spec_compose(m, spec_compose(m, f, g)->Ok_0, k)->Ok_0 == spec_compose(
        m,
        f,
        spec_compose(m, g, k)->Ok_0,
    )->Ok_0
}

/// The left unit law holds at `(o, f)`: `o`'s identity resolves and
/// composing it before `f` yields `f`.
pub open spec fn spec_left_unit(m: CatModel, oname: Seq<char>, f: ArrowModel) -> bool {
    &&& spec_identity(m, oname) is Ok
    &&& spec_compose(m, spec_identity(m, oname)->Ok_0, f) is Ok
    &&& spec_compose(m, spec_identity(m, oname)->Ok_0, f)->Ok_0 == f
}

/// The right unit law holds at `(o, f)`: `o`'s identity resolves and
/// composing it after `f` yields `f`.
pub open spec fn spec_right_unit(m: CatModel, oname: Seq<char>, f: ArrowModel) -> bool {
    &&& spec_identity(m, oname) is Ok
    &&& spec_compose(m, f, spec_identity(m, oname)->Ok_0) is Ok
    &&& spec_compose(m, f, spec_identity(m, oname)->Ok_0)->Ok_0 == f
}

impl Category {
    /// True iff `compose(compose(f, g), k)` and `compose(f, compose(g, k))`
    /// both resolve and agree.  Any failure on either side makes the check
    /// false, never a panic.
    pub fn associative(&self, f: &Arrow, g: &Arrow, k: &Arrow) -> (r: bool)
        requires
            self.wf(),
        ensures
            r == spec_associative(self@, f@, g@, k@),
    {
        let fg = match self.compose(f, g) {
            Ok(a) => a,
            Err(_) => {
                return false;
            },
        };
        let gk = match self.compose(g, k) {
            Ok(a) => a,
            Err(_) => {
                return false;
            },
        };
        let left = match self.compose(&fg, k) {
            Ok(a) => a,
            Err(_) => {
                return false;
            },
        };
        let right = match self.compose(f, &gk) {
            Ok(a) => a,
            Err(_) => {
                return false;
            },
        };
        left == right
    }

    /// True iff `compose(identity(o), f)` resolves to `f` itself.
    pub fn left_unit(&self, o: &Object, f: &Arrow) -> (r: bool)
        requires
            self.wf(),
        ensures
            r == spec_left_unit(self@, o@, f@),
    {
        let id = match self.identity(o) {
            Ok(a) => a,
            Err(_) => {
                return false;
            },
        };
        match self.compose(&id, f) {
            Ok(a) => a == *f,
            Err(_) => false,
        }
    }

    /// True iff `compose(f, identity(o))` resolves to `f` itself.
    pub fn right_unit(&self, o: &Object, f: &Arrow) -> (r: bool)
        requires
            self.wf(),
        ensures
            r == spec_right_unit(self@, o@, f@),
    {
        let id = match self.identity(o) {
            Ok(a) => a,
            Err(_) => {
                return false;
            },
        };
        match self.compose(f, &id) {
            Ok(a) => a == *f,
            Err(_) => false,
        }
    }
}

/// The law checkers are faithful to composition failures: when a needed
/// composition does not resolve (for instance because the category declares
/// `f;g` but a check needs the undeclared `g;f`), the associativity check
/// evaluates to false — it never turns a failed composition into a success
/// or a panic.
pub proof fn lemma_checker_faithful(m: CatModel, f: ArrowModel, g: ArrowModel, k: ArrowModel)
    ensures
        spec_compose(m, f, g) is Err ==> !spec_associative(m, f, g, k),
        spec_compose(m, g, k) is Err ==> !spec_associative(m, f, g, k),
        (spec_compose(m, f, g) matches Ok(fg) && spec_compose(m, fg, k) is Err)
            ==> !spec_associative(m, f, g, k),
        (spec_compose(m, g, k) matches Ok(gk) && spec_compose(m, f, gk) is Err)
            ==> !spec_associative(m, f, g, k),
{
}

/// The unit-law checkers are faithful to identity and composition
/// failures: a failed identity lookup or a failed composition makes them
/// false, never a panic.
pub proof fn lemma_unit_checker_faithful(m: CatModel, oname: Seq<char>, f: ArrowModel)
    ensures
        spec_identity(m, oname) is Err ==> !spec_left_unit(m, oname, f) && !spec_right_unit(
            m,
            oname,
            f,
        ),
        (spec_identity(m, oname) matches Ok(id) && spec_compose(m, id, f) is Err)
            ==> !spec_left_unit(m, oname, f),
        (spec_identity(m, oname) matches Ok(id) && spec_compose(m, f, id) is Err)
            ==> !spec_right_unit(m, oname, f),
{
}

} // verus!

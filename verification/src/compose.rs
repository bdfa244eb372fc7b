//! The composition resolver: `f` then `g` composes to whatever arrow the
//! category explicitly declares, never to a derived composite.

use vstd::prelude::*;

use crate::category::Category;
use crate::entity::Arrow;
use crate::errors::CatError;
use crate::errors::ErrModel;
use crate::errors::result_model;
use crate::model::ArrowModel;
use crate::model::CatModel;
use crate::model::arrow_is;
use crate::model::arrow_wf;
use crate::model::composite_index;
use crate::model::declares_pair;
use crate::model::find_arrow;
use crate::model::has_pair;
use crate::model::lemma_first_match;
use crate::model::lemma_first_match_is;

verus! {

/// What `compose` returns, step by step: membership of both arrows, the
/// type check `codomain(f) == domain(g)` (objects compared by name), the
/// same-arrow shortcut, then the first arrow (in insertion order) declaring
/// the pair; `UndeclaredComposition` if none does.
pub open spec fn spec_compose(m: CatModel, f: ArrowModel, g: ArrowModel) -> Result<
    ArrowModel,
    ErrModel,
> {
    match find_arrow(m.arrows, f) {
        None => Err(ErrModel::ArrowNotInCategory(f.name)),
        Some(fi) => match find_arrow(m.arrows, g) {
            None => Err(ErrModel::ArrowNotInCategory(g.name)),
            Some(gi) => if m.objects[f.codomain] != m.objects[g.domain] {
                Err(ErrModel::DomainMismatch(f.name, g.name))
            } else if f == g {
                Ok(f)
            } else {
                match composite_index(m.arrows, fi, gi) {
                    Some(j) => Ok(m.arrows[j]),
                    None => Err(ErrModel::UndeclaredComposition(f.name, g.name)),
                }
            },
        },
    }
}

impl Category {
    /// Resolves the composite "f then g".
    ///
    /// Both arrows must belong to this category (`ArrowNotInCategory`
    /// otherwise) and f's codomain object must equal g's domain object
    /// (`DomainMismatch` otherwise).  The same arrow composed with itself
    /// is itself.  Otherwise the first arrow of the category whose declared
    /// table holds the pair `(f, g)` is the composite; if none declares it,
    /// the composition is `UndeclaredComposition` — an expected failure for
    /// partially specified categories, not a crash.  No transitive or
    /// derived composition is ever attempted.
    pub fn compose(&self, f: &Arrow, g: &Arrow) -> (res: Result<Arrow, CatError>)
        requires
            self.wf(),
        ensures
            result_model(res) == spec_compose(self@, f@, g@),
    {
        let fi = match self.member_index(f) {
            Some(i) => i,
            None => {
                return Err(CatError::ArrowNotInCategory(f.name.clone()));
            },
        };
        let gi = match self.member_index(g) {
            Some(i) => i,
            None => {
                return Err(CatError::ArrowNotInCategory(g.name.clone()));
            },
        };
        proof {
            lemma_first_match(self@.arrows, arrow_is(f@));
            assert(arrow_is(f@)(self@.arrows[fi as int]));
            assert(self@.arrows[fi as int] == f@);
            assert(arrow_wf(
                self@.arrows[fi as int],
                self@.objects.len() as int,
                self@.arrows.len() as int,
            ));
            lemma_first_match(self@.arrows, arrow_is(g@));
            assert(arrow_is(g@)(self@.arrows[gi as int]));
            assert(self@.arrows[gi as int] == g@);
            assert(arrow_wf(
                self@.arrows[gi as int],
                self@.objects.len() as int,
                self@.arrows.len() as int,
            ));
        }
        if self.objects[f.codomain].name != self.objects[g.domain].name {
            return Err(CatError::DomainMismatch(f.name.clone(), g.name.clone()));
        }
        if f == g {
            return Ok(f.clone());
        }
        let mut j: usize = 0;
        while j < self.arrows.len()
            invariant
                0 <= j <= self.arrows.len(),
                find_arrow(self@.arrows, f@) == Some(fi as int),
                find_arrow(self@.arrows, g@) == Some(gi as int),
                self@.objects[f@.codomain] == self@.objects[g@.domain],
                f@ != g@,
                forall|t: int|
                    0 <= t < j ==> !has_pair(#[trigger] self@.arrows[t], fi as int, gi as int),
            decreases self.arrows.len() - j,
        {
            let a = &self.arrows[j];
            let mut k: usize = 0;
            while k < a.equals.len()
                invariant
                    0 <= k <= a.equals.len(),
                    0 <= j < self.arrows.len(),
                    a == &self.arrows[j as int],
                    find_arrow(self@.arrows, f@) == Some(fi as int),
                    find_arrow(self@.arrows, g@) == Some(gi as int),
                    self@.objects[f@.codomain] == self@.objects[g@.domain],
                    f@ != g@,
                    forall|t: int|
                        0 <= t < j ==> !has_pair(
                            #[trigger] self@.arrows[t],
                            fi as int,
                            gi as int,
                        ),
                    forall|t: int|
                        0 <= t < k ==> #[trigger] a@.equals[t] != (fi as int, gi as int),
                decreases a.equals.len() - k,
            {
                if a.equals[k].0 == fi && a.equals[k].1 == gi {
                    proof {
                        assert(a@.equals[k as int] == (fi as int, gi as int));
                        assert(has_pair(self@.arrows[j as int], fi as int, gi as int));
                        assert(declares_pair(fi as int, gi as int)(self@.arrows[j as int]));
                        lemma_first_match_is(
                            self@.arrows,
                            declares_pair(fi as int, gi as int),
                            j as int,
                        );
                    }
                    return Ok(a.clone());
                }
                k += 1;
            }
            proof {
                assert(!has_pair(self@.arrows[j as int], fi as int, gi as int)) by {
                    if has_pair(self@.arrows[j as int], fi as int, gi as int) {
                        let t = choose|t: int|
                            0 <= t < self@.arrows[j as int].equals.len()
                                && self@.arrows[j as int].equals[t] == (fi as int, gi as int);
                        assert(a@.equals[t] != (fi as int, gi as int));
                    }
                }
            }
            j += 1;
        }
        proof {
            lemma_first_match(self@.arrows, declares_pair(fi as int, gi as int));
            assert forall|t: int| 0 <= t < self@.arrows.len() implies !(declares_pair(
                fi as int,
                gi as int,
            )(self@.arrows[t])) by {
                assert(!has_pair(self@.arrows[t], fi as int, gi as int));
            }
        }
        Err(CatError::UndeclaredComposition(f.name.clone(), g.name.clone()))
    }
}

/// Self-composition is idempotent: composing an arrow of the category with
/// itself succeeds and yields the arrow itself, by the resolver's
/// same-arrow shortcut — no declared table entry is needed.  The type check
/// still runs first, so the shortcut applies only where the arrow's
/// codomain object equals its domain object.
pub proof fn lemma_self_composition(m: CatModel, a: ArrowModel)
    requires
        find_arrow(m.arrows, a) is Some,
        m.objects[a.codomain] == m.objects[a.domain],
    ensures
        spec_compose(m, a, a) == Ok::<ArrowModel, ErrModel>(a),
{
}

/// A pair of member arrows whose codomain and domain line up but whose
/// composite no arrow of the category declares resolves to
/// `UndeclaredComposition` — an expected failure, never a panic.
pub proof fn lemma_undeclared_composition(m: CatModel, f: ArrowModel, g: ArrowModel)
    requires
        find_arrow(m.arrows, f) is Some,
        find_arrow(m.arrows, g) is Some,
        m.objects[f.codomain] == m.objects[g.domain],
        f != g,
        forall|j: int|
            0 <= j < m.arrows.len() ==> !has_pair(
                #[trigger] m.arrows[j],
                find_arrow(m.arrows, f)->Some_0,
                find_arrow(m.arrows, g)->Some_0,
            ),
    ensures
        spec_compose(m, f, g) == Err::<ArrowModel, ErrModel>(
            ErrModel::UndeclaredComposition(f.name, g.name),
        ),
{
    let fi = find_arrow(m.arrows, f)->Some_0;
    let gi = find_arrow(m.arrows, g)->Some_0;
    lemma_first_match(m.arrows, declares_pair(fi, gi));
    match composite_index(m.arrows, fi, gi) {
        Some(j) => {
            assert(declares_pair(fi, gi)(m.arrows[j]));
            assert(has_pair(m.arrows[j], fi, gi));
            assert(false);
        },
        None => {},
    }
}

} // verus!

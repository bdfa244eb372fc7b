//! The category store: an immutable, index-based arena of objects and
//! arrows, built once from a declarative description.

use vstd::prelude::*;

use crate::entity::Arrow;
use crate::entity::ArrowDesc;
use crate::entity::Object;
use crate::entity::pairs_model;
use crate::errors::CatError;
use crate::errors::ErrModel;
use crate::errors::result_model;
use crate::model::ArrowModel;
use crate::model::CatModel;
use crate::model::DescModel;
use crate::model::arrow_wf;
use crate::model::cat_wf;
use crate::model::arrow_is;
use crate::model::arrow_name_is;
use crate::model::desc_name_is;
use crate::model::find_arrow;
use crate::model::find_arrow_named;
use crate::model::find_desc_named;
use crate::model::find_object;
use crate::model::first_match;
use crate::model::lemma_first_match;
use crate::model::lemma_first_match_is;
use crate::model::name_is;

verus! {

/// The names of a list of objects, in order.
pub open spec fn obj_names(s: Seq<Object>) -> Seq<Seq<char>> {
    s.map_values(|o: Object| o@)
}

/// The models of a list of arrows, in order.
pub open spec fn arrow_models(s: Seq<Arrow>) -> Seq<ArrowModel> {
    s.map_values(|a: Arrow| a@)
}

/// The models of a list of arrow descriptions, in order.
pub open spec fn desc_models(s: Seq<ArrowDesc>) -> Seq<DescModel> {
    s.map_values(|d: ArrowDesc| d@)
}

/// A small category: an ordered list of objects and an ordered list of
/// arrows that reference the objects (and each other) by index.  Built once
/// by [`Category::build`] and immutable thereafter.
#[derive(Debug)]
pub struct Category {
    pub objects: Vec<Object>,
    pub arrows: Vec<Arrow>,
}

impl View for Category {
    type V = CatModel;

    open spec fn view(&self) -> CatModel {
        CatModel { objects: obj_names(self.objects@), arrows: arrow_models(self.arrows@) }
    }
}

/// Both names of the equality pair resolve to arrow descriptions.
pub open spec fn pair_resolves(descs: Seq<DescModel>, p: (Seq<char>, Seq<char>)) -> bool {
    find_desc_named(descs, p.0) is Some && find_desc_named(descs, p.1) is Some
}

/// The predicate "this equality pair does not resolve".
pub open spec fn pair_unresolved(descs: Seq<DescModel>) -> spec_fn((Seq<char>, Seq<char>)) -> bool {
    |p: (Seq<char>, Seq<char>)| !pair_resolves(descs, p)
}

/// Every name the description mentions resolves: its domain and codomain
/// against the object list, its equality pairs against the arrow names.
pub open spec fn desc_resolves(
    objs: Seq<Seq<char>>,
    descs: Seq<DescModel>,
    d: DescModel,
) -> bool {
    &&& find_object(objs, d.domain) is Some
    &&& find_object(objs, d.codomain) is Some
    &&& forall|k: int| 0 <= k < d.equals.len() ==> pair_resolves(descs, #[trigger] d.equals[k])
}

/// The resolution of one equality pair: both names replaced by the index of
/// the first arrow description bearing them.
pub open spec fn resolved_pair(descs: Seq<DescModel>) -> spec_fn((Seq<char>, Seq<char>)) -> (
    int,
    int,
) {
    |p: (Seq<char>, Seq<char>)|
        (find_desc_named(descs, p.0)->Some_0, find_desc_named(descs, p.1)->Some_0)
}

/// The arrow that a resolving description builds: names replaced by the
/// indices of their first bearers.
pub open spec fn resolved_arrow(
    objs: Seq<Seq<char>>,
    descs: Seq<DescModel>,
    d: DescModel,
) -> ArrowModel {
    ArrowModel {
        name: d.name,
        domain: find_object(objs, d.domain)->Some_0,
        codomain: find_object(objs, d.codomain)->Some_0,
        equals: d.equals.map_values(resolved_pair(descs)),
    }
}

/// The failure a non-resolving description reports: the first name, in
/// checking order (domain, codomain, then each equality pair left to
/// right), that does not resolve.
pub open spec fn desc_error(objs: Seq<Seq<char>>, descs: Seq<DescModel>, d: DescModel) -> ErrModel {
    if find_object(objs, d.domain) is None {
        ErrModel::UnknownObject(d.domain)
    } else if find_object(objs, d.codomain) is None {
        ErrModel::UnknownObject(d.codomain)
    } else {
        match first_match(d.equals, pair_unresolved(descs)) {
            Some(k) => if find_desc_named(descs, d.equals[k].0) is None {
                ErrModel::UnknownArrow(d.equals[k].0)
            } else {
                ErrModel::UnknownArrow(d.equals[k].1)
            },
            None => ErrModel::UnknownObject(d.domain),
        }
    }
}

/// What `domain` returns: the arrow's source object, or
/// `ArrowNotInCategory` if no arrow of the category equals `f`.
pub open spec fn spec_domain(m: CatModel, f: ArrowModel) -> Result<Seq<char>, ErrModel> {
    match find_arrow(m.arrows, f) {
        None => Err(ErrModel::ArrowNotInCategory(f.name)),
        Some(i) => Ok(m.objects[f.domain]),
    }
}

/// What `codomain` returns: the arrow's target object, or
/// `ArrowNotInCategory` if no arrow of the category equals `f`.
pub open spec fn spec_codomain(m: CatModel, f: ArrowModel) -> Result<Seq<char>, ErrModel> {
    match find_arrow(m.arrows, f) {
        None => Err(ErrModel::ArrowNotInCategory(f.name)),
        Some(i) => Ok(m.objects[f.codomain]),
    }
}

/// Arrow `i` is an identity candidate for object `oi`: its domain and
/// codomain are both `oi`.
pub open spec fn is_candidate(m: CatModel, oi: int, i: int) -> bool {
    &&& 0 <= i < m.arrows.len()
    &&& m.arrows[i].domain == oi
    &&& m.arrows[i].codomain == oi
}

/// Object `oi` has no identity candidate at all.
pub open spec fn no_candidate(m: CatModel, oi: int) -> bool {
    forall|i: int| !is_candidate(m, oi, i)
}

/// Object `oi` has exactly one identity candidate.
pub open spec fn unique_candidate(m: CatModel, oi: int) -> bool {
    exists|i: int|
        is_candidate(m, oi, i) && (forall|j: int| is_candidate(m, oi, j) ==> j == i)
}

/// The index of `oi`'s identity candidate (meaningful when one exists).
pub open spec fn the_candidate(m: CatModel, oi: int) -> int {
    choose|i: int| is_candidate(m, oi, i)
}

/// What `identity` returns: the unique arrow with domain and codomain both
/// equal to the named object, `UnknownObject` if the name is absent,
/// `NoIdentity` if no arrow qualifies, and `AmbiguousIdentity` if more than
/// one does.
pub open spec fn spec_identity(m: CatModel, name: Seq<char>) -> Result<ArrowModel, ErrModel> {
    match find_object(m.objects, name) {
        None => Err(ErrModel::UnknownObject(name)),
        Some(oi) => if no_candidate(m, oi) {
            Err(ErrModel::NoIdentity(name))
        } else if unique_candidate(m, oi) {
            Ok(m.arrows[the_candidate(m, oi)])
        } else {
            Err(ErrModel::AmbiguousIdentity(name))
        },
    }
}

/// Index of the first object in `objects` named `name`, if any.
pub(crate) fn find_object_index(objects: &Vec<Object>, name: &String) -> (r: Option<usize>)
    ensures
        r is Some <==> find_object(obj_names(objects@), name@) is Some,
        r matches Some(i) ==> i < objects.len() && find_object(obj_names(objects@), name@) == Some(
            i as int,
        ),
{
    let ghost objs = obj_names(objects@);
    let mut j: usize = 0;
    while j < objects.len()
        invariant
            0 <= j <= objects.len(),
            objs == obj_names(objects@),
            forall|k: int| 0 <= k < j ==> objs[k] != name@,
        decreases objects.len() - j,
    {
        if objects[j].name == *name {
            proof {
                assert(name_is(name@)(objs[j as int]));
                lemma_first_match_is(objs, name_is(name@), j as int);
            }
            return Some(j);
        }
        j += 1;
    }
    proof {
        lemma_first_match(objs, name_is(name@));
    }
    None
}

/// Index of the first arrow description in `descs` named `name`, if any.
fn find_desc_index(descs: &Vec<ArrowDesc>, name: &String) -> (r: Option<usize>)
    ensures
        r is Some <==> find_desc_named(desc_models(descs@), name@) is Some,
        r matches Some(i) ==> i < descs.len() && find_desc_named(desc_models(descs@), name@)
            == Some(i as int),
{
    let ghost dm = desc_models(descs@);
    let mut j: usize = 0;
    while j < descs.len()
        invariant
            0 <= j <= descs.len(),
            dm == desc_models(descs@),
            forall|k: int| 0 <= k < j ==> (#[trigger] dm[k]).name != name@,
        decreases descs.len() - j,
    {
        if descs[j].name == *name {
            proof {
                assert(desc_name_is(name@)(dm[j as int]));
                lemma_first_match_is(dm, desc_name_is(name@), j as int);
            }
            return Some(j);
        }
        j += 1;
    }
    proof {
        lemma_first_match(dm, desc_name_is(name@));
        assert forall|k: int| 0 <= k < dm.len() implies !(desc_name_is(name@)(dm[k])) by {
            assert(dm[k].name != name@);
        }
    }
    None
}

impl Category {
    /// The category's structural invariant: every index any arrow mentions
    /// is in bounds.
    pub open spec fn wf(&self) -> bool {
        cat_wf(self@)
    }

    /// Builds a category from objects and declarative arrow descriptions.
    ///
    /// Every description's domain, codomain and equality-pair names are
    /// resolved to indices (first bearer of the name, in insertion order).
    /// The first name that does not resolve fails the whole build with
    /// `UnknownObject` or `UnknownArrow`, naming it.
    pub fn build(objects: Vec<Object>, descs: Vec<ArrowDesc>) -> (res: Result<Category, CatError>)
        ensures
            ({
                let objs = obj_names(objects@);
                let dm = desc_models(descs@);
                match res {
                    Ok(c) => {
                        &&& c@.objects == objs
                        &&& c@.arrows.len() == dm.len()
                        &&& forall|i: int|
                            0 <= i < dm.len() ==> desc_resolves(objs, dm, #[trigger] dm[i])
                        &&& forall|i: int|
                            0 <= i < dm.len() ==> #[trigger] c@.arrows[i] == resolved_arrow(
                                objs,
                                dm,
                                dm[i],
                            )
                        &&& c.wf()
                    },
                    Err(e) => exists|i: int|
                        {
                            &&& 0 <= i < dm.len()
                            &&& !desc_resolves(objs, dm, #[trigger] dm[i])
                            &&& forall|j: int| 0 <= j < i ==> desc_resolves(objs, dm, dm[j])
                            &&& e@ == desc_error(objs, dm, dm[i])
                        },
                }
            }),
    {
        let ghost objs = obj_names(objects@);
        let ghost dm = desc_models(descs@);
        let mut arrows: Vec<Arrow> = Vec::new();
        let mut i: usize = 0;
        while i < descs.len()
            invariant
                0 <= i <= descs.len(),
                objs == obj_names(objects@),
                dm == desc_models(descs@),
                arrows@.len() == i,
                forall|j: int| 0 <= j < i ==> desc_resolves(objs, dm, #[trigger] dm[j]),
                forall|j: int|
                    0 <= j < i ==> #[trigger] arrow_models(arrows@)[j] == resolved_arrow(
                        objs,
                        dm,
                        dm[j],
                    ),
                forall|j: int|
                    0 <= j < i ==> arrow_wf(
                        #[trigger] arrow_models(arrows@)[j],
                        objs.len() as int,
                        dm.len() as int,
                    ),
            decreases descs.len() - i,
        {
            let d = &descs[i];
            let ghost ii = i as int;
            let di = match find_object_index(&objects, &d.domain) {
                Some(x) => x,
                None => {
                    proof {
                        assert(find_object(objs, dm[ii].domain) is None);
                        assert(!desc_resolves(objs, dm, dm[ii]));
                        assert(desc_error(objs, dm, dm[ii]) == ErrModel::UnknownObject(
                            dm[ii].domain,
                        ));
                    }
                    return Err(CatError::UnknownObject(d.domain.clone()));
                },
            };
            let ci = match find_object_index(&objects, &d.codomain) {
                Some(x) => x,
                None => {
                    proof {
                        assert(find_object(objs, dm[ii].codomain) is None);
                        assert(!desc_resolves(objs, dm, dm[ii]));
                        assert(desc_error(objs, dm, dm[ii]) == ErrModel::UnknownObject(
                            dm[ii].codomain,
                        ));
                    }
                    return Err(CatError::UnknownObject(d.codomain.clone()));
                },
            };
            let mut eqs: Vec<(usize, usize)> = Vec::new();
            let mut k: usize = 0;
            while k < d.equals.len()
                invariant
                    0 <= k <= d.equals.len(),
                    objs == obj_names(objects@),
                    dm == desc_models(descs@),
                    0 <= i < descs.len(),
                    ii == i as int,
                    d == &descs[i as int],
                    find_object(objs, dm[ii].domain) == Some(di as int),
                    find_object(objs, dm[ii].codomain) == Some(ci as int),
                    forall|j: int| 0 <= j < ii ==> desc_resolves(objs, dm, #[trigger] dm[j]),
                    eqs@.len() == k,
                    forall|t: int|
                        0 <= t < k ==> pair_resolves(dm, #[trigger] d@.equals[t]),
                    forall|t: int|
                        0 <= t < k ==> #[trigger] pairs_model(eqs@)[t] == resolved_pair(dm)(
                            d@.equals[t],
                        ),
                    forall|t: int|
                        0 <= t < k ==> 0 <= (#[trigger] pairs_model(eqs@)[t]).0 < dm.len()
                            && 0 <= pairs_model(eqs@)[t].1 < dm.len(),
                decreases d.equals.len() - k,
            {
                let ghost kk = k as int;
                let bi = match find_desc_index(&descs, &d.equals[k].0) {
                    Some(x) => x,
                    None => {
                        proof {
                            assert(find_desc_named(dm, dm[ii].equals[kk].0) is None);
                            assert(pair_unresolved(dm)(dm[ii].equals[kk]));
                            assert forall|t: int| 0 <= t < kk implies !(pair_unresolved(dm)(
                                dm[ii].equals[t],
                            )) by {
                                assert(pair_resolves(dm, dm[ii].equals[t]));
                            }
                            lemma_first_match_is(dm[ii].equals, pair_unresolved(dm), kk);
                            assert(!desc_resolves(objs, dm, dm[ii]));
                            assert(desc_error(objs, dm, dm[ii]) == ErrModel::UnknownArrow(
                                dm[ii].equals[kk].0,
                            ));
                        }
                        return Err(CatError::UnknownArrow(d.equals[k].0.clone()));
                    },
                };
                let ai = match find_desc_index(&descs, &d.equals[k].1) {
                    Some(x) => x,
                    None => {
                        proof {
                            assert(find_desc_named(dm, dm[ii].equals[kk].1) is None);
                            assert(pair_unresolved(dm)(dm[ii].equals[kk]));
                            assert forall|t: int| 0 <= t < kk implies !(pair_unresolved(dm)(
                                dm[ii].equals[t],
                            )) by {
                                assert(pair_resolves(dm, dm[ii].equals[t]));
                            }
                            lemma_first_match_is(dm[ii].equals, pair_unresolved(dm), kk);
                            assert(!desc_resolves(objs, dm, dm[ii]));
                            assert(desc_error(objs, dm, dm[ii]) == ErrModel::UnknownArrow(
                                dm[ii].equals[kk].1,
                            ));
                        }
                        return Err(CatError::UnknownArrow(d.equals[k].1.clone()));
                    },
                };
                let ghost eqs0 = eqs@;
                eqs.push((bi, ai));
                proof {
                    assert(eqs@ == eqs0.push((bi, ai)));
                    assert(pair_resolves(dm, dm[ii].equals[kk]));
                    assert(pairs_model(eqs@)[kk] == resolved_pair(dm)(dm[ii].equals[kk]));
                    assert forall|t: int| 0 <= t < kk implies #[trigger] pairs_model(eqs@)[t]
                        == pairs_model(eqs0)[t] by {
                        assert(eqs@[t] == eqs0[t]);
                    }
                }
                k += 1;
            }
            let arrow = Arrow {
                name: d.name.clone(),
                domain: di,
                codomain: ci,
                equals: eqs,
            };
            proof {
                assert(arrow@.equals =~= dm[ii].equals.map_values(resolved_pair(dm)));
                assert(desc_resolves(objs, dm, dm[ii]));
                assert(arrow@ == resolved_arrow(objs, dm, dm[ii]));
                lemma_first_match(objs, name_is(dm[ii].domain));
                lemma_first_match(objs, name_is(dm[ii].codomain));
                assert(arrow_wf(arrow@, objs.len() as int, dm.len() as int));
            }
            let ghost arrows0 = arrows@;
            let ghost av = arrow;
            let ghost am = arrow@;
            arrows.push(arrow);
            proof {
                assert(arrows@ == arrows0.push(av));
                assert(arrow_models(arrows@)[ii] == am);
                assert forall|j: int| 0 <= j < ii implies #[trigger] arrow_models(arrows@)[j]
                    == arrow_models(arrows0)[j] by {
                    assert(arrows@[j] == arrows0[j]);
                }
            }
            i += 1;
        }
        let c = Category { objects, arrows };
        proof {
            assert(c@.objects == objs);
            assert forall|j: int| 0 <= j < c@.arrows.len() implies arrow_wf(
                #[trigger] c@.arrows[j],
                c@.objects.len() as int,
                c@.arrows.len() as int,
            ) by {
                assert(arrow_models(c.arrows@)[j] == c@.arrows[j]);
            }
        }
        Ok(c)
    }

    /// Index of the first arrow of the category equal to `f`, if any.
    pub(crate) fn member_index(&self, f: &Arrow) -> (r: Option<usize>)
        ensures
            r is Some <==> find_arrow(self@.arrows, f@) is Some,
            r matches Some(i) ==> i < self.arrows.len() && find_arrow(self@.arrows, f@) == Some(
                i as int,
            ),
    {
        let mut j: usize = 0;
        while j < self.arrows.len()
            invariant
                0 <= j <= self.arrows.len(),
                forall|t: int| 0 <= t < j ==> self@.arrows[t] != f@,
            decreases self.arrows.len() - j,
        {
            if self.arrows[j] == *f {
                proof {
                    assert(arrow_is(f@)(self@.arrows[j as int]));
                    lemma_first_match_is(self@.arrows, arrow_is(f@), j as int);
                }
                return Some(j);
            }
            j += 1;
        }
        proof {
            lemma_first_match(self@.arrows, arrow_is(f@));
            assert forall|t: int| 0 <= t < self@.arrows.len() implies !(arrow_is(f@)(
                self@.arrows[t],
            )) by {
                assert(self@.arrows[t] != f@);
            }
        }
        None
    }

    /// The arrow's source object.  Fails with `ArrowNotInCategory` if the
    /// arrow does not belong to this category.
    pub fn domain(&self, f: &Arrow) -> (res: Result<Object, CatError>)
        requires
            self.wf(),
        ensures
            result_model(res) == spec_domain(self@, f@),
    {
        match self.member_index(f) {
            None => Err(CatError::ArrowNotInCategory(f.name.clone())),
            Some(i) => {
                proof {
                    lemma_first_match(self@.arrows, arrow_is(f@));
                    assert(arrow_is(f@)(self@.arrows[i as int]));
                    assert(self@.arrows[i as int] == f@);
                    assert(arrow_wf(
                        self@.arrows[i as int],
                        self@.objects.len() as int,
                        self@.arrows.len() as int,
                    ));
                }
                Ok(self.objects[f.domain].clone())
            },
        }
    }

    /// The arrow's target object.  Fails with `ArrowNotInCategory` if the
    /// arrow does not belong to this category.
    pub fn codomain(&self, f: &Arrow) -> (res: Result<Object, CatError>)
        requires
            self.wf(),
        ensures
            result_model(res) == spec_codomain(self@, f@),
    {
        match self.member_index(f) {
            None => Err(CatError::ArrowNotInCategory(f.name.clone())),
            Some(i) => {
                proof {
                    lemma_first_match(self@.arrows, arrow_is(f@));
                    assert(arrow_is(f@)(self@.arrows[i as int]));
                    assert(self@.arrows[i as int] == f@);
                    assert(arrow_wf(
                        self@.arrows[i as int],
                        self@.objects.len() as int,
                        self@.arrows.len() as int,
                    ));
                }
                Ok(self.objects[f.codomain].clone())
            },
        }
    }

    /// The identity arrow of object `o`: the unique arrow whose domain and
    /// codomain are both `o`.  Fails with `UnknownObject` if `o` is not in
    /// the category, `NoIdentity` if no arrow qualifies, and
    /// `AmbiguousIdentity` if more than one does — both structural defects
    /// are surfaced, never silently resolved.
    pub fn identity(&self, o: &Object) -> (res: Result<Arrow, CatError>)
        ensures
            result_model(res) == spec_identity(self@, o@),
    {
        let oi = match find_object_index(&self.objects, &o.name) {
            Some(i) => i,
            None => {
                return Err(CatError::UnknownObject(o.name.clone()));
            },
        };
        let mut found: Option<usize> = None;
        let mut j: usize = 0;
        while j < self.arrows.len()
            invariant
                0 <= j <= self.arrows.len(),
                find_object(self@.objects, o@) == Some(oi as int),
                match found {
                    None => forall|t: int| 0 <= t < j ==> !is_candidate(self@, oi as int, t),
                    Some(fi) => {
                        &&& fi < j
                        &&& is_candidate(self@, oi as int, fi as int)
                        &&& forall|t: int|
                            0 <= t < j && is_candidate(self@, oi as int, t) ==> t == fi as int
                    },
                },
            decreases self.arrows.len() - j,
        {
            if self.arrows[j].domain == oi && self.arrows[j].codomain == oi {
                match found {
                    None => {
                        found = Some(j);
                    },
                    Some(fi) => {
                        proof {
                            assert(is_candidate(self@, oi as int, fi as int));
                            assert(is_candidate(self@, oi as int, j as int));
                            assert(!no_candidate(self@, oi as int));
                            assert(!unique_candidate(self@, oi as int)) by {
                                if unique_candidate(self@, oi as int) {
                                    let c = choose|i: int|
                                        is_candidate(self@, oi as int, i) && (forall|j2: int|
                                            is_candidate(self@, oi as int, j2) ==> j2 == i);
                                    assert(fi as int == c);
                                    assert(j as int == c);
                                }
                            }
                        }
                        return Err(CatError::AmbiguousIdentity(o.name.clone()));
                    },
                }
            }
            j += 1;
        }
        match found {
            None => {
                proof {
                    assert forall|t: int| !is_candidate(self@, oi as int, t) by {
                        if 0 <= t < self@.arrows.len() {
                            assert(!is_candidate(self@, oi as int, t));
                        }
                    }
                }
                Err(CatError::NoIdentity(o.name.clone()))
            },
            Some(fi) => {
                proof {
                    assert(is_candidate(self@, oi as int, fi as int) && (forall|j2: int|
                        is_candidate(self@, oi as int, j2) ==> j2 == fi as int));
                    assert(unique_candidate(self@, oi as int));
                    assert(is_candidate(self@, oi as int, the_candidate(self@, oi as int)));
                    assert(the_candidate(self@, oi as int) == fi as int);
                }
                Ok(self.arrows[fi].clone())
            },
        }
    }

    /// The first object bearing `name`, if any.
    pub fn object_named(&self, name: &String) -> (r: Option<&Object>)
        ensures
            r is Some <==> find_object(self@.objects, name@) is Some,
            r matches Some(o) ==> o@ == self@.objects[find_object(self@.objects, name@)->Some_0],
    {
        match find_object_index(&self.objects, name) {
            Some(i) => Some(&self.objects[i]),
            None => None,
        }
    }

    /// The first arrow bearing `name`, if any.
    pub fn arrow_named(&self, name: &String) -> (r: Option<&Arrow>)
        ensures
            r is Some <==> find_arrow_named(self@.arrows, name@) is Some,
            r matches Some(a) ==> a@ == self@.arrows[find_arrow_named(self@.arrows, name@)->Some_0],
    {
        let mut j: usize = 0;
        while j < self.arrows.len()
            invariant
                0 <= j <= self.arrows.len(),
                forall|t: int| 0 <= t < j ==> (#[trigger] self@.arrows[t]).name != name@,
            decreases self.arrows.len() - j,
        {
            if self.arrows[j].name == *name {
                proof {
                    assert(arrow_name_is(name@)(self@.arrows[j as int]));
                    lemma_first_match_is(self@.arrows, arrow_name_is(name@), j as int);
                }
                return Some(&self.arrows[j]);
            }
            j += 1;
        }
        proof {
            lemma_first_match(self@.arrows, arrow_name_is(name@));
            assert forall|t: int| 0 <= t < self@.arrows.len() implies !(arrow_name_is(name@)(
                self@.arrows[t],
            )) by {
                assert(self@.arrows[t].name != name@);
            }
        }
        None
    }

    /// The objects, in insertion order.
    pub fn objects(&self) -> (r: &Vec<Object>)
        ensures
            obj_names(r@) == self@.objects,
    {
        &self.objects
    }

    /// The arrows, in insertion order.
    pub fn arrows(&self) -> (r: &Vec<Arrow>)
        ensures
            arrow_models(r@) == self@.arrows,
    {
        &self.arrows
    }
}

/// Identity lookup surfaces uniqueness: a successful lookup returns the one
/// arrow with domain and codomain at the object, and two distinct
/// candidates for the same object force `AmbiguousIdentity` — never a
/// silent pick of one of them.
pub proof fn lemma_identity_unique(m: CatModel, name: Seq<char>)
    requires
        find_object(m.objects, name) is Some,
    ensures
        ({
            let oi = find_object(m.objects, name)->Some_0;
            &&& (spec_identity(m, name) matches Ok(a) ==> {
                &&& exists|i: int| is_candidate(m, oi, i) && a == m.arrows[i]
                &&& forall|i: int, j: int|
                    is_candidate(m, oi, i) && is_candidate(m, oi, j) ==> i == j
            })
            &&& ((exists|i: int, j: int|
                is_candidate(m, oi, i) && is_candidate(m, oi, j) && i != j) ==> spec_identity(
                m,
                name,
            ) == Err::<ArrowModel, ErrModel>(ErrModel::AmbiguousIdentity(name)))
        }),
{
    let oi = find_object(m.objects, name)->Some_0;
    if spec_identity(m, name) is Ok {
        assert(unique_candidate(m, oi));
        let c = choose|i: int|
            is_candidate(m, oi, i) && (forall|j: int| is_candidate(m, oi, j) ==> j == i);
        assert(is_candidate(m, oi, c));
        assert(is_candidate(m, oi, the_candidate(m, oi)));
        assert(the_candidate(m, oi) == c);
        assert forall|i: int, j: int|
            is_candidate(m, oi, i) && is_candidate(m, oi, j) implies i == j by {
            assert(i == c);
            assert(j == c);
        }
        assert(is_candidate(m, oi, c) && spec_identity(m, name)->Ok_0 == m.arrows[c]);
    }
    if exists|i: int, j: int| is_candidate(m, oi, i) && is_candidate(m, oi, j) && i != j {
        let (i, j) = choose|i: int, j: int|
            is_candidate(m, oi, i) && is_candidate(m, oi, j) && i != j;
        assert(!no_candidate(m, oi));
        assert(!unique_candidate(m, oi)) by {
            if unique_candidate(m, oi) {
                let c = choose|x: int|
                    is_candidate(m, oi, x) && (forall|y: int| is_candidate(m, oi, y) ==> y == x);
                assert(i == c);
                assert(j == c);
            }
        }
    }
}

} // verus!

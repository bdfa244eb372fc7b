//! The schema splitter: partitions an object's outgoing attribute arrows
//! into named groups and materializes each group as its own independent
//! sub-category.

use vstd::prelude::*;

use crate::category::Category;
use crate::category::arrow_models;
use crate::category::find_object_index;
use crate::category::obj_names;
use crate::entity::Arrow;
use crate::entity::Object;
use crate::model::ArrowModel;
use crate::model::CatModel;
use crate::model::arrow_wf;
use crate::model::find_object;
use crate::model::lemma_first_match;
use crate::model::lemma_first_match_is;
use crate::model::name_is;

verus! {

/// Arrow `i` is an attribute of table object `t`: its domain object is
/// named `t` and its codomain object is not.
pub open spec fn qualifies(m: CatModel, t: Seq<char>, i: int) -> bool {
    &&& 0 <= i < m.arrows.len()
    &&& m.objects[m.arrows[i].domain] == t
    &&& m.objects[m.arrows[i].codomain] != t
}

/// The distinct keys of the qualifying arrows from position `i` on, in
/// first-seen order, continuing from the keys already `seen`.
pub open spec fn distinct_qual_keys(
    m: CatModel,
    t: Seq<char>,
    keys: Seq<Seq<char>>,
    i: int,
    seen: Seq<Seq<char>>,
) -> Seq<Seq<char>>
    decreases m.arrows.len() - i,
{
    if i < 0 || i >= m.arrows.len() {
        seen
    } else if qualifies(m, t, i) && !seen.contains(keys[i]) {
        distinct_qual_keys(m, t, keys, i + 1, seen.push(keys[i]))
    } else {
        distinct_qual_keys(m, t, keys, i + 1, seen)
    }
}

/// The group keys of a split: the distinct keys of all qualifying arrows,
/// in first-seen order.
pub open spec fn split_keys(m: CatModel, t: Seq<char>, keys: Seq<Seq<char>>) -> Seq<Seq<char>> {
    distinct_qual_keys(m, t, keys, 0, Seq::empty())
}

/// Some position of `s` names an arrow of `m` equal (by value) to `a`.
pub open spec fn contains_arrow(m: CatModel, s: Seq<int>, a: ArrowModel) -> bool {
    exists|k: int| 0 <= k < s.len() && m.arrows[s[k]] == a
}

/// The source indices of the group keyed `key`: the qualifying arrows from
/// position `i` on whose key is `key`, in order, each skipped when an arrow
/// of equal value is already accumulated (duplicates are removed by arrow
/// value).
pub open spec fn group_sources(
    m: CatModel,
    t: Seq<char>,
    keys: Seq<Seq<char>>,
    key: Seq<char>,
    i: int,
    acc: Seq<int>,
) -> Seq<int>
    decreases m.arrows.len() - i,
{
    if i < 0 || i >= m.arrows.len() {
        acc
    } else if qualifies(m, t, i) && keys[i] == key && !contains_arrow(m, acc, m.arrows[i]) {
        group_sources(m, t, keys, key, i + 1, acc.push(i))
    } else {
        group_sources(m, t, keys, key, i + 1, acc)
    }
}

/// The source indices of the whole group keyed `key`.
pub open spec fn sources_of(m: CatModel, t: Seq<char>, keys: Seq<Seq<char>>, key: Seq<char>) -> Seq<
    int,
> {
    group_sources(m, t, keys, key, 0, Seq::empty())
}

/// Appends the domain and codomain object names of arrow `x` to `acc`,
/// each only when not already present.
pub open spec fn one_obj_step(m: CatModel, acc: Seq<Seq<char>>, x: int) -> Seq<Seq<char>> {
    let d = m.objects[m.arrows[x].domain];
    let c = m.objects[m.arrows[x].codomain];
    let acc1 = if acc.contains(d) {
        acc
    } else {
        acc.push(d)
    };
    if acc1.contains(c) {
        acc1
    } else {
        acc1.push(c)
    }
}

/// The object names a group touches: for each source arrow in order, its
/// domain then its codomain name, first occurrences only.
pub open spec fn group_objects(
    m: CatModel,
    gis: Seq<int>,
    j: int,
    acc: Seq<Seq<char>>,
) -> Seq<Seq<char>>
    decreases gis.len() - j,
{
    if j < 0 || j >= gis.len() {
        acc
    } else {
        group_objects(m, gis, j + 1, one_obj_step(m, acc, gis[j]))
    }
}

/// The object names of the whole group with source arrows `gis`.
pub open spec fn objects_of(m: CatModel, gis: Seq<int>) -> Seq<Seq<char>> {
    group_objects(m, gis, 0, Seq::empty())
}

/// The copy of source arrow `i` that a sub-category holds: same name, its
/// domain and codomain re-resolved against the sub-category's object list,
/// and no declared compositions carried over.
pub open spec fn group_arrow(m: CatModel, onames: Seq<Seq<char>>, i: int) -> ArrowModel {
    ArrowModel {
        name: m.arrows[i].name,
        domain: find_object(onames, m.objects[m.arrows[i].domain])->Some_0,
        codomain: find_object(onames, m.objects[m.arrows[i].codomain])->Some_0,
        equals: Seq::empty(),
    }
}

/// The sub-category of the group keyed `key`: exactly the objects its
/// arrows touch and exactly its arrows, re-indexed.
pub open spec fn spec_group(m: CatModel, t: Seq<char>, keys: Seq<Seq<char>>, key: Seq<char>) -> CatModel {
    let gis = sources_of(m, t, keys, key);
    let onames = objects_of(m, gis);
    CatModel {
        objects: onames,
        arrows: Seq::new(gis.len(), |j: int| group_arrow(m, onames, gis[j])),
    }
}

/// The whole split: one `(key, sub-category)` pair per distinct group key,
/// in first-seen-key order.
pub open spec fn spec_split(m: CatModel, t: Seq<char>, keys: Seq<Seq<char>>) -> Seq<
    (Seq<char>, CatModel),
> {
    split_keys(m, t, keys).map_values(|key: Seq<char>| (key, spec_group(m, t, keys, key)))
}

/// A name found at `x` is still found at `x` after appending one more name.
pub proof fn lemma_find_object_push(
    objs: Seq<Seq<char>>,
    name: Seq<char>,
    extra: Seq<char>,
    x: int,
)
    requires
        find_object(objs, name) == Some(x),
    ensures
        find_object(objs.push(extra), name) == Some(x),
{
    lemma_first_match(objs, name_is(name));
    assert(name_is(name)(objs.push(extra)[x]));
    assert forall|k: int| 0 <= k < x implies !(name_is(name)(objs.push(extra)[k])) by {
        assert(objs.push(extra)[k] == objs[k]);
        assert(!(name_is(name)(objs[k])));
    }
    lemma_first_match_is(objs.push(extra), name_is(name), x);
}

/// A name is found iff it is present.
pub proof fn lemma_find_object_contains(objs: Seq<Seq<char>>, name: Seq<char>)
    ensures
        find_object(objs, name) is Some <==> objs.contains(name),
{
    lemma_first_match(objs, name_is(name));
    match find_object(objs, name) {
        Some(j) => {
            assert(name_is(name)(objs[j]));
            assert(objs[j] == name);
        },
        None => {
            if objs.contains(name) {
                let w = choose|k: int| 0 <= k < objs.len() && objs[k] == name;
                assert(name_is(name)(objs[w]));
            }
        },
    }
}

/// A name found before a `one_obj_step` extension is found at the same
/// index after it.
pub proof fn lemma_find_object_step(
    onames0: Seq<Seq<char>>,
    onames2: Seq<Seq<char>>,
    m: CatModel,
    x: int,
    name: Seq<char>,
)
    requires
        onames2 == one_obj_step(m, onames0, x),
        find_object(onames0, name) is Some,
    ensures
        find_object(onames2, name) == find_object(onames0, name),
{
    let v = find_object(onames0, name)->Some_0;
    assert(find_object(onames0, name) == Some(v));
    let d = m.objects[m.arrows[x].domain];
    let c = m.objects[m.arrows[x].codomain];
    let acc1 = if onames0.contains(d) {
        onames0
    } else {
        onames0.push(d)
    };
    if !onames0.contains(d) {
        lemma_find_object_push(onames0, name, d, v);
    }
    assert(find_object(acc1, name) == Some(v));
    if !acc1.contains(c) {
        lemma_find_object_push(acc1, name, c, v);
    }
}

/// Appending one more source arrow extends the accumulated object names by
/// exactly one step.
pub proof fn lemma_group_objects_push(
    m: CatModel,
    gis: Seq<int>,
    x: int,
    j: int,
    acc: Seq<Seq<char>>,
)
    requires
        0 <= j <= gis.len(),
    ensures
        group_objects(m, gis.push(x), j, acc) == one_obj_step(
            m,
            group_objects(m, gis, j, acc),
            x,
        ),
    decreases gis.len() - j,
{
    if j == gis.len() {
        assert(gis.push(x)[j] == x);
        assert(group_objects(m, gis.push(x), j, acc) == group_objects(
            m,
            gis.push(x),
            j + 1,
            one_obj_step(m, acc, x),
        ));
    } else {
        assert(gis.push(x)[j] == gis[j]);
        lemma_group_objects_push(m, gis, x, j + 1, one_obj_step(m, acc, gis[j]));
    }
}

/// The keys the split produces are exactly the keys of the qualifying
/// arrows (plus whatever was already seen).
proof fn lemma_distinct_keys_contains(
    m: CatModel,
    t: Seq<char>,
    keys: Seq<Seq<char>>,
    i: int,
    seen: Seq<Seq<char>>,
    x: Seq<char>,
)
    requires
        0 <= i <= m.arrows.len(),
    ensures
        distinct_qual_keys(m, t, keys, i, seen).contains(x) <==> (seen.contains(x) || exists|j: int|
            i <= j < m.arrows.len() && #[trigger] qualifies(m, t, j) && keys[j] == x),
    decreases m.arrows.len() - i,
{
    broadcast use vstd::seq_lib::lemma_seq_contains_after_push;

    if i >= m.arrows.len() {
    } else if qualifies(m, t, i) && !seen.contains(keys[i]) {
        lemma_distinct_keys_contains(m, t, keys, i + 1, seen.push(keys[i]), x);
        if keys[i] == x {
            assert(qualifies(m, t, i) && keys[i] == x);
        }
    } else {
        lemma_distinct_keys_contains(m, t, keys, i + 1, seen, x);
        if qualifies(m, t, i) && keys[i] == x {
            assert(seen.contains(keys[i]));
        }
    }
}

/// The split's key list holds no key twice.
proof fn lemma_distinct_keys_nodup(
    m: CatModel,
    t: Seq<char>,
    keys: Seq<Seq<char>>,
    i: int,
    seen: Seq<Seq<char>>,
)
    requires
        0 <= i <= m.arrows.len(),
        forall|a: int, b: int| 0 <= a < b < seen.len() ==> seen[a] != seen[b],
    ensures
        forall|a: int, b: int|
            0 <= a < b < distinct_qual_keys(m, t, keys, i, seen).len() ==> distinct_qual_keys(
                m,
                t,
                keys,
                i,
                seen,
            )[a] != distinct_qual_keys(m, t, keys, i, seen)[b],
    decreases m.arrows.len() - i,
{
    if i >= m.arrows.len() {
    } else if qualifies(m, t, i) && !seen.contains(keys[i]) {
        let seen2 = seen.push(keys[i]);
        assert forall|a: int, b: int| 0 <= a < b < seen2.len() implies seen2[a] != seen2[b] by {
            if b < seen.len() {
                assert(seen[a] != seen[b]);
            } else {
                assert(seen2[b] == keys[i]);
                assert(seen2[a] == seen[a]);
                if seen[a] == keys[i] {
                    assert(seen.contains(keys[i]));
                }
            }
        }
        lemma_distinct_keys_nodup(m, t, keys, i + 1, seen2);
        assert(distinct_qual_keys(m, t, keys, i, seen) == distinct_qual_keys(
            m,
            t,
            keys,
            i + 1,
            seen2,
        ));
    } else {
        lemma_distinct_keys_nodup(m, t, keys, i + 1, seen);
        assert(distinct_qual_keys(m, t, keys, i, seen) == distinct_qual_keys(
            m,
            t,
            keys,
            i + 1,
            seen,
        ));
    }
}

/// An arrow value is among a group's sources exactly when some qualifying
/// arrow of that key equals it (or it was already accumulated).
proof fn lemma_group_sources_contains(
    m: CatModel,
    t: Seq<char>,
    keys: Seq<Seq<char>>,
    key: Seq<char>,
    i: int,
    acc: Seq<int>,
    a: ArrowModel,
)
    requires
        0 <= i <= m.arrows.len(),
    ensures
        contains_arrow(m, group_sources(m, t, keys, key, i, acc), a) <==> (contains_arrow(m, acc, a)
            || exists|j: int|
            i <= j < m.arrows.len() && #[trigger] qualifies(m, t, j) && keys[j] == key
                && m.arrows[j] == a),
    decreases m.arrows.len() - i,
{
    if i >= m.arrows.len() {
    } else if qualifies(m, t, i) && keys[i] == key && !contains_arrow(m, acc, m.arrows[i]) {
        let acc2 = acc.push(i);
        assert(contains_arrow(m, acc2, a) <==> (contains_arrow(m, acc, a) || m.arrows[i] == a))
            by {
            if contains_arrow(m, acc2, a) {
                let w = choose|k: int| 0 <= k < acc2.len() && m.arrows[acc2[k]] == a;
                if w < acc.len() {
                    assert(m.arrows[acc[w]] == a);
                } else {
                    assert(acc2[w] == i);
                }
            }
            if contains_arrow(m, acc, a) {
                let w = choose|k: int| 0 <= k < acc.len() && m.arrows[acc[k]] == a;
                assert(m.arrows[acc2[w]] == a);
            }
            if m.arrows[i] == a {
                assert(m.arrows[acc2[acc.len() as int]] == a);
            }
        }
        lemma_group_sources_contains(m, t, keys, key, i + 1, acc2, a);
        if m.arrows[i] == a {
            assert(qualifies(m, t, i) && keys[i] == key && m.arrows[i] == a);
        }
    } else {
        lemma_group_sources_contains(m, t, keys, key, i + 1, acc, a);
        if qualifies(m, t, i) && keys[i] == key && m.arrows[i] == a {
            assert(contains_arrow(m, acc, m.arrows[i]));
        }
    }
}

/// Whatever the accumulator already holds stays in the collected object
/// names.
proof fn lemma_group_objects_monotone(
    m: CatModel,
    gis: Seq<int>,
    j: int,
    acc: Seq<Seq<char>>,
    x: Seq<char>,
)
    requires
        0 <= j <= gis.len(),
        acc.contains(x),
    ensures
        group_objects(m, gis, j, acc).contains(x),
    decreases gis.len() - j,
{
    broadcast use vstd::seq_lib::lemma_seq_contains_after_push;

    if j < gis.len() {
        lemma_group_objects_monotone(m, gis, j + 1, one_obj_step(m, acc, gis[j]), x);
    }
}

/// The collected object names hold the domain and codomain names of every
/// source arrow.
proof fn lemma_group_objects_covers(m: CatModel, gis: Seq<int>, j: int, acc: Seq<Seq<char>>)
    requires
        0 <= j <= gis.len(),
    ensures
        forall|jj: int|
            j <= jj < gis.len() ==> group_objects(m, gis, j, acc).contains(
                m.objects[m.arrows[#[trigger] gis[jj]].domain],
            ) && group_objects(m, gis, j, acc).contains(m.objects[m.arrows[gis[jj]].codomain]),
    decreases gis.len() - j,
{
    broadcast use vstd::seq_lib::lemma_seq_contains_after_push;

    if j < gis.len() {
        let acc2 = one_obj_step(m, acc, gis[j]);
        lemma_group_objects_covers(m, gis, j + 1, acc2);
        assert(acc2.contains(m.objects[m.arrows[gis[j]].domain]));
        assert(acc2.contains(m.objects[m.arrows[gis[j]].codomain]));
        lemma_group_objects_monotone(m, gis, j + 1, acc2, m.objects[m.arrows[gis[j]].domain]);
        lemma_group_objects_monotone(m, gis, j + 1, acc2, m.objects[m.arrows[gis[j]].codomain]);
    }
}

/// Each sub-category arrow faithfully mirrors its source arrow: same name,
/// domain and codomain objects of the same names, and no declared
/// compositions carried over.
pub proof fn lemma_group_faithful(m: CatModel, t: Seq<char>, keys: Seq<Seq<char>>, key: Seq<char>)
    ensures
        spec_group(m, t, keys, key).arrows.len() == sources_of(m, t, keys, key).len(),
        forall|j: int|
            0 <= j < sources_of(m, t, keys, key).len() ==> {
                let gm = spec_group(m, t, keys, key);
                let src = #[trigger] sources_of(m, t, keys, key)[j];
                &&& gm.arrows[j].name == m.arrows[src].name
                &&& 0 <= gm.arrows[j].domain < gm.objects.len()
                &&& 0 <= gm.arrows[j].codomain < gm.objects.len()
                &&& gm.objects[gm.arrows[j].domain] == m.objects[m.arrows[src].domain]
                &&& gm.objects[gm.arrows[j].codomain] == m.objects[m.arrows[src].codomain]
                &&& gm.arrows[j].equals.len() == 0
            },
{
    let gis = sources_of(m, t, keys, key);
    let onames = objects_of(m, gis);
    let gm = spec_group(m, t, keys, key);
    lemma_group_objects_covers(m, gis, 0, Seq::<Seq<char>>::empty());
    assert forall|j: int| 0 <= j < gis.len() implies {
        let src = #[trigger] gis[j];
        &&& gm.arrows[j].name == m.arrows[src].name
        &&& 0 <= gm.arrows[j].domain < gm.objects.len()
        &&& 0 <= gm.arrows[j].codomain < gm.objects.len()
        &&& gm.objects[gm.arrows[j].domain] == m.objects[m.arrows[src].domain]
        &&& gm.objects[gm.arrows[j].codomain] == m.objects[m.arrows[src].codomain]
        &&& gm.arrows[j].equals.len() == 0
    } by {
        let src = gis[j];
        assert(gm.arrows[j] == group_arrow(m, onames, src));
        lemma_find_object_contains(onames, m.objects[m.arrows[src].domain]);
        lemma_first_match(onames, name_is(m.objects[m.arrows[src].domain]));
        let dx = find_object(onames, m.objects[m.arrows[src].domain])->Some_0;
        assert(name_is(m.objects[m.arrows[src].domain])(onames[dx]));
        lemma_find_object_contains(onames, m.objects[m.arrows[src].codomain]);
        lemma_first_match(onames, name_is(m.objects[m.arrows[src].codomain]));
        let cx = find_object(onames, m.objects[m.arrows[src].codomain])->Some_0;
        assert(name_is(m.objects[m.arrows[src].codomain])(onames[cx]));
    }
}

/// The schema split partitions the qualifying arrows completely and
/// disjointly, provided the keys classify equal arrows equally (a
/// classifier on arrow names always does): the group keys are distinct,
/// every qualifying arrow's key is among them, and the arrow's value is
/// among the sources of exactly the group bearing its key.
pub proof fn lemma_split_partitions(m: CatModel, t: Seq<char>, keys: Seq<Seq<char>>)
    requires
        forall|i: int, j: int|
            #[trigger] qualifies(m, t, i) && #[trigger] qualifies(m, t, j) && m.arrows[i]
                == m.arrows[j] ==> keys[i] == keys[j],
    ensures
        forall|k1: int, k2: int|
            0 <= k1 < k2 < split_keys(m, t, keys).len() ==> split_keys(m, t, keys)[k1]
                != split_keys(m, t, keys)[k2],
        forall|i: int| #[trigger] qualifies(m, t, i) ==> split_keys(m, t, keys).contains(keys[i]),
        forall|i: int, k: int|
            #[trigger] qualifies(m, t, i) && 0 <= k < split_keys(m, t, keys).len() ==> (
            contains_arrow(
                m,
                sources_of(m, t, keys, #[trigger] split_keys(m, t, keys)[k]),
                m.arrows[i],
            ) <==> split_keys(m, t, keys)[k] == keys[i]),
{
    let sk = split_keys(m, t, keys);
    lemma_distinct_keys_nodup(m, t, keys, 0, Seq::empty());
    assert forall|i: int| #[trigger] qualifies(m, t, i) implies sk.contains(keys[i]) by {
        lemma_distinct_keys_contains(m, t, keys, 0, Seq::empty(), keys[i]);
        assert(0 <= i < m.arrows.len() && qualifies(m, t, i) && keys[i] == keys[i]);
    }
    assert forall|i: int, k: int|
        #[trigger] qualifies(m, t, i) && 0 <= k < sk.len() implies (contains_arrow(
        m,
        sources_of(m, t, keys, #[trigger] sk[k]),
        m.arrows[i],
    ) <==> sk[k] == keys[i]) by {
        lemma_group_sources_contains(m, t, keys, sk[k], 0, Seq::empty(), m.arrows[i]);
        if contains_arrow(m, sources_of(m, t, keys, sk[k]), m.arrows[i]) {
            let j = choose|j: int|
                0 <= j < m.arrows.len() && #[trigger] qualifies(m, t, j) && keys[j] == sk[k]
                    && m.arrows[j] == m.arrows[i];
            assert(keys[j] == keys[i]);
        }
        if sk[k] == keys[i] {
            assert(0 <= i < m.arrows.len() && qualifies(m, t, i) && keys[i] == sk[k] && m.arrows[i]
                == m.arrows[i]);
        }
    }
}

/// The views of a list of key strings.
pub open spec fn keys_model(s: Seq<String>) -> Seq<Seq<char>> {
    s.map_values(|x: String| x@)
}

/// One output of the schema splitter: a group key together with the
/// sub-category holding exactly that group's arrows and objects.
#[derive(Debug)]
pub struct SchemaGroup {
    pub key: String,
    pub category: Category,
}

/// The views of a list of schema groups: each key with its sub-category
/// model.
pub open spec fn groups_model(s: Seq<SchemaGroup>) -> Seq<(Seq<char>, CatModel)> {
    s.map_values(|g: SchemaGroup| (g.key@, g.category@))
}

/// A list of source indices as mathematical integers.
pub open spec fn src_ints(s: Seq<usize>) -> Seq<int> {
    s.map_values(|u: usize| u as int)
}

/// Appends the object to the list unless an object of that name is already
/// there, and returns the index where its name is first found.
fn insert_object(gobjs: &mut Vec<Object>, o: &Object) -> (r: usize)
    ensures
        obj_names(final(gobjs)@) == (if obj_names(old(gobjs)@).contains(o@) {
            obj_names(old(gobjs)@)
        } else {
            obj_names(old(gobjs)@).push(o@)
        }),
        find_object(obj_names(final(gobjs)@), o@) == Some(r as int),
        r < final(gobjs)@.len(),
{
    proof {
        lemma_find_object_contains(obj_names(gobjs@), o@);
    }
    match find_object_index(gobjs, &o.name) {
        Some(x) => x,
        None => {
            let ghost g0 = obj_names(gobjs@);
            gobjs.push(o.clone());
            proof {
                assert(obj_names(gobjs@) =~= g0.push(o@));
                lemma_first_match(g0, name_is(o@));
                assert(name_is(o@)(obj_names(gobjs@)[g0.len() as int]));
                assert forall|k: int| 0 <= k < g0.len() implies !(name_is(o@)(
                    obj_names(gobjs@)[k],
                )) by {
                    assert(obj_names(gobjs@)[k] == g0[k]);
                    assert(!(name_is(o@)(g0[k])));
                }
                lemma_first_match_is(obj_names(gobjs@), name_is(o@), g0.len() as int);
            }
            gobjs.len() - 1
        },
    }
}

/// Whether the view of some element of `v` equals `s`'s view.
fn contains_string(v: &Vec<String>, s: &String) -> (r: bool)
    ensures
        r == keys_model(v@).contains(s@),
{
    let mut k: usize = 0;
    while k < v.len()
        invariant
            0 <= k <= v.len(),
            forall|t: int| 0 <= t < k ==> keys_model(v@)[t] != s@,
        decreases v.len() - k,
    {
        if v[k] == *s {
            assert(keys_model(v@)[k as int] == s@);
            return true;
        }
        k += 1;
    }
    proof {
        if keys_model(v@).contains(s@) {
            let w = choose|t: int| 0 <= t < keys_model(v@).len() && keys_model(v@)[t] == s@;
            assert(keys_model(v@)[w] != s@);
        }
    }
    false
}

impl Category {
    /// Whether some accumulated source arrow equals arrow `i` by value.
    fn contains_source(&self, srcs: &Vec<usize>, i: usize) -> (r: bool)
        requires
            i < self.arrows.len(),
            forall|k: int| 0 <= k < srcs@.len() ==> (#[trigger] srcs@[k]) < self.arrows.len(),
        ensures
            r == contains_arrow(self@, src_ints(srcs@), self@.arrows[i as int]),
    {
        let mut k: usize = 0;
        while k < srcs.len()
            invariant
                0 <= k <= srcs.len(),
                i < self.arrows.len(),
                forall|k2: int| 0 <= k2 < srcs@.len() ==> (#[trigger] srcs@[k2])
                    < self.arrows.len(),
                forall|k2: int|
                    0 <= k2 < k ==> self@.arrows[src_ints(srcs@)[k2]] != self@.arrows[i as int],
            decreases srcs.len() - k,
        {
            if self.arrows[srcs[k]] == self.arrows[i] {
                proof {
                    assert(self@.arrows[src_ints(srcs@)[k as int]] == self@.arrows[i as int]);
                }
                return true;
            }
            k += 1;
        }
        proof {
            if contains_arrow(self@, src_ints(srcs@), self@.arrows[i as int]) {
                let w = choose|k2: int|
                    0 <= k2 < src_ints(srcs@).len() && self@.arrows[src_ints(srcs@)[k2]]
                        == self@.arrows[i as int];
                assert(self@.arrows[src_ints(srcs@)[w]] != self@.arrows[i as int]);
            }
        }
        false
    }

    /// Builds the sub-category of the group keyed `key`: exactly the
    /// qualifying arrows of that key (first occurrences of equal arrows),
    /// and exactly the objects they touch.
    fn group_for(&self, t: &String, keys: &Vec<String>, key: &String) -> (g: Category)
        requires
            self.wf(),
            keys@.len() == self@.arrows.len(),
        ensures
            g@ == spec_group(self@, t@, keys_model(keys@), key@),
            g.wf(),
    {
        let ghost m = self@;
        let ghost km = keys_model(keys@);
        let mut srcs: Vec<usize> = Vec::new();
        let mut gobjs: Vec<Object> = Vec::new();
        let mut garrs: Vec<Arrow> = Vec::new();
        proof {
            assert(src_ints(srcs@) =~= Seq::<int>::empty());
            assert(obj_names(gobjs@) =~= Seq::<Seq<char>>::empty());
        }
        let mut i: usize = 0;
        while i < self.arrows.len()
            invariant
                0 <= i <= self.arrows.len(),
                m == self@,
                km == keys_model(keys@),
                keys@.len() == self@.arrows.len(),
                self.wf(),
                sources_of(m, t@, km, key@) == group_sources(
                    m,
                    t@,
                    km,
                    key@,
                    i as int,
                    src_ints(srcs@),
                ),
                forall|k: int| 0 <= k < srcs@.len() ==> (#[trigger] srcs@[k]) < self.arrows.len(),
                obj_names(gobjs@) == objects_of(m, src_ints(srcs@)),
                garrs@.len() == srcs@.len(),
                forall|j: int|
                    0 <= j < srcs@.len() ==> find_object(
                        obj_names(gobjs@),
                        m.objects[m.arrows[#[trigger] src_ints(srcs@)[j]].domain],
                    ) is Some,
                forall|j: int|
                    0 <= j < srcs@.len() ==> find_object(
                        obj_names(gobjs@),
                        m.objects[m.arrows[#[trigger] src_ints(srcs@)[j]].codomain],
                    ) is Some,
                forall|j: int|
                    0 <= j < garrs@.len() ==> (#[trigger] arrow_models(garrs@)[j]) == group_arrow(
                        m,
                        obj_names(gobjs@),
                        src_ints(srcs@)[j],
                    ),
                forall|j: int|
                    0 <= j < garrs@.len() ==> {
                        &&& 0 <= (#[trigger] arrow_models(garrs@)[j]).domain < obj_names(
                            gobjs@,
                        ).len()
                        &&& 0 <= arrow_models(garrs@)[j].codomain < obj_names(gobjs@).len()
                    },
            decreases self.arrows.len() - i,
        {
            proof {
                assert(arrow_wf(m.arrows[i as int], m.objects.len() as int, m.arrows.len() as int));
            }
            let dsrc = self.arrows[i].domain;
            let csrc = self.arrows[i].codomain;
            let is_qual = self.objects[dsrc].name == *t && self.objects[csrc].name != *t;
            proof {
                assert(is_qual == qualifies(m, t@, i as int));
            }
            if is_qual && keys[i] == *key && !self.contains_source(&srcs, i) {
                let ghost srcs0 = src_ints(srcs@);
                let ghost onames0 = obj_names(gobjs@);
                let di = insert_object(&mut gobjs, &self.objects[dsrc]);
                let ghost onames1 = obj_names(gobjs@);
                let ci = insert_object(&mut gobjs, &self.objects[csrc]);
                let ghost onames2 = obj_names(gobjs@);
                proof {
                    lemma_find_object_contains(onames0, m.objects[m.arrows[i as int].domain]);
                    lemma_find_object_contains(onames1, m.objects[m.arrows[i as int].codomain]);
                    assert(onames2 == one_obj_step(m, onames0, i as int));
                    if onames2 != onames1 {
                        lemma_find_object_push(
                            onames1,
                            m.objects[m.arrows[i as int].domain],
                            m.objects[m.arrows[i as int].codomain],
                            di as int,
                        );
                    }
                    assert(find_object(onames2, m.objects[m.arrows[i as int].domain]) == Some(
                        di as int,
                    ));
                    assert(find_object(onames2, m.objects[m.arrows[i as int].codomain]) == Some(
                        ci as int,
                    ));
                }
                let ghost garrs0 = garrs@;
                let na = Arrow {
                    name: self.arrows[i].name.clone(),
                    domain: di,
                    codomain: ci,
                    equals: Vec::new(),
                };
                proof {
                    assert(na@.equals =~= Seq::<(int, int)>::empty());
                    assert(na@ == group_arrow(m, onames2, i as int));
                }
                garrs.push(na);
                srcs.push(i);
                proof {
                    assert(src_ints(srcs@) =~= srcs0.push(i as int));
                    lemma_group_objects_push(m, srcs0, i as int, 0, Seq::<Seq<char>>::empty());
                    assert(objects_of(m, src_ints(srcs@)) == one_obj_step(m, onames0, i as int));
                    assert(obj_names(gobjs@) == objects_of(m, src_ints(srcs@)));
                    assert forall|j: int| 0 <= j < srcs0.len() implies {
                        &&& find_object(
                            onames2,
                            m.objects[m.arrows[#[trigger] src_ints(srcs@)[j]].domain],
                        ) == find_object(onames0, m.objects[m.arrows[src_ints(srcs@)[j]].domain])
                        &&& find_object(
                            onames2,
                            m.objects[m.arrows[src_ints(srcs@)[j]].codomain],
                        ) == find_object(onames0, m.objects[m.arrows[src_ints(srcs@)[j]].codomain])
                    } by {
                        assert(src_ints(srcs@)[j] == srcs0[j]);
                        lemma_find_object_step(
                            onames0,
                            onames2,
                            m,
                            i as int,
                            m.objects[m.arrows[srcs0[j]].domain],
                        );
                        lemma_find_object_step(
                            onames0,
                            onames2,
                            m,
                            i as int,
                            m.objects[m.arrows[srcs0[j]].codomain],
                        );
                    }
                    assert forall|j: int| 0 <= j < garrs@.len() implies (
                    #[trigger] arrow_models(garrs@)[j]) == group_arrow(
                        m,
                        obj_names(gobjs@),
                        src_ints(srcs@)[j],
                    ) by {
                        if j < garrs0.len() {
                            assert(arrow_models(garrs@)[j] == arrow_models(garrs0)[j]);
                            assert(src_ints(srcs@)[j] == srcs0[j]);
                        } else {
                            assert(arrow_models(garrs@)[j] == na@);
                        }
                    }
                    assert(onames0.len() <= onames1.len() <= onames2.len());
                    assert forall|j: int| 0 <= j < garrs@.len() implies {
                        &&& 0 <= (#[trigger] arrow_models(garrs@)[j]).domain < onames2.len()
                        &&& 0 <= arrow_models(garrs@)[j].codomain < onames2.len()
                    } by {
                        if j < garrs0.len() {
                            assert(arrow_models(garrs@)[j] == arrow_models(garrs0)[j]);
                            assert(0 <= arrow_models(garrs0)[j].domain < onames0.len());
                            assert(0 <= arrow_models(garrs0)[j].codomain < onames0.len());
                        } else {
                            assert(arrow_models(garrs@)[j] == na@);
                            assert(na@.domain == di as int && di < onames1.len());
                            assert(na@.codomain == ci as int && ci < onames2.len());
                        }
                    }
                    assert(km[i as int] == key@);
                    assert(group_sources(m, t@, km, key@, i as int, srcs0) == group_sources(
                        m,
                        t@,
                        km,
                        key@,
                        i as int + 1,
                        srcs0.push(i as int),
                    ));
                }
            } else {
                proof {
                    assert(!(qualifies(m, t@, i as int) && km[i as int] == key@ && !contains_arrow(
                        m,
                        src_ints(srcs@),
                        m.arrows[i as int],
                    )));
                    assert(group_sources(m, t@, km, key@, i as int, src_ints(srcs@))
                        == group_sources(m, t@, km, key@, i as int + 1, src_ints(srcs@)));
                }
            }
            i += 1;
        }
        let g = Category { objects: gobjs, arrows: garrs };
        proof {
            let gis = sources_of(m, t@, km, key@);
            assert(gis == src_ints(srcs@));
            assert(g@.objects == objects_of(m, gis));
            assert(g@.arrows =~= spec_group(m, t@, km, key@).arrows);
            assert(g@ == spec_group(m, t@, km, key@));
            assert forall|j: int| 0 <= j < g@.arrows.len() implies arrow_wf(
                #[trigger] g@.arrows[j],
                g@.objects.len() as int,
                g@.arrows.len() as int,
            ) by {
                assert(g@.arrows[j] == arrow_models(g.arrows@)[j]);
                assert(g@.arrows[j].equals.len() == 0);
            }
        }
        g
    }

    /// Splits the outgoing attribute arrows of the object named `t` into
    /// sub-categories, one per distinct key, where `keys[i]` classifies
    /// arrow `i` (the keys of non-qualifying arrows are ignored).  Groups
    /// come in first-seen-key order; within a group, arrows keep their
    /// original order and duplicates (by arrow value) are dropped.  The
    /// input category is not changed; no declared compositions and no
    /// identity arrows are synthesized for the sub-categories — an absent
    /// identity surfaces later as `NoIdentity`, by construction.
    pub fn split_by_keys(&self, t: &String, keys: &Vec<String>) -> (res: Vec<SchemaGroup>)
        requires
            self.wf(),
            keys@.len() == self@.arrows.len(),
        ensures
            groups_model(res@) == spec_split(self@, t@, keys_model(keys@)),
            forall|k: int| 0 <= k < res@.len() ==> (#[trigger] res@[k]).category.wf(),
    {
        let ghost m = self@;
        let ghost km = keys_model(keys@);
        let mut dkeys: Vec<String> = Vec::new();
        proof {
            assert(keys_model(dkeys@) =~= Seq::<Seq<char>>::empty());
        }
        let mut i: usize = 0;
        while i < self.arrows.len()
            invariant
                0 <= i <= self.arrows.len(),
                m == self@,
                km == keys_model(keys@),
                keys@.len() == self@.arrows.len(),
                self.wf(),
                split_keys(m, t@, km) == distinct_qual_keys(
                    m,
                    t@,
                    km,
                    i as int,
                    keys_model(dkeys@),
                ),
            decreases self.arrows.len() - i,
        {
            proof {
                assert(arrow_wf(m.arrows[i as int], m.objects.len() as int, m.arrows.len() as int));
            }
            let dsrc = self.arrows[i].domain;
            let csrc = self.arrows[i].codomain;
            let is_qual = self.objects[dsrc].name == *t && self.objects[csrc].name != *t;
            proof {
                assert(is_qual == qualifies(m, t@, i as int));
            }
            if is_qual && !contains_string(&dkeys, &keys[i]) {
                let ghost dk0 = keys_model(dkeys@);
                dkeys.push(keys[i].clone());
                proof {
                    assert(keys_model(dkeys@) =~= dk0.push(km[i as int]));
                    assert(distinct_qual_keys(m, t@, km, i as int, dk0) == distinct_qual_keys(
                        m,
                        t@,
                        km,
                        i as int + 1,
                        dk0.push(km[i as int]),
                    ));
                }
            } else {
                proof {
                    assert(distinct_qual_keys(m, t@, km, i as int, keys_model(dkeys@))
                        == distinct_qual_keys(m, t@, km, i as int + 1, keys_model(dkeys@)));
                }
            }
            i += 1;
        }
        proof {
            assert(split_keys(m, t@, km) == keys_model(dkeys@));
        }
        let mut res: Vec<SchemaGroup> = Vec::new();
        let mut gidx: usize = 0;
        while gidx < dkeys.len()
            invariant
                0 <= gidx <= dkeys.len(),
                m == self@,
                km == keys_model(keys@),
                keys@.len() == self@.arrows.len(),
                self.wf(),
                split_keys(m, t@, km) == keys_model(dkeys@),
                res@.len() == gidx,
                forall|k: int|
                    0 <= k < gidx ==> (#[trigger] groups_model(res@)[k]) == (
                        keys_model(dkeys@)[k],
                        spec_group(m, t@, km, keys_model(dkeys@)[k]),
                    ),
                forall|k: int| 0 <= k < gidx ==> (#[trigger] res@[k]).category.wf(),
            decreases dkeys.len() - gidx,
        {
            let cat = self.group_for(t, keys, &dkeys[gidx]);
            let ghost res0 = res@;
            res.push(SchemaGroup { key: dkeys[gidx].clone(), category: cat });
            proof {
                assert forall|k: int| 0 <= k < gidx implies (#[trigger] groups_model(res@)[k])
                    == groups_model(res0)[k] by {
                    assert(res@[k] == res0[k]);
                }
                assert(groups_model(res@)[gidx as int] == (
                    keys_model(dkeys@)[gidx as int],
                    spec_group(m, t@, km, keys_model(dkeys@)[gidx as int]),
                ));
            }
            gidx += 1;
        }
        proof {
            assert(groups_model(res@) =~= spec_split(m, t@, km));
        }
        res
    }

    /// Splits the outgoing attribute arrows of the object named `t` into
    /// sub-categories grouped by a caller-supplied classifier on arrow
    /// names.  Each qualifying arrow is classified once; the split is then
    /// exactly [`Category::split_by_keys`] on the keys the classifier
    /// returned.
    pub fn split_scheme<F: Fn(String) -> String>(&self, t: &String, classify: F) -> (res: Vec<
        SchemaGroup,
    >)
        requires
            self.wf(),
            forall|s: String| #[trigger] call_requires(classify, (s,)),
        ensures
            exists|ks: Seq<Seq<char>>|
                {
                    &&& ks.len() == self@.arrows.len()
                    &&& (forall|i: int|
                        qualifies(self@, t@, i) ==> exists|arg: String, out: String|
                            {
                                &&& arg@ == self@.arrows[i].name
                                &&& #[trigger] call_ensures(classify, (arg,), out)
                                &&& out@ == ks[i]
                            })
                    &&& groups_model(res@) == spec_split(self@, t@, ks)
                },
            forall|k: int| 0 <= k < res@.len() ==> (#[trigger] res@[k]).category.wf(),
    {
        let ghost m = self@;
        let mut keys: Vec<String> = Vec::new();
        let mut i: usize = 0;
        while i < self.arrows.len()
            invariant
                0 <= i <= self.arrows.len(),
                m == self@,
                self.wf(),
                forall|s: String| #[trigger] call_requires(classify, (s,)),
                keys@.len() == i,
                forall|j: int|
                    0 <= j < i && qualifies(m, t@, j) ==> exists|arg: String, out: String|
                        {
                            &&& arg@ == m.arrows[j].name
                            &&& #[trigger] call_ensures(classify, (arg,), out)
                            &&& out == keys@[j]
                        },
            decreases self.arrows.len() - i,
        {
            proof {
                assert(arrow_wf(m.arrows[i as int], m.objects.len() as int, m.arrows.len() as int));
            }
            let dsrc = self.arrows[i].domain;
            let csrc = self.arrows[i].codomain;
            let is_qual = self.objects[dsrc].name == *t && self.objects[csrc].name != *t;
            proof {
                assert(is_qual == qualifies(m, t@, i as int));
            }
            if is_qual {
                let name_arg = self.arrows[i].name.clone();
                let ghost argv = name_arg;
                let k = classify(name_arg);
                let ghost kv = k;
                keys.push(k);
                proof {
                    assert(argv@ == m.arrows[i as int].name);
                    assert(call_ensures(classify, (argv,), kv));
                    assert(kv == keys@[i as int]);
                }
            } else {
                keys.push(String::new());
            }
            i += 1;
        }
        let res = self.split_by_keys(t, &keys);
        proof {
            let ks = keys_model(keys@);
            assert(ks.len() == m.arrows.len());
            assert forall|j: int| qualifies(m, t@, j) implies exists|arg: String, out: String|
                {
                    &&& arg@ == m.arrows[j].name
                    &&& #[trigger] call_ensures(classify, (arg,), out)
                    &&& out@ == ks[j]
                } by {
                let (arg0, out0) = choose|arg: String, out: String|
                    {
                        &&& arg@ == m.arrows[j].name
                        &&& #[trigger] call_ensures(classify, (arg,), out)
                        &&& out == keys@[j]
                    };
                assert(out0@ == ks[j]);
                assert(call_ensures(classify, (arg0,), out0));
            }
            assert(groups_model(res@) == spec_split(m, t@, ks));
        }
        res
    }
}

} // verus!

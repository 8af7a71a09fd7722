use crate::ascend::AscendedBeing;
use crate::error::StoreError;
use crate::starsystem::{components_of, flat_entities, prop_ids, root_created, StarSystem};
use crate::uid::Uid;
use crate::world::{component_created, entity_created, loc_ids, World};
use vstd::prelude::*;

verus! {

/// One creating call on a partition: `step.0` tells an entity creation
/// (`create_entity`) from a property creation (`add_component_to_entity`),
/// and `step.1` is the id it returned.
pub open spec fn creation_step<T>(pre: World<T>, post: World<T>, step: (bool, Seq<char>)) -> bool {
    if step.0 {
        entity_created(pre, post, step.1)
    } else {
        component_created(pre, post, step.1)
    }
}

/// An id that a creation step returned is still held after every later
/// creation step.
proof fn lemma_created_ids_stay<T>(ws: Seq<World<T>>, steps: Seq<(bool, Seq<char>)>, i: int, j: int)
    requires
        ws.len() == steps.len() + 1,
        forall|q: int| 0 <= q < steps.len() ==> creation_step(#[trigger] ws[q], ws[q + 1], steps[q]),
        0 <= i < j <= steps.len(),
    ensures
        steps[i].0 ==> ws[j].has_entity_spec(steps[i].1),
        !steps[i].0 ==> ws[j].has_component_spec(steps[i].1),
    decreases j - i,
{
    assert(creation_step(ws[j - 1], ws[j], steps[j - 1]));
    if j == i + 1 {
        if steps[i].0 {
            assert(ws[j].entity_ids()[ws[i].entity_ids().len() as int] == steps[i].1);
        }
    } else {
        lemma_created_ids_stay(ws, steps, i, j - 1);
        let pre = ws[j - 1];
        let post = ws[j];
        if steps[i].0 {
            let k = steps[i].1;
            let q = choose|q: int| 0 <= q < pre.entity_ids().len() && pre.entity_ids()[q] == k;
            assert(post.entity_ids()[q] == k);
        } else if steps[j - 1].0 {
            let k = steps[i].1;
            let t = choose|t: int| 0 <= t < pre.components@.len() && (#[trigger] pre.table_ids(t)).contains(k);
            assert(post.table_ids(t) == pre.table_ids(t));
        }
    }
}

/// Uniqueness: along any sequence of `create_entity` and
/// `add_component_to_entity` calls on a partition, no two calls of the same
/// kind return equal ids.
pub proof fn law_created_ids_unique<T>(ws: Seq<World<T>>, steps: Seq<(bool, Seq<char>)>)
    requires
        ws.len() == steps.len() + 1,
        forall|q: int| 0 <= q < steps.len() ==> creation_step(#[trigger] ws[q], ws[q + 1], steps[q]),
    ensures
        forall|i: int, j: int| 0 <= i < j < steps.len() && steps[i].0 == steps[j].0 ==> #[trigger] steps[i].1 != #[trigger] steps[j].1,
{
    assert forall|i: int, j: int| 0 <= i < j < steps.len() && steps[i].0 == steps[j].0 implies #[trigger] steps[i].1 != #[trigger] steps[j].1 by {
        lemma_created_ids_stay(ws, steps, i, j);
        assert(creation_step(ws[j], ws[j + 1], steps[j]));
    }
}

/// Uniqueness of root ids: along any sequence of `conceive_being` calls, no
/// two calls return equal ids.
pub proof fn law_root_ids_unique<T>(ss: Seq<StarSystem<T>>, ids: Seq<Seq<char>>)
    requires
        ss.len() == ids.len() + 1,
        forall|q: int| 0 <= q < ids.len() ==> root_created(#[trigger] ss[q], ss[q + 1], ids[q]),
    ensures
        forall|i: int, j: int| 0 <= i < j < ids.len() ==> #[trigger] ids[i] != #[trigger] ids[j],
{
    assert forall|i: int, j: int| 0 <= i < j < ids.len() implies #[trigger] ids[i] != #[trigger] ids[j] by {
        lemma_root_ids_stay(ss, ids, i, j);
        assert(root_created(ss[j], ss[j + 1], ids[j]));
    }
}

/// A root id that a creation returned is still held after every later one.
proof fn lemma_root_ids_stay<T>(ss: Seq<StarSystem<T>>, ids: Seq<Seq<char>>, i: int, j: int)
    requires
        ss.len() == ids.len() + 1,
        forall|q: int| 0 <= q < ids.len() ==> root_created(#[trigger] ss[q], ss[q + 1], ids[q]),
        0 <= i < j <= ids.len(),
    ensures
        ss[j].has_being_spec(ids[i]),
    decreases j - i,
{
    assert(root_created(ss[j - 1], ss[j], ids[j - 1]));
    if j == i + 1 {
        assert(ss[j].being_ids()[ss[i].being_ids().len() as int] == ids[i]);
    } else {
        lemma_root_ids_stay(ss, ids, i, j - 1);
        let pre = ss[j - 1];
        let q = choose|q: int| 0 <= q < pre.being_ids().len() && pre.being_ids()[q] == ids[i];
        assert(ss[j].being_ids()[q] == ids[i]);
    }
}

/// Mirror/table consistency: in a well-formed store (which every operation
/// keeps), each sub-object mirror names a live partition entity, every
/// location pair of that entity resolves in the table it names, and the set
/// of property ids located by the entity is exactly the set of ids in the
/// mirror's property list.
pub proof fn law_mirrors_match_partitions<T>(s: StarSystem<T>, b: int, m: int)
    requires
        s.wf(),
        s.is_mirror(b, m),
    ensures
        ({
            let se = s.mirror(b, m);
            let w = s.world_of(se);
            let l = w.locs_of(se.id@);
            &&& w.has_entity_spec(se.id@)
            &&& forall|j: int| 0 <= j < l.len() ==> (#[trigger] l[j]).0 < s.variant_count && w.table_ids(l[j].0 as int).contains(l[j].1@)
            &&& loc_ids(l).to_set() == prop_ids(se.properties@).to_set()
        }),
{
    let se = s.mirror(b, m);
    assert(s.mirror_ok(se));
    let v = s.world_position(se.location.world@);
    assert(s.world_ids()[v] == se.location.world@) by {
        let q = choose|q: int| 0 <= q < s.world_ids().len() && s.world_ids()[q] == se.location.world@;
    }
    let w = s.worlds@[v];
    assert(w.wf());
    let e = w.entity_position(se.id@);
    assert(0 <= e < w.entities@.len()) by {
        let i = choose|i: int| 0 <= i < w.entity_ids().len() && w.entity_ids()[i] == se.id@;
        crate::world::lemma_entity_position(w, i);
    }
    let l = w.locs_of(se.id@);
    assert forall|j: int| 0 <= j < l.len() implies (#[trigger] l[j]).0 < s.variant_count && w.table_ids(l[j].0 as int).contains(l[j].1@) by {
        assert(w.locs(e)[j] == l[j]);
    }
}

/// Idempotent removal: after `remove_property` of an id, removing it again
/// fails with `NotFound` and changes nothing; it is never a consistency
/// fault.
pub proof fn law_remove_twice<T>(
    s0: StarSystem<T>,
    s1: StarSystem<T>,
    s2: StarSystem<T>,
    k: Seq<char>,
    r1: Result<(), StoreError>,
    r2: Result<(), StoreError>,
)
    requires
        s0.property_removal(&s1, k, r1),
        s1.property_removal(&s2, k, r2),
    ensures
        r2 == Err::<(), StoreError>(StoreError::NotFound),
        s2 == s1,
{
}

/// Round trip: rehydrating snapshots into a root without sub-objects
/// (`develop_being`) and flattening that root again (`ascend_being`) gives
/// back the snapshots' entities, in order, with the same ids and names, and
/// per entity the same components with the same ids, names and values;
/// values go through `T::clone`, which here must return an equal value.
pub proof fn law_round_trip<T: Clone>(
    pre: StarSystem<T>,
    post: StarSystem<T>,
    being: Uid,
    snaps: Seq<AscendedBeing<T>>,
    ids: Seq<Uid>,
    out: AscendedBeing<T>,
)
    requires
        post.wf(),
        pre.has_being_spec(being@),
        pre.beings@[pre.being_position(being@)].entities@.len() == 0,
        pre.developed_into(&post, being@, snaps, ids),
        post.being_ascends(post.beings@[post.being_position(being@)], out),
        forall|u: T, v: T| #[trigger] cloned::<T>(u, v) ==> u == v,
    ensures
        ({
            let fl = flat_entities(snaps);
            &&& out.entities@.len() == fl.len()
            &&& forall|q: int| 0 <= q < fl.len() ==> {
                let (a, f) = (#[trigger] out.entities@[q], fl[q]);
                &&& a.id == f.id
                &&& a.name == f.name
                &&& a.components@ == f.components@
            }
        }),
{
    let b = pre.being_position(being@);
    let fl = flat_entities(snaps);
    assert(pre.being_ids()[b] == being@) by {
        let q = choose|q: int| 0 <= q < pre.being_ids().len() && pre.being_ids()[q] == being@;
    }
    assert(post.being_ids()[b] == being@);
    assert(post.being_position(being@) == b) by {
        let q = post.being_position(being@);
        assert(post.being_ids()[q] == being@);
    }
    assert forall|q: int| 0 <= q < fl.len() implies {
        let (a, f) = (#[trigger] out.entities@[q], fl[q]);
        &&& a.id == f.id
        &&& a.name == f.name
        &&& a.components@ == f.components@
    } by {
        assert(post.developed_at(b, 0, fl, ids, q));
        let se = post.mirror(b, q);
        let a = out.entities@[q];
        assert(post.entity_ascends(post.beings@[b].entities@[q], a));
        let st = post.stored_of(se);
        let w = post.world_of(se);
        let l = w.locs_of(se.id@);
        assert(st == components_of(fl[q]));
        assert(st.len() == l.len());
        assert(components_of(fl[q]).len() == fl[q].components@.len());
        assert(a.components@.len() == fl[q].components@.len());
        assert forall|j: int| 0 <= j < a.components@.len() implies a.components@[j] == fl[q].components@[j] by {
            assert(st[j] == components_of(fl[q])[j]);
            let c = a.components@[j];
            let lk = w.lookup(l[j].0 as int, l[j].1@);
            assert(st[j] == (l[j].1, lk));
            assert(c.id == l[j].1);
            assert(c.name == lk.name);
            assert(cloned::<T>(lk.data, c.data));
            assert(lk.data == c.data);
            let f = fl[q].components@[j];
            assert(components_of(fl[q])[j] == (f.id, crate::world::Component { name: f.name, data: f.data }));
        }
        assert(a.components@ =~= fl[q].components@);
    }
}

} // verus!

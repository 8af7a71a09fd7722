use crate::ascend::{AscendedBeing, AscendedComponent, AscendedEntity};
use crate::error::StoreError;
use crate::uid::Uid;
use crate::world::{
    lemma_entity_position, lemma_pushed_keeps, lemma_relocated_keeps, lemma_removed_keeps, loc_ids, Component,
    EnumIndex, World,
};
use vstd::prelude::*;

verus! {

/// Where a mirrored object lives: its partition and its entity there.
pub struct StarEntityLocation {
    pub world: Uid,
    pub entity: Uid,
}

/// Mirror of one property: its name, id and owning partition and entity.
pub struct StarEntityProperty {
    pub name: String,
    pub id: Uid,
    pub location: StarEntityLocation,
}

/// Mirror of one sub-object: it names the partition entity that holds its
/// properties.
pub struct StarEntity {
    pub location: StarEntityLocation,
    pub id: Uid,
    pub name: String,
    pub properties: Vec<StarEntityProperty>,
}

/// An aggregate root: a named list of sub-object mirrors.
pub struct Being {
    pub id: Uid,
    pub entities: Vec<StarEntity>,
    pub name: String,
}

impl Clone for StarEntityLocation {
    fn clone(&self) -> (r: Self)
        ensures
            r == *self,
    {
        StarEntityLocation { world: self.world.clone(), entity: self.entity.clone() }
    }
}

impl Clone for StarEntityProperty {
    fn clone(&self) -> (r: Self)
        ensures
            r == *self,
    {
        StarEntityProperty { name: self.name.clone(), id: self.id.clone(), location: self.location.clone() }
    }
}

impl Clone for StarEntity {
    fn clone(&self) -> (r: Self)
        ensures
            r.location == self.location,
            r.id == self.id,
            r.name == self.name,
            r.properties@ == self.properties@,
    {
        let mut properties: Vec<StarEntityProperty> = Vec::new();
        let mut i: usize = 0;
        while i < self.properties.len()
            invariant
                i <= self.properties@.len(),
                properties@ == self.properties@.take(i as int),
            decreases self.properties@.len() - i,
        {
            properties.push(self.properties[i].clone());
            proof {
                assert(self.properties@.take(i as int + 1) =~= self.properties@.take(i as int).push(self.properties@[i as int]));
            }
            i = i + 1;
        }
        proof {
            assert(self.properties@.take(self.properties@.len() as int) =~= self.properties@);
        }
        StarEntity { location: self.location.clone(), id: self.id.clone(), name: self.name.clone(), properties }
    }
}

impl Clone for Being {
    fn clone(&self) -> (r: Self)
        ensures
            r.id == self.id,
            r.name == self.name,
            r.entities@.len() == self.entities@.len(),
            forall|i: int| 0 <= i < self.entities@.len() ==> {
                let (a, b) = (#[trigger] r.entities@[i], self.entities@[i]);
                &&& a.location == b.location
                &&& a.id == b.id
                &&& a.name == b.name
                &&& a.properties@ == b.properties@
            },
    {
        let mut entities: Vec<StarEntity> = Vec::new();
        let mut i: usize = 0;
        while i < self.entities.len()
            invariant
                i <= self.entities@.len(),
                entities@.len() == i,
                forall|j: int| 0 <= j < i ==> {
                    let (a, b) = (#[trigger] entities@[j], self.entities@[j]);
                    &&& a.location == b.location
                    &&& a.id == b.id
                    &&& a.name == b.name
                    &&& a.properties@ == b.properties@
                },
            decreases self.entities@.len() - i,
        {
            entities.push(self.entities[i].clone());
            i = i + 1;
        }
        Being { id: self.id.clone(), entities, name: self.name.clone() }
    }
}

impl Being {
    /// A root named `name` with a fresh random id and no sub-objects.
    pub fn new(name: String) -> (r: Self)
        ensures
            r.name == name,
            r.entities@.len() == 0,
            r.id@.len() == crate::uid::UID_LEN,
            forall|i: int| 0 <= i < r.id@.len() ==> crate::uid::is_id_char(#[trigger] r.id@[i]),
    {
        Being { id: Uid::new(), entities: Vec::new(), name }
    }
}

/// The root store: partitions and the roots that mirror their contents.
pub struct StarSystem<T> {
    pub worlds: Vec<World<T>>,
    pub beings: Vec<Being>,
    pub variant_count: usize,
}

/// Relies on rand::random: some value of the type, about which nothing is
/// promised.
pub assume_specification<T>[ rand::random::<T> ]() -> (r: T)
    where
        rand::distributions::Standard: rand::distributions::Distribution<T>,
;

impl<T> StarSystem<T> {
    pub open spec fn world_ids(&self) -> Seq<Seq<char>> {
        self.worlds@.map_values(|w: World<T>| w.id@)
    }

    pub open spec fn being_ids(&self) -> Seq<Seq<char>> {
        self.beings@.map_values(|b: Being| b.id@)
    }

    pub open spec fn has_being_spec(&self, k: Seq<char>) -> bool {
        self.being_ids().contains(k)
    }

    /// Position of root `k` (meaningful when present).
    pub open spec fn being_position(&self, k: Seq<char>) -> int {
        choose|i: int| 0 <= i < self.being_ids().len() && self.being_ids()[i] == k
    }

    /// Position of partition `k` (meaningful when present).
    pub open spec fn world_position(&self, k: Seq<char>) -> int {
        choose|i: int| 0 <= i < self.world_ids().len() && self.world_ids()[i] == k
    }

    /// The partition that mirror `se` names (meaningful when present).
    pub open spec fn world_of(&self, se: StarEntity) -> World<T> {
        self.worlds@[self.world_position(se.location.world@)]
    }

    /// Mirror `se` names a live partition entity whose location list carries
    /// exactly the mirror's property ids, in the same order.
    pub open spec fn mirror_ok(&self, se: StarEntity) -> bool {
        &&& se.location.entity@ == se.id@
        &&& self.world_ids().contains(se.location.world@)
        &&& self.world_of(se).has_entity_spec(se.id@)
        &&& loc_ids(self.world_of(se).locs_of(se.id@)) == prop_ids(se.properties@)
    }

    /// The mirror at sub-object position `m` of root position `b`.
    pub open spec fn mirror(&self, b: int, m: int) -> StarEntity {
        self.beings@[b].entities@[m]
    }

    pub open spec fn is_mirror(&self, b: int, m: int) -> bool {
        0 <= b < self.beings@.len() && 0 <= m < self.beings@[b].entities@.len()
    }

    /// Root position `b` has a sub-object mirror with id `k`.
    pub open spec fn has_mirror(&self, b: int, k: Seq<char>) -> bool {
        exists|m: int| self.is_mirror(b, m) && (#[trigger] self.mirror(b, m)).id@ == k
    }

    /// `m` is the first mirror of root position `b` with id `k`.
    pub open spec fn is_first_mirror(&self, b: int, m: int, k: Seq<char>) -> bool {
        &&& self.is_mirror(b, m)
        &&& self.mirror(b, m).id@ == k
        &&& forall|n: int| 0 <= n < m ==> (#[trigger] self.mirror(b, n)).id@ != k
    }

    /// Position of the first mirror of root position `b` with id `k`
    /// (meaningful when present).
    pub open spec fn mirror_position(&self, b: int, k: Seq<char>) -> int {
        choose|m: int| self.is_first_mirror(b, m, k)
    }

    /// `a` is the snapshot of mirror `se`: its name and id, and one component
    /// snapshot per location of the partition entity, in order, with the
    /// stored name and (a clone of) the stored value.
    pub open spec fn entity_ascends(&self, se: StarEntity, a: AscendedEntity<T>) -> bool where T: Clone {
        let w = self.world_of(se);
        let l = w.locs_of(se.id@);
        &&& a.name == se.name
        &&& a.id == se.id
        &&& a.components@.len() == l.len()
        &&& forall|j: int| 0 <= j < l.len() ==> {
            let c = w.lookup(l[j].0 as int, l[j].1@);
            &&& (#[trigger] a.components@[j]).id == l[j].1
            &&& a.components@[j].name == c.name
            &&& cloned::<T>(c.data, a.components@[j].data)
        }
    }

    /// `a` is the snapshot of root `b`.
    pub open spec fn being_ascends(&self, b: Being, a: AscendedBeing<T>) -> bool where T: Clone {
        &&& a.name == b.name
        &&& a.id == b.id
        &&& a.entities@.len() == b.entities@.len()
        &&& forall|m: int| 0 <= m < b.entities@.len() ==> self.entity_ascends(b.entities@[m], #[trigger] a.entities@[m])
    }

    /// Some mirror carries property id `k`.
    pub open spec fn mirrors_property(&self, k: Seq<char>) -> bool {
        exists|b: int, m: int| self.is_mirror(b, m) && prop_ids((#[trigger] self.mirror(b, m)).properties@).contains(k)
    }

    /// `post` has the roots and mirrors of `self` with the same ids, names and
    /// locations; only property lists may differ.
    pub open spec fn same_shape(&self, post: &Self) -> bool {
        &&& post.beings@.len() == self.beings@.len()
        &&& forall|c: int| 0 <= c < self.beings@.len() ==> {
            &&& (#[trigger] post.beings@[c]).id == self.beings@[c].id
            &&& post.beings@[c].name == self.beings@[c].name
            &&& post.beings@[c].entities@.len() == self.beings@[c].entities@.len()
        }
        &&& forall|c: int, n: int| self.is_mirror(c, n) ==> {
            &&& (#[trigger] post.mirror(c, n)).id == self.mirror(c, n).id
            &&& post.mirror(c, n).name == self.mirror(c, n).name
            &&& post.mirror(c, n).location == self.mirror(c, n).location
        }
    }

    /// What mirror `o`'s partition stores for it: per location, in order, the
    /// property id and its stored entry.
    pub open spec fn stored_of(&self, o: StarEntity) -> Seq<(Uid, Component<T>)> {
        let w = self.world_of(o);
        let l = w.locs_of(o.id@);
        Seq::new(l.len(), |j: int| (l[j].1, w.lookup(l[j].0 as int, l[j].1@)))
    }

    /// Mirrors `k .. k + len` of root position `b` were developed from
    /// `fl[0 .. len]`, and `ids` lists their ids.
    pub open spec fn developed(&self, b: int, k: int, fl: Seq<AscendedEntity<T>>, ids: Seq<Uid>, len: int) -> bool {
        forall|q: int| 0 <= q < len ==> #[trigger] self.developed_at(b, k, fl, ids, q)
    }

    /// Mirror `k + q` of root position `b` was developed from `fl[q]`, and
    /// `ids[q]` is its id.
    pub open spec fn developed_at(&self, b: int, k: int, fl: Seq<AscendedEntity<T>>, ids: Seq<Uid>, q: int) -> bool {
        let se = self.mirror(b, k + q);
        &&& ids[q] == fl[q].id
        &&& se.id == fl[q].id
        &&& se.name == fl[q].name
        &&& self.stored_of(se) == components_of(fl[q])
        &&& se.properties@.len() == fl[q].components@.len()
        &&& forall|i: int| 0 <= i < se.properties@.len() ==> (#[trigger] se.properties@[i]).name == fl[q].components@[i].name
    }

    /// `post` is `self` after snapshots `snaps` were rehydrated into root
    /// `being`, returning `ids`: the root keeps its mirrors and gains one per
    /// snapshot entity, in order, whose partition stores exactly that
    /// entity's components.
    pub open spec fn developed_into(&self, post: &Self, being: Seq<char>, snaps: Seq<AscendedBeing<T>>, ids: Seq<Uid>) -> bool {
        let b = self.being_position(being);
        let k = self.beings@[b].entities@.len();
        let fl = flat_entities(snaps);
        &&& self.has_being_spec(being)
        &&& post.beings@.len() == self.beings@.len()
        &&& post.beings@[b].id == self.beings@[b].id
        &&& post.beings@[b].entities@.len() == k + fl.len()
        &&& post.beings@[b].entities@.subrange(0, k as int) == self.beings@[b].entities@
        &&& ids.len() == fl.len()
        &&& post.developed(b, k as int, fl, ids, fl.len() as int)
    }

    /// `post` and `r` are what removing property `k` from `self` gives: no
    /// mirror carries `k` afterwards, roots and mirrors keep their shape, and
    /// the call fails with `NotFound`, changing nothing, exactly when no
    /// mirror carried it.
    pub open spec fn property_removal(&self, post: &Self, k: Seq<char>, r: Result<(), StoreError>) -> bool {
        &&& self.same_shape(post)
        &&& self.keeps_all_but(post, k)
        &&& !post.mirrors_property(k)
        &&& forall|c: int, n: int| self.is_mirror(c, n) && prop_ids((#[trigger] self.mirror(c, n)).properties@).contains(k)
            ==> !post.world_of(self.mirror(c, n)).has_component_spec(k)
        &&& forall|c: int, n: int| self.is_mirror(c, n) && !prop_ids(self.mirror(c, n).properties@).contains(k)
            ==> #[trigger] post.mirror(c, n) == self.mirror(c, n)
        &&& match r {
            Ok(()) => self.mirrors_property(k),
            Err(e) => e == StoreError::NotFound && !self.mirrors_property(k) && *post == *self,
        }
    }

    /// `post`'s partitions keep every table entry of `self` other than id `k`,
    /// with its value, and every entity whose location list does not name
    /// `k`, with that list.
    pub open spec fn keeps_all_but(&self, post: &Self, k: Seq<char>) -> bool {
        &&& post.worlds@.len() == self.worlds@.len()
        &&& forall|v: int| 0 <= v < self.worlds@.len() ==> (#[trigger] post.worlds@[v]).components@.len() == self.worlds@[v].components@.len()
        &&& forall|v: int, t: int, q: Seq<char>|
            #![trigger post.worlds@[v].table_ids(t).contains(q)]
            #![trigger self.worlds@[v].table_ids(t).contains(q)]
            0 <= v < self.worlds@.len() && 0 <= t < self.worlds@[v].components@.len() && q != k
                ==> (post.worlds@[v].table_ids(t).contains(q) <==> self.worlds@[v].table_ids(t).contains(q))
        &&& forall|v: int, t: int, q: Seq<char>|
            0 <= v < self.worlds@.len() && 0 <= t < self.worlds@[v].components@.len() && q != k
                && #[trigger] self.worlds@[v].table_ids(t).contains(q) ==> post.worlds@[v].lookup(t, q) == self.worlds@[v].lookup(t, q)
        &&& forall|v: int, x: Seq<char>|
            0 <= v < self.worlds@.len() && #[trigger] self.worlds@[v].has_entity_spec(x) && !loc_ids(self.worlds@[v].locs_of(x)).contains(k)
                ==> post.worlds@[v].has_entity_spec(x) && post.worlds@[v].locs_of(x) == self.worlds@[v].locs_of(x)
    }

    /// Every entity of `snaps` has no components, an id live on no partition,
    /// and an id that no other entity of `snaps` has.
    pub open spec fn fresh_bare_snapshots(&self, snaps: Seq<AscendedBeing<T>>) -> bool {
        &&& forall|i: int, q: int| 0 <= i < snaps.len() && 0 <= q < snaps[i].entities@.len()
            ==> (#[trigger] snaps[i].entities@[q]).components@.len() == 0
        &&& forall|i: int, q: int, v: int| 0 <= i < snaps.len() && 0 <= q < snaps[i].entities@.len() && 0 <= v < self.worlds@.len()
            ==> !(#[trigger] self.worlds@[v].has_entity_spec(snaps[i].entities@[q].id@))
        &&& forall|i1: int, q1: int, i2: int, q2: int|
            0 <= i1 < snaps.len() && 0 <= q1 < snaps[i1].entities@.len() && 0 <= i2 < snaps.len() && 0 <= q2 < snaps[i2].entities@.len()
                && (i1 != i2 || q1 != q2) ==> (#[trigger] snaps[i1].entities@[q1]).id@ != (#[trigger] snaps[i2].entities@[q2]).id@
    }

    /// Every mirror agrees with the partition it names.
    pub open spec fn mirrors_ok(&self) -> bool {
        forall|b: int, m: int| self.is_mirror(b, m) ==> self.mirror_ok(#[trigger] self.mirror(b, m))
    }

    /// No two mirrors name the same partition entity.
    pub open spec fn mirrors_distinct(&self) -> bool {
        forall|b1: int, m1: int, b2: int, m2: int|
            self.is_mirror(b1, m1) && self.is_mirror(b2, m2) && (b1 != b2 || m1 != m2)
                ==> !same_target(#[trigger] self.mirror(b1, m1), #[trigger] self.mirror(b2, m2))
    }

    /// Every partition is well formed with one table per variant; partition
    /// ids and root ids are unique; mirrors agree with their partitions and
    /// name distinct entities.
    pub open spec fn wf(&self) -> bool {
        &&& forall|w: int| 0 <= w < self.worlds@.len() ==> (#[trigger] self.worlds@[w]).wf()
            && self.worlds@[w].components@.len() == self.variant_count
        &&& self.world_ids().no_duplicates()
        &&& self.being_ids().no_duplicates()
        &&& self.mirrors_ok()
        &&& self.mirrors_distinct()
    }
}

/// `post` is `pre` with root `id`, new to it, appended to the roots.
pub open spec fn root_created<T>(pre: StarSystem<T>, post: StarSystem<T>, id: Seq<char>) -> bool {
    &&& !pre.has_being_spec(id)
    &&& post.being_ids() == pre.being_ids().push(id)
}

/// The mirrors of `s` whose name is not `name`, in order.
pub open spec fn kept_mirrors(s: Seq<StarEntity>, name: Seq<char>) -> Seq<StarEntity> {
    s.filter(|e: StarEntity| e.name@ != name)
}

/// Two mirrors name the same partition entity.
pub open spec fn same_target(a: StarEntity, c: StarEntity) -> bool {
    a.location.world@ == c.location.world@ && a.id@ == c.id@
}

/// A mirror stays in agreement when its partition keeps its entity as it was.
proof fn lemma_mirror_kept<T>(pre: StarSystem<T>, post: StarSystem<T>, w: int, k: Seq<char>, se: StarEntity)
    requires
        pre.world_ids().no_duplicates(),
        post.world_ids() == pre.world_ids(),
        0 <= w < pre.worlds@.len(),
        forall|v: int| 0 <= v < pre.worlds@.len() && v != w ==> #[trigger] post.worlds@[v] == pre.worlds@[v],
        pre.worlds@[w].keeps_entities_except(&post.worlds@[w], k),
        pre.mirror_ok(se),
        !(se.location.world@ == pre.world_ids()[w] && se.id@ == k),
    ensures
        post.mirror_ok(se),
{
    let v = pre.world_position(se.location.world@);
    assert(pre.world_ids()[v] == se.location.world@);
    assert(post.world_position(se.location.world@) == v) by {
        let q = post.world_position(se.location.world@);
        assert(post.world_ids()[q] == se.location.world@);
    }
    if v == w {
        assert(pre.worlds@[w].has_entity_spec(se.id@));
    }
}

/// When every mirror of `post` is the mirror of `pre` at root position
/// `f(b)`, over the same partitions, and roots map one to one, `post`'s
/// mirrors keep the invariant's mirror parts.
proof fn lemma_beings_subset<T>(pre: StarSystem<T>, post: StarSystem<T>, f: spec_fn(int) -> int)
    requires
        pre.mirrors_ok(),
        pre.mirrors_distinct(),
        post.worlds == pre.worlds,
        forall|b: int| 0 <= b < post.beings@.len() && post.beings@[b].entities@.len() > 0 ==> {
            &&& 0 <= #[trigger] f(b) < pre.beings@.len()
            &&& post.beings@[b].entities@ == pre.beings@[f(b)].entities@
        },
        forall|b1: int, b2: int| 0 <= b1 < post.beings@.len() && 0 <= b2 < post.beings@.len() && b1 != b2
            && post.beings@[b1].entities@.len() > 0 && post.beings@[b2].entities@.len() > 0 ==> #[trigger] f(b1) != #[trigger] f(b2),
    ensures
        post.mirrors_ok(),
        post.mirrors_distinct(),
{
    assert forall|b: int, m: int| post.is_mirror(b, m) implies post.mirror_ok(#[trigger] post.mirror(b, m)) by {
        assert(post.mirror(b, m) == pre.mirror(f(b), m));
        assert(pre.is_mirror(f(b), m));
    }
    assert forall|b1: int, m1: int, b2: int, m2: int|
        post.is_mirror(b1, m1) && post.is_mirror(b2, m2) && (b1 != b2 || m1 != m2)
            implies !same_target(#[trigger] post.mirror(b1, m1), #[trigger] post.mirror(b2, m2)) by {
        assert(post.mirror(b1, m1) == pre.mirror(f(b1), m1));
        assert(post.mirror(b2, m2) == pre.mirror(f(b2), m2));
        assert(pre.is_mirror(f(b1), m1));
        assert(pre.is_mirror(f(b2), m2));
    }
}

/// One partition changes at most at the entity that mirror `(b, m)` names,
/// and only that mirror's property list changes: the mirror parts of the
/// invariant carry over when that mirror agrees afterwards.
proof fn lemma_mirror_step<T>(pre: StarSystem<T>, post: StarSystem<T>, w: int, b: int, m: int)
    requires
        pre.mirrors_ok(),
        pre.mirrors_distinct(),
        pre.world_ids().no_duplicates(),
        post.world_ids() == pre.world_ids(),
        0 <= w < pre.worlds@.len(),
        pre.is_mirror(b, m),
        pre.mirror(b, m).location.world@ == pre.world_ids()[w],
        forall|v: int| 0 <= v < pre.worlds@.len() && v != w ==> #[trigger] post.worlds@[v] == pre.worlds@[v],
        pre.worlds@[w].keeps_entities_except(&post.worlds@[w], pre.mirror(b, m).id@),
        post.beings@.len() == pre.beings@.len(),
        forall|c: int| 0 <= c < pre.beings@.len() && c != b ==> (#[trigger] post.beings@[c]).entities@ == pre.beings@[c].entities@,
        post.beings@[b].entities@.len() == pre.beings@[b].entities@.len(),
        forall|n: int| 0 <= n < pre.beings@[b].entities@.len() && n != m ==> #[trigger] post.mirror(b, n) == pre.mirror(b, n),
        post.mirror(b, m).location == pre.mirror(b, m).location,
        post.mirror(b, m).id == pre.mirror(b, m).id,
        post.mirror_ok(post.mirror(b, m)),
    ensures
        post.mirrors_ok(),
        post.mirrors_distinct(),
{
    assert forall|c: int, n: int| post.is_mirror(c, n) && (c != b || n != m) implies #[trigger] post.mirror(c, n) == pre.mirror(c, n) by {
        if c != b {
            assert(post.beings@[c].entities@ == pre.beings@[c].entities@);
        }
    }
    assert forall|c: int, n: int| post.is_mirror(c, n) implies post.mirror_ok(#[trigger] post.mirror(c, n)) by {
        if c != b || n != m {
            assert(pre.is_mirror(c, n));
            assert(!same_target(pre.mirror(c, n), pre.mirror(b, m)));
            lemma_mirror_kept(pre, post, w, pre.mirror(b, m).id@, pre.mirror(c, n));
        }
    }
    assert forall|b1: int, m1: int, b2: int, m2: int|
        post.is_mirror(b1, m1) && post.is_mirror(b2, m2) && (b1 != b2 || m1 != m2)
            implies !same_target(#[trigger] post.mirror(b1, m1), #[trigger] post.mirror(b2, m2)) by {
        assert(pre.is_mirror(b1, m1) && pre.is_mirror(b2, m2));
        assert(same_target(post.mirror(b1, m1), post.mirror(b2, m2)) == same_target(pre.mirror(b1, m1), pre.mirror(b2, m2)));
    }
}

/// Taking mirror `(b, m)` out keeps the mirror parts of the invariant, and
/// no remaining mirror names its entity.
proof fn lemma_mirror_removed<T>(pre: StarSystem<T>, post: StarSystem<T>, b: int, m: int)
    requires
        pre.mirrors_ok(),
        pre.mirrors_distinct(),
        pre.is_mirror(b, m),
        post.worlds == pre.worlds,
        post.beings@.len() == pre.beings@.len(),
        forall|c: int| 0 <= c < pre.beings@.len() && c != b ==> (#[trigger] post.beings@[c]).entities@ == pre.beings@[c].entities@,
        post.beings@[b].entities@ == pre.beings@[b].entities@.remove(m),
    ensures
        post.mirrors_ok(),
        post.mirrors_distinct(),
        forall|c: int, n: int| post.is_mirror(c, n) ==> !same_target(#[trigger] post.mirror(c, n), pre.mirror(b, m)),
{
    assert forall|c: int, n: int| post.is_mirror(c, n) implies #[trigger] post.mirror(c, n) == pre.mirror(c, if c == b && n >= m { n + 1 } else { n })
        && pre.is_mirror(c, if c == b && n >= m { n + 1 } else { n }) by {
        if c != b {
            assert(post.beings@[c].entities@ == pre.beings@[c].entities@);
        }
    }
    assert forall|c: int, n: int| post.is_mirror(c, n) implies post.mirror_ok(#[trigger] post.mirror(c, n)) by {
        let n0 = if c == b && n >= m { n + 1 } else { n };
        assert(post.mirror(c, n) == pre.mirror(c, n0));
    }
    assert forall|b1: int, m1: int, b2: int, m2: int|
        post.is_mirror(b1, m1) && post.is_mirror(b2, m2) && (b1 != b2 || m1 != m2)
            implies !same_target(#[trigger] post.mirror(b1, m1), #[trigger] post.mirror(b2, m2)) by {
        let n1 = if b1 == b && m1 >= m { m1 + 1 } else { m1 };
        let n2 = if b2 == b && m2 >= m { m2 + 1 } else { m2 };
        assert(post.mirror(b1, m1) == pre.mirror(b1, n1));
        assert(post.mirror(b2, m2) == pre.mirror(b2, n2));
    }
    assert forall|c: int, n: int| post.is_mirror(c, n) implies !same_target(#[trigger] post.mirror(c, n), pre.mirror(b, m)) by {
        let n0 = if c == b && n >= m { n + 1 } else { n };
        assert(post.mirror(c, n) == pre.mirror(c, n0));
    }
}

/// Partition `w` keeps every entity but `k`, which no mirror names: the
/// mirror parts of the invariant carry over.
proof fn lemma_world_step<T>(pre: StarSystem<T>, post: StarSystem<T>, w: int, k: Seq<char>)
    requires
        pre.mirrors_ok(),
        pre.mirrors_distinct(),
        pre.world_ids().no_duplicates(),
        post.world_ids() == pre.world_ids(),
        post.beings == pre.beings,
        0 <= w < pre.worlds@.len(),
        forall|v: int| 0 <= v < pre.worlds@.len() && v != w ==> #[trigger] post.worlds@[v] == pre.worlds@[v],
        pre.worlds@[w].keeps_entities_except(&post.worlds@[w], k),
        forall|c: int, n: int| pre.is_mirror(c, n) ==> !((#[trigger] pre.mirror(c, n)).location.world@ == pre.world_ids()[w] && pre.mirror(c, n).id@ == k),
    ensures
        post.mirrors_ok(),
        post.mirrors_distinct(),
{
    assert forall|c: int, n: int| post.is_mirror(c, n) implies post.mirror_ok(#[trigger] post.mirror(c, n)) by {
        assert(post.mirror(c, n) == pre.mirror(c, n));
        assert(pre.is_mirror(c, n));
        lemma_mirror_kept(pre, post, w, k, pre.mirror(c, n));
    }
    assert(forall|c: int, n: int| #[trigger] post.mirror(c, n) == pre.mirror(c, n));
}

/// Appending a mirror of an entity that partition `w` just gained keeps the
/// mirror parts of the invariant.
proof fn lemma_mirror_added<T>(pre: StarSystem<T>, post: StarSystem<T>, w: int, b: int, se: StarEntity)
    requires
        pre.mirrors_ok(),
        pre.mirrors_distinct(),
        pre.world_ids().no_duplicates(),
        post.world_ids() == pre.world_ids(),
        0 <= w < pre.worlds@.len(),
        0 <= b < pre.beings@.len(),
        forall|v: int| 0 <= v < pre.worlds@.len() && v != w ==> #[trigger] post.worlds@[v] == pre.worlds@[v],
        pre.worlds@[w].keeps_entities_except(&post.worlds@[w], se.id@),
        !pre.worlds@[w].has_entity_spec(se.id@),
        se.location.world@ == pre.world_ids()[w],
        post.beings@.len() == pre.beings@.len(),
        forall|c: int| 0 <= c < pre.beings@.len() && c != b ==> (#[trigger] post.beings@[c]).entities@ == pre.beings@[c].entities@,
        post.beings@[b].entities@ == pre.beings@[b].entities@.push(se),
        post.mirror_ok(se),
    ensures
        post.mirrors_ok(),
        post.mirrors_distinct(),
{
    let last = pre.beings@[b].entities@.len() as int;
    assert forall|c: int, n: int| pre.is_mirror(c, n) implies !same_target(#[trigger] pre.mirror(c, n), se) by {
        let o = pre.mirror(c, n);
        assert(pre.mirror_ok(o));
        if same_target(o, se) {
            assert(pre.world_position(o.location.world@) == w) by {
                let q = pre.world_position(o.location.world@);
                assert(pre.world_ids()[q] == o.location.world@);
            }
        }
    }
    assert forall|c: int, n: int| post.is_mirror(c, n) && !(c == b && n == last) implies #[trigger] post.mirror(c, n) == pre.mirror(c, n) && pre.is_mirror(c, n) by {
        if c != b {
            assert(post.beings@[c].entities@ == pre.beings@[c].entities@);
        }
    }
    assert forall|c: int, n: int| post.is_mirror(c, n) implies post.mirror_ok(#[trigger] post.mirror(c, n)) by {
        if !(c == b && n == last) {
            assert(post.mirror(c, n) == pre.mirror(c, n));
            assert(!same_target(pre.mirror(c, n), se));
            lemma_mirror_kept(pre, post, w, se.id@, pre.mirror(c, n));
        }
    }
    assert forall|b1: int, m1: int, b2: int, m2: int|
        post.is_mirror(b1, m1) && post.is_mirror(b2, m2) && (b1 != b2 || m1 != m2)
            implies !same_target(#[trigger] post.mirror(b1, m1), #[trigger] post.mirror(b2, m2)) by {
        if b1 == b && m1 == last {
            assert(post.mirror(b2, m2) == pre.mirror(b2, m2));
        } else if b2 == b && m2 == last {
            assert(post.mirror(b1, m1) == pre.mirror(b1, m1));
        } else {
            assert(post.mirror(b1, m1) == pre.mirror(b1, m1));
            assert(post.mirror(b2, m2) == pre.mirror(b2, m2));
        }
    }
}

/// Keeping all but `k` composes.
proof fn lemma_keeps_all_but_trans<T>(a: StarSystem<T>, b: StarSystem<T>, c: StarSystem<T>, k: Seq<char>)
    requires
        a.keeps_all_but(&b, k),
        b.keeps_all_but(&c, k),
    ensures
        a.keeps_all_but(&c, k),
{
    assert forall|v: int, t: int, q: Seq<char>|
        0 <= v < a.worlds@.len() && 0 <= t < a.worlds@[v].components@.len() && q != k
            implies (c.worlds@[v].table_ids(t).contains(q) <==> a.worlds@[v].table_ids(t).contains(q)) by {
        assert(b.worlds@[v].components@.len() == a.worlds@[v].components@.len());
        assert(c.worlds@[v].table_ids(t).contains(q) <==> b.worlds@[v].table_ids(t).contains(q));
        assert(b.worlds@[v].table_ids(t).contains(q) <==> a.worlds@[v].table_ids(t).contains(q));
    }
    assert forall|v: int, t: int, q: Seq<char>|
        0 <= v < a.worlds@.len() && 0 <= t < a.worlds@[v].components@.len() && q != k
            && #[trigger] a.worlds@[v].table_ids(t).contains(q) implies c.worlds@[v].lookup(t, q) == a.worlds@[v].lookup(t, q) by {
        assert(b.worlds@[v].components@.len() == a.worlds@[v].components@.len());
        assert(b.worlds@[v].table_ids(t).contains(q));
    }
    assert forall|v: int, x: Seq<char>|
        0 <= v < a.worlds@.len() && #[trigger] a.worlds@[v].has_entity_spec(x) && !loc_ids(a.worlds@[v].locs_of(x)).contains(k)
            implies c.worlds@[v].has_entity_spec(x) && c.worlds@[v].locs_of(x) == a.worlds@[v].locs_of(x) by {
        assert(b.worlds@[v].has_entity_spec(x));
    }
    assert forall|v: int| 0 <= v < a.worlds@.len() implies (#[trigger] c.worlds@[v]).components@.len() == a.worlds@[v].components@.len() by {
        assert(b.worlds@[v].components@.len() == a.worlds@[v].components@.len());
    }
}

/// The entries a snapshot entity lists, as stored entries.
pub open spec fn components_of<T>(a: AscendedEntity<T>) -> Seq<(Uid, Component<T>)> {
    Seq::new(a.components@.len(), |j: int| (a.components@[j].id, Component { name: a.components@[j].name, data: a.components@[j].data }))
}

/// Flattens a list of root snapshots into their entity snapshots, in order.
pub open spec fn flat_entities<T>(s: Seq<AscendedBeing<T>>) -> Seq<AscendedEntity<T>>
    decreases s.len(),
{
    if s.len() == 0 {
        Seq::empty()
    } else {
        flat_entities(s.drop_last()) + s.last().entities@
    }
}

/// Flattening a prefix of the snapshots gives no more entities than
/// flattening them all.
proof fn lemma_flat_prefix<T>(s: Seq<AscendedBeing<T>>)
    ensures
        forall|q: int| 0 <= q <= s.len() ==> flat_entities(#[trigger] s.take(q)).len() <= flat_entities(s).len(),
    decreases s.len(),
{
    if s.len() > 0 {
        lemma_flat_prefix(s.drop_last());
        assert forall|q: int| 0 <= q <= s.len() implies flat_entities(#[trigger] s.take(q)).len() <= flat_entities(s).len() by {
            if q == s.len() {
                assert(s.take(q) =~= s);
            } else {
                assert(s.take(q) =~= s.drop_last().take(q));
            }
        }
    } else {
        assert forall|q: int| 0 <= q <= s.len() implies flat_entities(#[trigger] s.take(q)).len() <= flat_entities(s).len() by {
            assert(s.take(q) =~= s);
        }
    }
}

/// A mirror keeps what its partition stores for it when that partition keeps
/// its entity and the entries that location lists reference.
proof fn lemma_stored_kept<T>(pre: StarSystem<T>, post: StarSystem<T>, w: int, k: Seq<char>, o: StarEntity)
    requires
        pre.world_ids().no_duplicates(),
        post.world_ids() == pre.world_ids(),
        0 <= w < pre.worlds@.len(),
        pre.worlds@[w].wf(),
        forall|v: int| 0 <= v < pre.worlds@.len() && v != w ==> #[trigger] post.worlds@[v] == pre.worlds@[v],
        pre.worlds@[w].keeps_entities_except(&post.worlds@[w], k),
        forall|t: int, q: Seq<char>| 0 <= t < pre.worlds@[w].components@.len() && #[trigger] pre.worlds@[w].table_ids(t).contains(q)
            && pre.worlds@[w].referenced(q) ==> post.worlds@[w].lookup(t, q) == pre.worlds@[w].lookup(t, q),
        pre.mirror_ok(o),
        !(o.location.world@ == pre.world_ids()[w] && o.id@ == k),
    ensures
        post.stored_of(o) == pre.stored_of(o),
{
    let v = pre.world_position(o.location.world@);
    assert(pre.world_ids()[v] == o.location.world@) by {
        let q = choose|q: int| 0 <= q < pre.world_ids().len() && pre.world_ids()[q] == o.location.world@;
    }
    assert(post.world_position(o.location.world@) == v) by {
        let q = post.world_position(o.location.world@);
        assert(post.world_ids()[q] == o.location.world@);
    }
    if v == w {
        let ow = pre.worlds@[w];
        let nw = post.worlds@[w];
        assert(ow.has_entity_spec(o.id@));
        let l = ow.locs_of(o.id@);
        assert(nw.locs_of(o.id@) == l);
        let e = ow.entity_position(o.id@);
        assert(0 <= e < ow.entities@.len()) by {
            let i = choose|i: int| 0 <= i < ow.entity_ids().len() && ow.entity_ids()[i] == o.id@;
            lemma_entity_position(ow, i);
        }
        assert forall|j: int| 0 <= j < l.len() implies nw.lookup(l[j].0 as int, l[j].1@) == ow.lookup(l[j].0 as int, l[j].1@) by {
            assert(ow.locs(e)[j] == l[j]);
            assert(loc_ids(ow.locs(e))[j] == l[j].1@);
            assert(ow.referenced(l[j].1@));
        }
        assert(post.stored_of(o) =~= pre.stored_of(o));
    } else {
        assert(post.worlds@[v] == pre.worlds@[v]);
    }
}

/// Dropping a root keeps root ids unique.
proof fn lemma_keys_remove_beings<T>(pre: StarSystem<T>, post: StarSystem<T>, b: int)
    requires
        pre.being_ids().no_duplicates(),
        0 <= b < pre.beings@.len(),
        post.beings@ == pre.beings@.remove(b),
    ensures
        post.being_ids().no_duplicates(),
        post.being_ids() == pre.being_ids().remove(b),
{
    assert(post.being_ids() =~= pre.being_ids().remove(b));
}

/// The mirror ids of a list of property mirrors.
pub open spec fn prop_ids(s: Seq<StarEntityProperty>) -> Seq<Seq<char>> {
    s.map_values(|p: StarEntityProperty| p.id@)
}

impl<T: EnumIndex + Clone> StarSystem<T> {
    /// An empty store for the variants of `T`; partitions are created lazily.
    pub fn new() -> (r: Self)
        ensures
            r.wf(),
            r.worlds@.len() == 0,
            r.beings@.len() == 0,
    {
        StarSystem { worlds: Vec::new(), beings: Vec::new(), variant_count: T::variant_count() }
    }

    /// The position of root `id`, if present.
    pub fn find_being(&self, id: &Uid) -> (r: Option<usize>)
        ensures
            match r {
                Some(i) => i < self.beings@.len() && self.beings@[i as int].id@ == id@ && (self.wf() ==> self.being_position(id@) == i),
                None => !self.has_being_spec(id@),
            },
    {
        let mut i: usize = 0;
        while i < self.beings.len()
            invariant
                i <= self.beings@.len(),
                forall|j: int| 0 <= j < i ==> self.being_ids()[j] != id@,
            decreases self.beings@.len() - i,
        {
            if self.beings[i].id == *id {
                proof {
                    assert(self.being_ids()[i as int] == id@);
                    if self.wf() {
                        let q = self.being_position(id@);
                        assert(self.being_ids()[q] == id@);
                    }
                }
                return Some(i);
            }
            i = i + 1;
        }
        None
    }

    /// The position of partition `id`, if present.
    pub fn find_world(&self, id: &Uid) -> (r: Option<usize>)
        ensures
            match r {
                Some(i) => i < self.worlds@.len() && self.worlds@[i as int].id@ == id@ && (self.wf() ==> self.world_position(id@) == i),
                None => !self.world_ids().contains(id@),
            },
    {
        let mut i: usize = 0;
        while i < self.worlds.len()
            invariant
                i <= self.worlds@.len(),
                forall|j: int| 0 <= j < i ==> self.world_ids()[j] != id@,
            decreases self.worlds@.len() - i,
        {
            if self.worlds[i].id == *id {
                proof {
                    assert(self.world_ids()[i as int] == id@);
                    if self.wf() {
                        let q = self.world_position(id@);
                        assert(self.world_ids()[q] == id@);
                    }
                }
                return Some(i);
            }
            i = i + 1;
        }
        None
    }

    /// Creates an empty partition under a fresh id and returns that id.
    fn create_world(&mut self) -> (r: Uid)
        requires
            old(self).wf(),
        ensures
            final(self).wf(),
            final(self).worlds@.len() == old(self).worlds@.len() + 1,
            final(self).worlds@.drop_last() == old(self).worlds@,
            final(self).worlds@.last().id@ == r@,
            final(self).worlds@.last().entities@.len() == 0,
            forall|t: int| 0 <= t < final(self).worlds@.last().components@.len() ==> (#[trigger] final(self).worlds@.last().components@[t])@.len() == 0,
            final(self).beings == old(self).beings,
            final(self).variant_count == old(self).variant_count,
    {
        let mut taken: Vec<Uid> = Vec::new();
        let mut i: usize = 0;
        while i < self.worlds.len()
            invariant
                i <= self.worlds@.len(),
                taken@.len() == i,
                forall|j: int| 0 <= j < i ==> (#[trigger] taken@[j])@ == self.world_ids()[j],
            decreases self.worlds@.len() - i,
        {
            taken.push(self.worlds[i].id.clone());
            i = i + 1;
        }
        let mut world = World::new(self.variant_count);
        let id = world.id.clone().avoiding(&taken);
        world.id = id.clone();
        let ghost pre = *self;
        self.worlds.push(world);
        proof {
            assert(self.worlds@.drop_last() =~= pre.worlds@);
            assert(self.world_ids() =~= pre.world_ids().push(id@));
            assert(!pre.world_ids().contains(id@)) by {
                if pre.world_ids().contains(id@) {
                    let j = choose|j: int| 0 <= j < pre.world_ids().len() && pre.world_ids()[j] == id@;
                    assert(taken@[j]@ == id@);
                }
            }
            assert(self.being_ids() == pre.being_ids());
            assert forall|b: int, m: int| self.is_mirror(b, m) implies self.mirror_ok(#[trigger] self.mirror(b, m)) by {
                let se = self.mirror(b, m);
                assert(pre.mirror(b, m) == se);
                assert(pre.mirror_ok(se));
                let v = pre.world_position(se.location.world@);
                assert(pre.world_ids()[v] == se.location.world@);
                assert(self.world_ids()[v] == se.location.world@);
                assert(self.world_position(se.location.world@) == v) by {
                    let q = self.world_position(se.location.world@);
                    assert(self.world_ids()[q] == se.location.world@);
                }
                assert(self.worlds@[v] == pre.worlds@[v]);
            }
            assert(self.mirrors_distinct()) by {
                assert(forall|b: int, m: int| #[trigger] self.mirror(b, m) == pre.mirror(b, m));
            }
            assert forall|w: int| 0 <= w < self.worlds@.len() implies (#[trigger] self.worlds@[w]).wf()
                && self.worlds@[w].components@.len() == self.variant_count by {
                if w < pre.worlds@.len() {
                    assert(self.worlds@[w] == pre.worlds@[w]);
                }
            }
        }
        id
    }

    /// A random partition position, creating a partition first when there is none.
    fn pick_world(&mut self) -> (r: usize)
        requires
            old(self).wf(),
        ensures
            final(self).wf(),
            r < final(self).worlds@.len(),
            final(self).beings == old(self).beings,
            final(self).variant_count == old(self).variant_count,
            old(self).worlds@.len() > 0 ==> final(self).worlds == old(self).worlds,
            old(self).worlds@.len() == 0 ==> final(self).worlds@.len() == 1,
            forall|v: int, x: Seq<char>| 0 <= v < final(self).worlds@.len() && #[trigger] final(self).worlds@[v].has_entity_spec(x)
                ==> v < old(self).worlds@.len() && old(self).worlds@[v].has_entity_spec(x),
    {
        if self.worlds.len() == 0 {
            self.create_world();
            proof {
                assert forall|v: int, x: Seq<char>| 0 <= v < self.worlds@.len() && #[trigger] self.worlds@[v].has_entity_spec(x)
                    implies false by {
                    assert(self.worlds@[v].entity_ids().len() == 0);
                }
            }
        }
        rand::random::<usize>() % self.worlds.len()
    }

    /// Creates a root named `name` under a fresh id.
    pub fn conceive_being(&mut self, name: String) -> (r: Result<Uid, StoreError>)
        requires
            old(self).wf(),
        ensures
            final(self).wf(),
            r is Ok,
            !old(self).has_being_spec(r->Ok_0@),
            final(self).beings@.len() == old(self).beings@.len() + 1,
            final(self).beings@.drop_last() == old(self).beings@,
            final(self).beings@.last().id == r->Ok_0,
            final(self).beings@.last().name == name,
            final(self).beings@.last().entities@.len() == 0,
            final(self).worlds == old(self).worlds,
            final(self).variant_count == old(self).variant_count,
            root_created(*old(self), *final(self), r->Ok_0@),
    {
        let mut taken: Vec<Uid> = Vec::new();
        let mut i: usize = 0;
        while i < self.beings.len()
            invariant
                i <= self.beings@.len(),
                taken@.len() == i,
                forall|j: int| 0 <= j < i ==> (#[trigger] taken@[j])@ == self.being_ids()[j],
            decreases self.beings@.len() - i,
        {
            taken.push(self.beings[i].id.clone());
            i = i + 1;
        }
        let mut being = Being::new(name);
        being.id = being.id.clone().avoiding(&taken);
        let id = being.id.clone();
        let ghost pre = *self;
        self.beings.push(being);
        proof {
            assert(self.beings@.drop_last() =~= pre.beings@);
            assert(self.being_ids() =~= pre.being_ids().push(id@));
            assert(!pre.being_ids().contains(id@)) by {
                if pre.being_ids().contains(id@) {
                    let j = choose|j: int| 0 <= j < pre.being_ids().len() && pre.being_ids()[j] == id@;
                    assert(taken@[j]@ == id@);
                }
            }
            assert(self.world_ids() == pre.world_ids());
            lemma_beings_subset(pre, *self, |b: int| b);
        }
        Ok(id)
    }

    /// Creates a root with the given id and name and no sub-objects; a root
    /// already held under that id is replaced (its mirrors are dropped).
    pub fn set_being(&mut self, id: Uid, name: String) -> (r: Result<Uid, StoreError>)
        requires
            old(self).wf(),
        ensures
            final(self).wf(),
            r == Ok::<Uid, StoreError>(id),
            final(self).worlds == old(self).worlds,
            final(self).variant_count == old(self).variant_count,
            final(self).has_being_spec(id@),
            ({
                let b = final(self).beings@[final(self).being_position(id@)];
                b.name == name && b.entities@.len() == 0
            }),
            forall|k: Seq<char>| k != id@ ==> (final(self).has_being_spec(k) <==> old(self).has_being_spec(k)),
            final(self).beings@.len() >= old(self).beings@.len(),
            forall|c: int| 0 <= c < old(self).beings@.len() && old(self).beings@[c].id@ != id@ ==> #[trigger] final(self).beings@[c] == old(self).beings@[c],
    {
        let ghost pre = *self;
        let being = Being { id: id.clone(), entities: Vec::new(), name };
        match self.find_being(&id) {
            Some(i) => {
                self.beings.set(i, being);
                proof {
                    assert(self.being_ids() =~= pre.being_ids().update(i as int, id@));
                    assert(forall|c: int| 0 <= c < pre.beings@.len() && c != i ==> #[trigger] self.beings@[c] == pre.beings@[c]);
                    assert(pre.being_ids()[i as int] == id@);
                    assert(self.being_ids() =~= pre.being_ids());
                    assert(self.being_ids()[i as int] == id@);
                    let q = self.being_position(id@);
                    assert(self.being_ids()[q] == id@);
                }
            },
            None => {
                self.beings.push(being);
                proof {
                    assert(self.being_ids() =~= pre.being_ids().push(id@));
                    let n = pre.beings@.len() as int;
                    assert(self.being_ids()[n] == id@);
                    let q = self.being_position(id@);
                    assert(self.being_ids()[q] == id@);
                    assert forall|k: Seq<char>| k != id@ && self.has_being_spec(k) implies pre.has_being_spec(k) by {
                        let j = choose|j: int| 0 <= j < self.being_ids().len() && self.being_ids()[j] == k;
                        assert(pre.being_ids()[j] == k);
                    }
                    assert forall|k: Seq<char>| k != id@ && pre.has_being_spec(k) implies self.has_being_spec(k) by {
                        let j = choose|j: int| 0 <= j < pre.being_ids().len() && pre.being_ids()[j] == k;
                        assert(self.being_ids()[j] == k);
                    }
                }
            },
        }
        proof {
            assert(self.world_ids() == pre.world_ids());
            lemma_beings_subset(pre, *self, |b: int| b);
        }
        Ok(id)
    }

    /// The position among `b`'s sub-object mirrors of the first with id `id`.
    pub fn find_mirror(&self, b: usize, id: &Uid) -> (r: Option<usize>)
        requires
            b < self.beings@.len(),
        ensures
            match r {
                Some(m) => m < self.beings@[b as int].entities@.len() && self.mirror(b as int, m as int).id@ == id@
                    && m == self.mirror_position(b as int, id@),
                None => !self.has_mirror(b as int, id@),
            },
    {
        let mut m: usize = 0;
        while m < self.beings[b].entities.len()
            invariant
                b < self.beings@.len(),
                m <= self.beings@[b as int].entities@.len(),
                forall|n: int| 0 <= n < m ==> (#[trigger] self.mirror(b as int, n)).id@ != id@,
            decreases self.beings@[b as int].entities@.len() - m,
        {
            if self.beings[b].entities[m].id == *id {
                proof {
                    let q = self.mirror_position(b as int, id@);
                    assert(self.is_first_mirror(b as int, m as int, id@));
                    assert(self.is_first_mirror(b as int, q, id@));
                }
                return Some(m);
            }
            m = m + 1;
        }
        None
    }

    /// Adds `property` named `property_name` to table `index` of the partition
    /// of sub-object `entity` of root `being`, and mirrors it there.
    pub fn add_property_at(&mut self, being: Uid, entity: Uid, index: usize, property: T, property_name: String) -> (r: Result<Uid, StoreError>)
        requires
            old(self).wf(),
        ensures
            final(self).wf(),
            final(self).variant_count == old(self).variant_count,
            final(self).world_ids() == old(self).world_ids(),
            match r {
                Ok(pid) => {
                    let b = old(self).being_position(being@);
                    let m = old(self).mirror_position(b, entity@);
                    let se = old(self).mirror(b, m);
                    let w = old(self).world_position(se.location.world@);
                    let ow = old(self).worlds@[w];
                    let e = ow.entity_position(entity@);
                    let p = StarEntityProperty { name: property_name, id: pid, location: StarEntityLocation { world: se.location.world, entity: se.id } };
                    &&& old(self).has_being_spec(being@)
                    &&& old(self).has_mirror(b, entity@)
                    &&& index < old(self).variant_count
                    &&& !ow.has_component_spec(pid@)
                    &&& ow.relocated(&final(self).worlds@[w], e, ow.locs(e).push((index, pid)))
                    &&& ow.tables_with(&final(self).worlds@[w], index as int, (pid, Component { name: property_name, data: property }))
                    &&& forall|v: int| 0 <= v < old(self).worlds@.len() && v != w ==> #[trigger] final(self).worlds@[v] == old(self).worlds@[v]
                    &&& old(self).is_mirror(b, m)
                    &&& se.id@ == entity@
                    &&& final(self).mirror(b, m).properties@ == se.properties@.push(p)
                    &&& final(self).mirror(b, m).id == se.id
                    &&& final(self).mirror(b, m).name == se.name
                    &&& final(self).mirror(b, m).location == se.location
                    &&& old(self).same_shape(&*final(self))
                    &&& forall|c: int, n: int| old(self).is_mirror(c, n) && (c != b || n != m) ==> #[trigger] final(self).mirror(c, n) == old(self).mirror(c, n)
                },
                Err(StoreError::NotFound) => {
                    &&& !old(self).has_being_spec(being@) || !old(self).has_mirror(old(self).being_position(being@), entity@)
                    &&& *final(self) == *old(self)
                },
                Err(StoreError::InvalidOperation) => {
                    &&& old(self).has_being_spec(being@)
                    &&& old(self).has_mirror(old(self).being_position(being@), entity@)
                    &&& index >= old(self).variant_count
                    &&& *final(self) == *old(self)
                },
                Err(StoreError::ConsistencyFault) => false,
            },
    {
        let b = match self.find_being(&being) {
            None => return Err(StoreError::NotFound),
            Some(b) => b,
        };
        let m = match self.find_mirror(b, &entity) {
            None => return Err(StoreError::NotFound),
            Some(m) => m,
        };
        let ghost pre = *self;
        let ghost se = self.mirror(b as int, m as int);
        proof {
            assert(pre.mirror_ok(se));
            assert(pre.being_ids()[b as int] == being@);
            assert(pre.has_mirror(b as int, entity@)) by {
                assert(pre.mirror(b as int, m as int).id@ == entity@);
            }
        }
        let w = match self.find_world(&self.beings[b].entities[m].location.world) {
            None => return Err(StoreError::ConsistencyFault),
            Some(w) => w,
        };
        let ghost ow = self.worlds@[w as int];
        let ghost e = ow.entity_position(entity@);
        proof {
            assert(ow.has_entity_spec(entity@));
            let i = choose|i: int| 0 <= i < ow.entity_ids().len() && ow.entity_ids()[i] == entity@;
            lemma_entity_position(ow, i);
        }
        if index >= self.variant_count {
            return Err(StoreError::InvalidOperation);
        }
        let owner = self.beings[b].entities[m].id.clone();
        let r = self.worlds[w].add_component_at(entity.clone(), index, property, property_name.clone());
        match r {
            Err(err) => {
                return Err(err);
            },
            Ok(pid) => {
                let wid = self.beings[b].entities[m].location.world.clone();
                self.beings[b].entities[m].properties.push(
                    StarEntityProperty { name: property_name, id: pid.clone(), location: StarEntityLocation { world: wid, entity: owner } },
                );
                proof {
                    let nw = self.worlds@[w as int];
                    lemma_relocated_keeps(ow, nw, e, ow.locs(e).push((index, pid)));
                    assert(self.world_ids() =~= pre.world_ids()) by {
                        assert forall|v: int| 0 <= v < pre.worlds@.len() implies self.world_ids()[v] == pre.world_ids()[v] by {
                            if v != w {
                                assert(self.worlds@[v] == pre.worlds@[v]);
                            }
                        }
                    }
                    assert(self.being_ids() =~= pre.being_ids()) by {
                        assert forall|c: int| 0 <= c < pre.beings@.len() implies self.being_ids()[c] == pre.being_ids()[c] by {}
                    }
                    let nse = self.mirror(b as int, m as int);
                    assert(self.world_position(se.location.world@) == w) by {
                        let q = self.world_position(se.location.world@);
                        assert(self.world_ids()[q] == se.location.world@);
                        assert(self.world_ids()[w as int] == se.location.world@);
                    }
                    assert(prop_ids(nse.properties@) =~= prop_ids(se.properties@).push(pid@));
                    assert(loc_ids(ow.locs(e).push((index, pid))) =~= loc_ids(ow.locs(e)).push(pid@));
                    assert(self.mirror_ok(nse));
                    lemma_mirror_step(pre, *self, w as int, b as int, m as int);
                    assert forall|v: int| 0 <= v < self.worlds@.len() implies (#[trigger] self.worlds@[v]).wf()
                        && self.worlds@[v].components@.len() == self.variant_count by {
                        if v != w {
                            assert(self.worlds@[v] == pre.worlds@[v]);
                        }
                    }
                    assert(forall|c: int, n: int| pre.is_mirror(c, n) && (c != b || n != m) ==> #[trigger] self.mirror(c, n) == pre.mirror(c, n));
                }
                Ok(pid)
            },
        }
    }

    /// The snapshot of root `being`: its name and id, and per sub-object the
    /// authoritative properties read from its partition.
    pub fn ascend_being(&self, being: Uid) -> (r: Result<Vec<AscendedBeing<T>>, StoreError>)
        requires
            self.wf(),
        ensures
            match r {
                Ok(v) => {
                    &&& self.has_being_spec(being@)
                    &&& v@.len() == 1
                    &&& self.being_ascends(self.beings@[self.being_position(being@)], v@[0])
                },
                Err(e) => e == StoreError::NotFound && !self.has_being_spec(being@),
            },
    {
        let b = match self.find_being(&being) {
            None => return Err(StoreError::NotFound),
            Some(b) => b,
        };
        proof {
            assert(self.being_ids()[b as int] == being@);
        }
        let mut entities: Vec<AscendedEntity<T>> = Vec::new();
        let mut m: usize = 0;
        while m < self.beings[b].entities.len()
            invariant
                self.wf(),
                b < self.beings@.len(),
                m <= self.beings@[b as int].entities@.len(),
                entities@.len() == m,
                forall|n: int| 0 <= n < m ==> self.entity_ascends(self.beings@[b as int].entities@[n], #[trigger] entities@[n]),
            decreases self.beings@[b as int].entities@.len() - m,
        {
            let ghost se = self.mirror(b as int, m as int);
            proof {
                assert(self.mirror_ok(se));
            }
            let w = match self.find_world(&self.beings[b].entities[m].location.world) {
                None => return Err(StoreError::ConsistencyFault),
                Some(w) => w,
            };
            let mut comps = match self.worlds[w].get_entity_components(self.beings[b].entities[m].id.clone()) {
                Err(_) => return Err(StoreError::ConsistencyFault),
                Ok(c) => c,
            };
            let ghost l = self.world_of(se).locs_of(se.id@);
            let ghost orig = comps@;
            let n = comps.len();
            let mut components: Vec<AscendedComponent<T>> = Vec::new();
            let mut j: usize = 0;
            while j < n
                invariant
                    orig.len() == l.len(),
                    n == orig.len(),
                    forall|q: int| 0 <= q < l.len() ==> {
                        let c = self.world_of(se).lookup(l[q].0 as int, l[q].1@);
                        &&& (#[trigger] orig[q]).0 == l[q].1
                        &&& orig[q].1.name == c.name
                        &&& cloned::<T>(c.data, orig[q].1.data)
                    },
                    j <= n,
                    comps@ == orig.subrange(j as int, n as int),
                    components@.len() == j,
                    forall|q: int| 0 <= q < j ==> {
                        let c = self.world_of(se).lookup(l[q].0 as int, l[q].1@);
                        &&& (#[trigger] components@[q]).id == l[q].1
                        &&& components@[q].name == c.name
                        &&& cloned::<T>(c.data, components@[q].data)
                    },
                decreases n - j,
            {
                let (id, c) = comps.remove(0);
                proof {
                    assert(orig[j as int] == (id, c));
                    assert(comps@ =~= orig.subrange(j as int + 1, n as int));
                }
                components.push(AscendedComponent { name: c.name, id, data: c.data });
                j = j + 1;
            }
            entities.push(AscendedEntity { name: self.beings[b].entities[m].name.clone(), id: self.beings[b].entities[m].id.clone(), components });
            m = m + 1;
        }
        let snapshot = AscendedBeing { name: self.beings[b].name.clone(), id: self.beings[b].id.clone(), entities };
        let mut v: Vec<AscendedBeing<T>> = Vec::new();
        v.push(snapshot);
        Ok(v)
    }

    /// Drops mirror `(b, m)` and removes the partition entity it names, with
    /// that entity's properties.
    fn detach_mirror(&mut self, b: usize, m: usize)
        requires
            old(self).wf(),
            old(self).is_mirror(b as int, m as int),
        ensures
            final(self).wf(),
            final(self).variant_count == old(self).variant_count,
            final(self).world_ids() == old(self).world_ids(),
            final(self).being_ids() == old(self).being_ids(),
            final(self).beings@.len() == old(self).beings@.len(),
            forall|c: int| 0 <= c < old(self).beings@.len() && c != b ==> #[trigger] final(self).beings@[c] == old(self).beings@[c],
            final(self).beings@[b as int].entities@ == old(self).beings@[b as int].entities@.remove(m as int),
            final(self).beings@[b as int].name == old(self).beings@[b as int].name,
            final(self).beings@[b as int].id == old(self).beings@[b as int].id,
            ({
                let se = old(self).mirror(b as int, m as int);
                let w = old(self).world_position(se.location.world@);
                &&& !final(self).worlds@[w].has_entity_spec(se.id@)
                &&& forall|k: Seq<char>| #[trigger] prop_ids(se.properties@).contains(k) ==> !final(self).worlds@[w].has_component_spec(k)
            }),
            forall|v: int, k: Seq<char>| 0 <= v < final(self).worlds@.len() && #[trigger] final(self).worlds@[v].has_entity_spec(k)
                ==> old(self).worlds@[v].has_entity_spec(k),
            forall|v: int, k: Seq<char>| 0 <= v < final(self).worlds@.len() && #[trigger] final(self).worlds@[v].has_component_spec(k)
                ==> old(self).worlds@[v].has_component_spec(k),
            forall|v: int| 0 <= v < old(self).worlds@.len() && v != old(self).world_position(old(self).mirror(b as int, m as int).location.world@)
                ==> #[trigger] final(self).worlds@[v] == old(self).worlds@[v],
    {
        let ghost pre = *self;
        let ghost pse = pre.mirror(b as int, m as int);
        let se = self.beings[b].entities.remove(m);
        let ghost mid = *self;
        proof {
            assert(se == pse);
            assert(pre.mirror_ok(pse));
            assert(mid.being_ids() =~= pre.being_ids()) by {
                assert forall|c: int| 0 <= c < pre.beings@.len() implies mid.being_ids()[c] == pre.being_ids()[c] by {}
            }
            assert(mid.world_ids() == pre.world_ids());
            lemma_mirror_removed(pre, mid, b as int, m as int);
        }
        let w = match self.find_world(&se.location.world) {
            None => {
                proof {
                    assert(false);
                }
                return;
            },
            Some(w) => w,
        };
        let ghost ow = self.worlds@[w as int];
        proof {
            let i = choose|i: int| 0 <= i < ow.entity_ids().len() && ow.entity_ids()[i] == se.id@;
            lemma_entity_position(ow, i);
        }
        let _ = self.worlds[w].remove_entity(se.id.clone());
        proof {
            let nw = self.worlds@[w as int];
            let e = ow.entity_position(se.id@);
            lemma_removed_keeps(ow, nw, e);
            assert(self.world_ids() =~= mid.world_ids()) by {
                assert forall|v: int| 0 <= v < mid.worlds@.len() implies self.world_ids()[v] == mid.world_ids()[v] by {
                    if v != w {
                        assert(self.worlds@[v] == mid.worlds@[v]);
                    }
                }
            }
            assert(mid.world_ids()[w as int] == se.location.world@);
            lemma_world_step(mid, *self, w as int, se.id@);
            assert forall|v: int| 0 <= v < self.worlds@.len() implies (#[trigger] self.worlds@[v]).wf()
                && self.worlds@[v].components@.len() == self.variant_count by {
                if v != w {
                    assert(self.worlds@[v] == mid.worlds@[v]);
                }
            }
            assert(pre.world_position(se.location.world@) == w) by {
                let q = pre.world_position(se.location.world@);
                assert(pre.world_ids()[q] == se.location.world@);
            }
            assert forall|k: Seq<char>| #[trigger] prop_ids(se.properties@).contains(k) implies !nw.has_component_spec(k) by {
                assert(loc_ids(ow.locs(e)) == prop_ids(se.properties@));
                if nw.has_component_spec(k) {
                    let t = choose|t: int| 0 <= t < nw.components@.len() && (#[trigger] nw.table_ids(t)).contains(k);
                }
            }
            assert forall|v: int, k: Seq<char>| 0 <= v < self.worlds@.len() && #[trigger] self.worlds@[v].has_entity_spec(k)
                implies pre.worlds@[v].has_entity_spec(k) by {
                if v != w {
                    assert(self.worlds@[v] == pre.worlds@[v]);
                } else {
                    let i = choose|i: int| 0 <= i < nw.entity_ids().len() && nw.entity_ids()[i] == k;
                    let i0 = if i < e { i } else { i + 1 };
                    assert(nw.entities@[i] == ow.entities@[i0]);
                    assert(ow.entity_ids()[i0] == k);
                }
            }
            assert forall|v: int, k: Seq<char>| 0 <= v < self.worlds@.len() && #[trigger] self.worlds@[v].has_component_spec(k)
                implies pre.worlds@[v].has_component_spec(k) by {
                if v != w {
                    assert(self.worlds@[v] == pre.worlds@[v]);
                } else {
                    let t = choose|t: int| 0 <= t < nw.components@.len() && (#[trigger] nw.table_ids(t)).contains(k);
                    assert(ow.table_ids(t).contains(k));
                }
            }
            assert forall|v: int| 0 <= v < pre.worlds@.len() && v != pre.world_position(pse.location.world@)
                implies #[trigger] self.worlds@[v] == pre.worlds@[v] by {
                assert(self.worlds@[v] == mid.worlds@[v]);
            }
        }
    }

    /// Removes sub-object `entity` from root `being`: its mirror and its
    /// partition entity, with that entity's properties.
    pub fn dissolve_entity(&mut self, being: Uid, entity: Uid) -> (r: Result<(), StoreError>)
        requires
            old(self).wf(),
        ensures
            final(self).wf(),
            final(self).variant_count == old(self).variant_count,
            match r {
                Ok(()) => {
                    let b = old(self).being_position(being@);
                    let m = old(self).mirror_position(b, entity@);
                    let se = old(self).mirror(b, m);
                    let w = old(self).world_position(se.location.world@);
                    &&& old(self).has_being_spec(being@)
                    &&& old(self).has_mirror(b, entity@)
                    &&& final(self).beings@.len() == old(self).beings@.len()
                    &&& forall|c: int| 0 <= c < old(self).beings@.len() && c != b ==> #[trigger] final(self).beings@[c] == old(self).beings@[c]
                    &&& final(self).beings@[b].entities@ == old(self).beings@[b].entities@.remove(m)
                    &&& !final(self).worlds@[w].has_entity_spec(entity@)
                    &&& forall|k: Seq<char>| #[trigger] prop_ids(se.properties@).contains(k) ==> !final(self).worlds@[w].has_component_spec(k)
                    &&& forall|v: int| 0 <= v < old(self).worlds@.len() && v != w ==> #[trigger] final(self).worlds@[v] == old(self).worlds@[v]
                },
                Err(StoreError::NotFound) => {
                    &&& !old(self).has_being_spec(being@) || !old(self).has_mirror(old(self).being_position(being@), entity@)
                    &&& *final(self) == *old(self)
                },
                Err(_) => false,
            },
    {
        let b = match self.find_being(&being) {
            None => return Err(StoreError::NotFound),
            Some(b) => b,
        };
        let m = match self.find_mirror(b, &entity) {
            None => return Err(StoreError::NotFound),
            Some(m) => m,
        };
        proof {
            assert(self.being_ids()[b as int] == being@);
            assert(self.mirror(b as int, m as int).id@ == entity@);
        }
        self.detach_mirror(b, m);
        Ok(())
    }

    /// Removes root `id` and every partition entity its mirrors name; a
    /// mirror whose entity is gone already is skipped.
    pub fn kill_being(&mut self, id: Uid) -> (r: Result<(), StoreError>)
        requires
            old(self).wf(),
        ensures
            final(self).wf(),
            final(self).variant_count == old(self).variant_count,
            final(self).world_ids() == old(self).world_ids(),
            match r {
                Ok(()) => {
                    let b = old(self).being_position(id@);
                    &&& old(self).has_being_spec(id@)
                    &&& final(self).beings@ == old(self).beings@.remove(b)
                    &&& forall|v: int, k: Seq<char>| 0 <= v < final(self).worlds@.len() && #[trigger] final(self).worlds@[v].has_entity_spec(k)
                        ==> old(self).worlds@[v].has_entity_spec(k)
                    &&& forall|v: int, k: Seq<char>| 0 <= v < final(self).worlds@.len() && #[trigger] final(self).worlds@[v].has_component_spec(k)
                        ==> old(self).worlds@[v].has_component_spec(k)
                    &&& forall|m: int| 0 <= m < old(self).beings@[b].entities@.len() ==> {
                        let se = #[trigger] old(self).mirror(b, m);
                        let w = final(self).worlds@[old(self).world_position(se.location.world@)];
                        &&& !w.has_entity_spec(se.id@)
                        &&& forall|k: Seq<char>| prop_ids(se.properties@).contains(k) ==> !w.has_component_spec(k)
                    }
                },
                Err(e) => e == StoreError::NotFound && !old(self).has_being_spec(id@) && *final(self) == *old(self),
            },
    {
        let b = match self.find_being(&id) {
            None => return Err(StoreError::NotFound),
            Some(b) => b,
        };
        let ghost pre = *self;
        proof {
            assert(pre.being_ids()[b as int] == id@);
        }
        let ghost orig = self.beings@[b as int].entities@;
        let ghost n = orig.len();
        let ghost mut j: int = 0;
        while self.beings[b].entities.len() > 0
            invariant
                self.wf(),
                b < self.beings@.len(),
                self.variant_count == pre.variant_count,
                self.world_ids() == pre.world_ids(),
                self.being_ids() == pre.being_ids(),
                self.beings@.len() == pre.beings@.len(),
                forall|c: int| 0 <= c < pre.beings@.len() && c != b ==> #[trigger] self.beings@[c] == pre.beings@[c],
                self.beings@[b as int].id == pre.beings@[b as int].id,
                n == orig.len(),
                orig == pre.beings@[b as int].entities@,
                pre.wf(),
                0 <= j <= n,
                self.beings@[b as int].entities@ == orig.subrange(j, n as int),
                forall|q: int| 0 <= q < j ==> !self.worlds@[pre.world_position((#[trigger] orig[q]).location.world@)].has_entity_spec(orig[q].id@),
                forall|q: int, k: Seq<char>| 0 <= q < j && #[trigger] prop_ids(orig[q].properties@).contains(k)
                    ==> !self.worlds@[pre.world_position(orig[q].location.world@)].has_component_spec(k),
                forall|v: int, k: Seq<char>| 0 <= v < self.worlds@.len() && #[trigger] self.worlds@[v].has_entity_spec(k)
                    ==> pre.worlds@[v].has_entity_spec(k),
                forall|v: int, k: Seq<char>| 0 <= v < self.worlds@.len() && #[trigger] self.worlds@[v].has_component_spec(k)
                    ==> pre.worlds@[v].has_component_spec(k),
            decreases self.beings@[b as int].entities@.len(),
        {
            let ghost before = *self;
            self.detach_mirror(b, 0);
            proof {
                assert forall|v: int, k: Seq<char>| 0 <= v < self.worlds@.len() && #[trigger] self.worlds@[v].has_entity_spec(k)
                    implies pre.worlds@[v].has_entity_spec(k) by {
                    assert(before.worlds@[v].has_entity_spec(k));
                }
                assert forall|v: int, k: Seq<char>| 0 <= v < self.worlds@.len() && #[trigger] self.worlds@[v].has_component_spec(k)
                    implies pre.worlds@[v].has_component_spec(k) by {
                    assert(before.worlds@[v].has_component_spec(k));
                }
                assert(self.beings@[b as int].entities@ =~= orig.subrange(j + 1, n as int));
                assert(before.mirror(b as int, 0) == orig[j]);
                assert(before.world_ids() == pre.world_ids());
                assert forall|q: int| 0 <= q < j + 1 implies !self.worlds@[pre.world_position((#[trigger] orig[q]).location.world@)].has_entity_spec(orig[q].id@) by {
                    let se = orig[q];
                    let v = pre.world_position(se.location.world@);
                    if q < j {
                        if self.worlds@[v].has_entity_spec(se.id@) {
                            assert(0 <= v < self.worlds@.len()) by {
                                assert(pre.mirror_ok(pre.mirror(b as int, q)));
                            }
                        }
                    } else {
                        assert(before.world_position(se.location.world@) == v);
                    }
                }
                assert forall|q: int, k: Seq<char>| 0 <= q < j + 1 && #[trigger] prop_ids(orig[q].properties@).contains(k)
                    implies !self.worlds@[pre.world_position(orig[q].location.world@)].has_component_spec(k) by {
                    let se = orig[q];
                    let v = pre.world_position(se.location.world@);
                    if q < j {
                        if self.worlds@[v].has_component_spec(k) {
                            assert(0 <= v < self.worlds@.len()) by {
                                assert(pre.mirror_ok(pre.mirror(b as int, q)));
                            }
                        }
                    } else {
                        assert(before.world_position(se.location.world@) == v);
                    }
                }
            }
            proof {
                j = j + 1;
            }
        }
        let ghost mid = *self;
        self.beings.remove(b);
        proof {
            assert(j == n);
            assert(self.beings@ =~= pre.beings@.remove(b as int)) by {
                assert forall|c: int| 0 <= c < self.beings@.len() implies self.beings@[c] == pre.beings@.remove(b as int)[c] by {
                    let c0 = if c < b { c } else { c + 1 };
                    if c0 != b {
                        assert(mid.beings@[c0] == pre.beings@[c0]);
                    }
                }
            }
            assert(mid.beings@[b as int].entities@.len() == 0);
            lemma_keys_remove_beings(mid, *self, b as int);
            lemma_beings_subset(mid, *self, |c: int| if c < b { c } else { c + 1 });
            assert(forall|m: int| 0 <= m < n ==> #[trigger] pre.mirror(b as int, m) == orig[m]);
        }
        Ok(())
    }

    /// Attaches a sub-object named `entity_name` to root `being`: every
    /// mirror of that root with the same name is detached first (its
    /// partition entity and properties removed), then an entity under an id
    /// new to the chosen partition and different from every detached one is
    /// created on a randomly chosen partition (one is created when there is
    /// none) and mirrored at the end of the root's list.
    pub fn constitute_being(&mut self, being: Uid, entity_name: String) -> (r: Result<Uid, StoreError>)
        requires
            old(self).wf(),
        ensures
            final(self).wf(),
            final(self).variant_count == old(self).variant_count,
            match r {
                Ok(eid) => {
                    let b = old(self).being_position(being@);
                    let orig = old(self).beings@[b].entities@;
                    let es = final(self).beings@[b].entities@;
                    let se = es.last();
                    let nw = final(self).world_of(se);
                    &&& old(self).has_being_spec(being@)
                    &&& final(self).beings@.len() == old(self).beings@.len()
                    &&& final(self).beings@[b].id == old(self).beings@[b].id
                    &&& forall|c: int| 0 <= c < old(self).beings@.len() && c != b ==> (#[trigger] final(self).beings@[c]).entities@ == old(self).beings@[c].entities@
                    &&& es == kept_mirrors(orig, entity_name@).push(se)
                    &&& se.id == eid
                    &&& se.name == entity_name
                    &&& se.properties@.len() == 0
                    &&& nw.entities@[nw.entity_position(eid@)].1.name@ == entity_name@
                    &&& forall|n: int| 0 <= n < es.len() - 1 ==> (#[trigger] es[n]).name@ != entity_name@
                    &&& forall|q: int| 0 <= q < orig.len() && (#[trigger] orig[q]).name@ == entity_name@ ==> {
                        let w = final(self).worlds@[old(self).world_position(orig[q].location.world@)];
                        &&& eid@ != orig[q].id@
                        &&& !w.has_entity_spec(orig[q].id@)
                        &&& forall|k: Seq<char>| prop_ids(orig[q].properties@).contains(k) ==> !w.has_component_spec(k)
                    }
                    &&& old(self).worlds@.len() == 0 ==> final(self).worlds@.len() == 1
                    &&& old(self).worlds@.len() > 0 ==> final(self).world_ids() == old(self).world_ids()
                },
                Err(e) => e == StoreError::NotFound && !old(self).has_being_spec(being@) && *final(self) == *old(self),
            },
    {
        let b = match self.find_being(&being) {
            None => return Err(StoreError::NotFound),
            Some(b) => b,
        };
        let ghost pre = *self;
        proof {
            assert(pre.being_ids()[b as int] == being@);
        }
        let ghost orig = pre.beings@[b as int].entities@;
        let ghost f = |e: StarEntity| e.name@ != entity_name@;
        let n = self.beings[b].entities.len();
        let mut gone: Vec<Uid> = Vec::new();
        let mut idx: usize = 0;
        let mut c: usize = 0;
        proof {
            reveal(Seq::filter);
            assert(orig.take(0) =~= Seq::<StarEntity>::empty());
            assert(orig.take(0).filter(f) =~= Seq::<StarEntity>::empty());
            assert(self.beings@[b as int].entities@ =~= orig.take(0).filter(f) + orig.subrange(0, n as int));
        }
        while idx < n
            invariant
                self.wf(),
                pre.wf(),
                pre == *old(self),
                b < self.beings@.len(),
                b == pre.being_position(being@),
                self.variant_count == pre.variant_count,
                self.beings@.len() == pre.beings@.len(),
                self.being_ids() == pre.being_ids(),
                self.world_ids() == pre.world_ids(),
                self.worlds@.len() == pre.worlds@.len(),
                self.beings@[b as int].id == pre.beings@[b as int].id,
                forall|x: int| 0 <= x < pre.beings@.len() && x != b ==> (#[trigger] self.beings@[x]).entities@ == pre.beings@[x].entities@,
                orig == pre.beings@[b as int].entities@,
                n == orig.len(),
                f == (|e: StarEntity| e.name@ != entity_name@),
                idx <= n,
                c == orig.take(idx as int).filter(f).len(),
                self.beings@[b as int].entities@ == orig.take(idx as int).filter(f) + orig.subrange(idx as int, n as int),
                forall|q: int| 0 <= q < idx && (#[trigger] orig[q]).name@ == entity_name@ ==> {
                    let w = self.worlds@[pre.world_position(orig[q].location.world@)];
                    &&& (exists|i: int| 0 <= i < gone@.len() && gone@[i]@ == orig[q].id@)
                    &&& !w.has_entity_spec(orig[q].id@)
                    &&& forall|k: Seq<char>| prop_ids(orig[q].properties@).contains(k) ==> !w.has_component_spec(k)
                },
            decreases n - idx,
        {
            let ghost before = *self;
            let ghost before_gone = gone@;
            let ghost cur = self.beings@[b as int].entities@;
            proof {
                reveal(Seq::filter);
                assert(orig.take(idx as int + 1).drop_last() =~= orig.take(idx as int));
                assert(orig.take(idx as int + 1).last() == orig[idx as int]);
                assert(cur[c as int] == orig[idx as int]);
            }
            if self.beings[b].entities[c].name == entity_name {
                gone.push(self.beings[b].entities[c].id.clone());
                self.detach_mirror(b, c);
                proof {
                    assert(orig.take(idx as int + 1).filter(f) == orig.take(idx as int).filter(f));
                    assert(self.beings@[b as int].entities@ =~= orig.take(idx as int + 1).filter(f) + orig.subrange(idx as int + 1, n as int));
                    assert(before.world_position(orig[idx as int].location.world@) == pre.world_position(orig[idx as int].location.world@));
                    assert(before.mirror(b as int, c as int) == orig[idx as int]);
                    assert forall|q: int| 0 <= q < idx + 1 && (#[trigger] orig[q]).name@ == entity_name@ implies {
                        let w = self.worlds@[pre.world_position(orig[q].location.world@)];
                        &&& (exists|i: int| 0 <= i < gone@.len() && gone@[i]@ == orig[q].id@)
                        &&& !w.has_entity_spec(orig[q].id@)
                        &&& forall|k: Seq<char>| prop_ids(orig[q].properties@).contains(k) ==> !w.has_component_spec(k)
                    } by {
                        let v = pre.world_position(orig[q].location.world@);
                        if q < idx {
                            let i = choose|i: int| 0 <= i < before_gone.len() && before_gone[i]@ == orig[q].id@;
                            assert(gone@[i] == before_gone[i]);
                            assert(pre.mirror_ok(pre.mirror(b as int, q)));
                            assert(0 <= v < self.worlds@.len()) by {
                                let z = choose|z: int| 0 <= z < pre.world_ids().len() && pre.world_ids()[z] == orig[q].location.world@;
                            }
                            if self.worlds@[v].has_entity_spec(orig[q].id@) {
                                assert(before.worlds@[v].has_entity_spec(orig[q].id@));
                            }
                            assert forall|k: Seq<char>| prop_ids(orig[q].properties@).contains(k) implies !self.worlds@[v].has_component_spec(k) by {
                                if self.worlds@[v].has_component_spec(k) {
                                    assert(before.worlds@[v].has_component_spec(k));
                                }
                            }
                        } else {
                            assert(gone@[before_gone.len() as int]@ == orig[q].id@);
                        }
                    }
                }
            } else {
                proof {
                    assert(orig.take(idx as int + 1).filter(f) == orig.take(idx as int).filter(f).push(orig[idx as int]));
                    assert(self.beings@[b as int].entities@ =~= orig.take(idx as int + 1).filter(f) + orig.subrange(idx as int + 1, n as int));
                }
                c = c + 1;
            }
            idx = idx + 1;
        }
        proof {
            assert(orig.take(n as int) =~= orig);
            assert(self.beings@[b as int].entities@ =~= kept_mirrors(orig, entity_name@));
        }
        let ghost mid0 = *self;
        let w = self.pick_world();
        let ghost mid = *self;
        proof {
            assert(mid.being_ids() == mid0.being_ids());
            if mid0.worlds@.len() == 0 {
                assert(orig.len() == 0) by {
                    if orig.len() > 0 {
                        assert(pre.mirror_ok(pre.mirror(b as int, 0)));
                    }
                }
            } else {
                assert(mid.worlds == mid0.worlds);
            }
        }
        let mut taken = self.worlds[w].entity_id_list();
        let mut g: usize = 0;
        while g < gone.len()
            invariant
                g <= gone@.len(),
                taken@.len() >= g,
                forall|k: Seq<char>| mid.worlds@[w as int].has_entity_spec(k) ==> exists|i: int| 0 <= i < taken@.len() && taken@[i]@ == k,
                forall|i: int| 0 <= i < g ==> exists|z: int| 0 <= z < taken@.len() && taken@[z]@ == (#[trigger] gone@[i])@,
            decreases gone@.len() - g,
        {
            let ghost t0 = taken@;
            taken.push(gone[g].clone());
            proof {
                assert forall|k: Seq<char>| mid.worlds@[w as int].has_entity_spec(k) implies exists|i: int| 0 <= i < taken@.len() && taken@[i]@ == k by {
                    let i = choose|i: int| 0 <= i < t0.len() && t0[i]@ == k;
                    assert(taken@[i] == t0[i]);
                }
                assert forall|i: int| 0 <= i < g + 1 implies exists|z: int| 0 <= z < taken@.len() && taken@[z]@ == (#[trigger] gone@[i])@ by {
                    if i < g {
                        let z = choose|z: int| 0 <= z < t0.len() && t0[z]@ == gone@[i]@;
                        assert(taken@[z] == t0[z]);
                    } else {
                        assert(taken@[t0.len() as int]@ == gone@[i]@);
                    }
                }
            }
            g = g + 1;
        }
        let eid = Uid::new().avoiding(&taken);
        proof {
            assert(!mid.worlds@[w as int].has_entity_spec(eid@));
        }
        self.worlds[w].set_entity(eid.clone(), entity_name.clone());
        let wid = self.worlds[w].id.clone();
        let se = StarEntity {
            location: StarEntityLocation { world: wid.clone(), entity: eid.clone() },
            id: eid.clone(),
            name: entity_name,
            properties: Vec::new(),
        };
        let ghost gse = se;
        self.beings[b].entities.push(se);
        proof {
            let ow = mid.worlds@[w as int];
            let nw = self.worlds@[w as int];
            assert(nw.entities@ =~= ow.entities@.push(nw.entities@.last()));
            lemma_pushed_keeps(ow, nw, nw.entities@.last());
            lemma_entity_position(nw, ow.entities@.len() as int);
            assert(self.world_ids() =~= mid.world_ids()) by {
                assert forall|v: int| 0 <= v < mid.worlds@.len() implies self.world_ids()[v] == mid.world_ids()[v] by {
                    if v != w {
                        assert(self.worlds@[v] == mid.worlds@[v]);
                    }
                }
            }
            assert(self.being_ids() =~= mid.being_ids()) by {
                assert forall|x: int| 0 <= x < mid.beings@.len() implies self.being_ids()[x] == mid.being_ids()[x] by {}
            }
            assert(self.world_ids()[w as int] == wid@);
            assert(self.world_position(wid@) == w) by {
                let q = self.world_position(wid@);
                assert(self.world_ids()[q] == wid@);
            }
            assert(prop_ids(gse.properties@) =~= Seq::<Seq<char>>::empty());
            assert(loc_ids(nw.locs_of(eid@)) =~= Seq::<Seq<char>>::empty());
            assert(self.mirror_ok(gse));
            assert(self.beings@[b as int].entities@ == mid.beings@[b as int].entities@.push(gse));
            lemma_mirror_added(mid, *self, w as int, b as int, gse);
            assert forall|v: int| 0 <= v < self.worlds@.len() implies (#[trigger] self.worlds@[v]).wf()
                && self.worlds@[v].components@.len() == self.variant_count by {
                if v != w {
                    assert(self.worlds@[v] == mid.worlds@[v]);
                }
            }
            let es = self.beings@[b as int].entities@;
            let kept = kept_mirrors(orig, gse.name@);
            assert(mid.beings == mid0.beings);
            assert(es == kept.push(gse));
            assert(nw.entities@[nw.entity_position(eid@)].1.name@ == gse.name@);
            assert forall|x: int| 0 <= x < es.len() - 1 implies (#[trigger] es[x]).name@ != gse.name@ by {
                assert(es[x] == kept[x]);
                orig.lemma_filter_pred(f, x);
            }
            assert forall|q: int| 0 <= q < orig.len() && (#[trigger] orig[q]).name@ == gse.name@ implies {
                let w2 = self.worlds@[pre.world_position(orig[q].location.world@)];
                &&& eid@ != orig[q].id@
                &&& !w2.has_entity_spec(orig[q].id@)
                &&& forall|k: Seq<char>| prop_ids(orig[q].properties@).contains(k) ==> !w2.has_component_spec(k)
            } by {
                let v = pre.world_position(orig[q].location.world@);
                assert(pre.mirror(b as int, q) == orig[q]);
                assert(pre.mirror_ok(pre.mirror(b as int, q)));
                assert(0 <= v < pre.worlds@.len()) by {
                    let z = choose|z: int| 0 <= z < pre.world_ids().len() && pre.world_ids()[z] == orig[q].location.world@;
                }
                assert(mid.worlds == mid0.worlds);
                let i = choose|i: int| 0 <= i < gone@.len() && gone@[i]@ == orig[q].id@;
                let z = choose|z: int| 0 <= z < taken@.len() && taken@[z]@ == gone@[i]@;
                assert(taken@[z]@ != eid@);
                if v == w {
                    assert(nw.components == ow.components);
                    if nw.has_entity_spec(orig[q].id@) {
                        assert(ow.has_entity_spec(orig[q].id@));
                    }
                    assert forall|k: Seq<char>| prop_ids(orig[q].properties@).contains(k) implies !nw.has_component_spec(k) by {
                        assert(!mid0.worlds@[v].has_component_spec(k));
                        if nw.has_component_spec(k) {
                            let t = choose|t: int| 0 <= t < nw.components@.len() && (#[trigger] nw.table_ids(t)).contains(k);
                            assert(ow.table_ids(t).contains(k));
                        }
                    }
                } else {
                    assert(self.worlds@[v] == mid.worlds@[v]);
                }
            }
        }
        Ok(eid)
    }

    /// The position of property `id` in the property list of mirror `(b, m)`.
    fn find_prop(&self, b: usize, m: usize, id: &Uid) -> (r: Option<usize>)
        requires
            self.is_mirror(b as int, m as int),
        ensures
            match r {
                Some(j) => j < self.mirror(b as int, m as int).properties@.len()
                    && prop_ids(self.mirror(b as int, m as int).properties@)[j as int] == id@,
                None => !prop_ids(self.mirror(b as int, m as int).properties@).contains(id@),
            },
    {
        let mut j: usize = 0;
        while j < self.beings[b].entities[m].properties.len()
            invariant
                self.is_mirror(b as int, m as int),
                j <= self.mirror(b as int, m as int).properties@.len(),
                forall|q: int| 0 <= q < j ==> prop_ids(self.mirror(b as int, m as int).properties@)[q] != id@,
            decreases self.mirror(b as int, m as int).properties@.len() - j,
        {
            if self.beings[b].entities[m].properties[j].id == *id {
                return Some(j);
            }
            j = j + 1;
        }
        None
    }

    /// Removes property `j` of mirror `(b, m)` from its partition and from the
    /// mirror.
    fn drop_property(&mut self, b: usize, m: usize, j: usize)
        requires
            old(self).wf(),
            old(self).is_mirror(b as int, m as int),
            j < old(self).mirror(b as int, m as int).properties@.len(),
        ensures
            final(self).wf(),
            final(self).variant_count == old(self).variant_count,
            final(self).world_ids() == old(self).world_ids(),
            final(self).being_ids() == old(self).being_ids(),
            old(self).same_shape(&*final(self)),
            forall|c: int, n: int| old(self).is_mirror(c, n) && (c != b || n != m) ==> #[trigger] final(self).mirror(c, n) == old(self).mirror(c, n),
            final(self).mirror(b as int, m as int).properties@ == old(self).mirror(b as int, m as int).properties@.remove(j as int),
            ({
                let se = old(self).mirror(b as int, m as int);
                !final(self).worlds@[old(self).world_position(se.location.world@)].has_component_spec(se.properties@[j as int].id@)
            }),
            forall|v: int, k: Seq<char>| 0 <= v < final(self).worlds@.len() && #[trigger] final(self).worlds@[v].has_component_spec(k)
                ==> old(self).worlds@[v].has_component_spec(k),
            old(self).keeps_all_but(&*final(self), old(self).mirror(b as int, m as int).properties@[j as int].id@),
    {
        let ghost pre = *self;
        let ghost se = pre.mirror(b as int, m as int);
        proof {
            assert(pre.mirror_ok(se));
        }
        let w = match self.find_world(&self.beings[b].entities[m].location.world) {
            None => {
                proof {
                    assert(false);
                }
                return;
            },
            Some(w) => w,
        };
        let ghost ow = self.worlds@[w as int];
        let ghost e = ow.entity_position(se.id@);
        let ghost pid = se.properties@[j as int].id@;
        proof {
            let i = choose|i: int| 0 <= i < ow.entity_ids().len() && ow.entity_ids()[i] == se.id@;
            lemma_entity_position(ow, i);
            assert(prop_ids(se.properties@)[j as int] == pid);
            assert(loc_ids(ow.locs(e))[j as int] == pid);
            assert(ow.loc_position(e, pid) == j) by {
                let q = ow.loc_position(e, pid);
                assert(loc_ids(ow.locs(e))[q] == pid);
                assert(loc_ids(ow.locs(e)).no_duplicates());
            }
        }
        let eid = self.beings[b].entities[m].id.clone();
        let pid_exec = self.beings[b].entities[m].properties[j].id.clone();
        let r = self.worlds[w].remove_component_from_entity(eid, pid_exec);
        self.beings[b].entities[m].properties.remove(j);
        proof {
            assert(r is Ok);
            let nw = self.worlds@[w as int];
            lemma_relocated_keeps(ow, nw, e, ow.locs(e).remove(j as int));
            assert(self.world_ids() =~= pre.world_ids()) by {
                assert forall|v: int| 0 <= v < pre.worlds@.len() implies self.world_ids()[v] == pre.world_ids()[v] by {
                    if v != w {
                        assert(self.worlds@[v] == pre.worlds@[v]);
                    }
                }
            }
            assert(self.being_ids() =~= pre.being_ids()) by {
                assert forall|c: int| 0 <= c < pre.beings@.len() implies self.being_ids()[c] == pre.being_ids()[c] by {}
            }
            let nse = self.mirror(b as int, m as int);
            assert(self.world_ids()[w as int] == se.location.world@);
            assert(self.world_position(se.location.world@) == w) by {
                let q = self.world_position(se.location.world@);
                assert(self.world_ids()[q] == se.location.world@);
            }
            assert(prop_ids(nse.properties@) =~= prop_ids(se.properties@).remove(j as int));
            crate::world::lemma_locs_remove(ow.locs(e), j as int);
            assert(self.mirror_ok(nse));
            lemma_mirror_step(pre, *self, w as int, b as int, m as int);
            assert forall|v: int| 0 <= v < self.worlds@.len() implies (#[trigger] self.worlds@[v]).wf()
                && self.worlds@[v].components@.len() == self.variant_count by {
                if v != w {
                    assert(self.worlds@[v] == pre.worlds@[v]);
                }
            }
            assert(forall|c: int, n: int| pre.is_mirror(c, n) && (c != b || n != m) ==> #[trigger] self.mirror(c, n) == pre.mirror(c, n));
            assert forall|v: int, k: Seq<char>| 0 <= v < self.worlds@.len() && #[trigger] self.worlds@[v].has_component_spec(k)
                implies pre.worlds@[v].has_component_spec(k) by {
                if v != w {
                    assert(self.worlds@[v] == pre.worlds@[v]);
                } else {
                    let t = choose|t: int| 0 <= t < nw.components@.len() && (#[trigger] nw.table_ids(t)).contains(k);
                    if ow.table_ids(t).contains(pid) {
                        crate::world::lemma_keys_remove(ow.components@[t]@, ow.position(t, pid));
                    }
                    assert(ow.table_ids(t).contains(k));
                }
            }
            assert forall|v: int, t: int, q: Seq<char>|
                #![trigger self.worlds@[v].table_ids(t).contains(q)]
                #![trigger pre.worlds@[v].table_ids(t).contains(q)]
                0 <= v < pre.worlds@.len() && 0 <= t < pre.worlds@[v].components@.len() && q != pid
                    implies (self.worlds@[v].table_ids(t).contains(q) <==> pre.worlds@[v].table_ids(t).contains(q))
                    && (pre.worlds@[v].table_ids(t).contains(q) ==> self.worlds@[v].lookup(t, q) == pre.worlds@[v].lookup(t, q)) by {
                if v != w {
                    assert(self.worlds@[v] == pre.worlds@[v]);
                } else {
                    if ow.table_ids(t).contains(pid) {
                        let i = ow.position(t, pid);
                        assert(ow.table_ids(t)[i] == pid) by {
                            let z = choose|z: int| 0 <= z < ow.table_ids(t).len() && ow.table_ids(t)[z] == pid;
                        }
                        crate::world::lemma_keys_remove(ow.components@[t]@, i);
                        assert(nw.components@[t]@ == ow.components@[t]@.remove(i));
                    } else {
                        assert(nw.components@[t] == ow.components@[t]);
                    }
                    if ow.table_ids(t).contains(q) {
                        assert(ow.wf());
                        assert(nw.wf());
                        crate::world::lemma_lookup_kept(ow, nw, t, q);
                    }
                }
            }
            assert forall|v: int, t: int, q: Seq<char>|
                0 <= v < pre.worlds@.len() && 0 <= t < pre.worlds@[v].components@.len() && q != pid
                    && #[trigger] pre.worlds@[v].table_ids(t).contains(q) implies self.worlds@[v].lookup(t, q) == pre.worlds@[v].lookup(t, q) by {
                assert(self.worlds@[v].table_ids(t).contains(q) <==> pre.worlds@[v].table_ids(t).contains(q));
            }
            assert forall|v: int, x: Seq<char>|
                0 <= v < pre.worlds@.len() && #[trigger] pre.worlds@[v].has_entity_spec(x) && !loc_ids(pre.worlds@[v].locs_of(x)).contains(pid)
                    implies self.worlds@[v].has_entity_spec(x) && self.worlds@[v].locs_of(x) == pre.worlds@[v].locs_of(x) by {
                if v != w {
                    assert(self.worlds@[v] == pre.worlds@[v]);
                } else {
                    assert(ow.entities@[e].0@ == se.id@);
                    assert(ow.locs_of(se.id@) == ow.locs(e));
                    assert(loc_ids(ow.locs(e)).contains(pid)) by {
                        assert(loc_ids(ow.locs(e))[j as int] == pid);
                    }
                }
            }
            assert forall|v: int| 0 <= v < pre.worlds@.len() implies (#[trigger] self.worlds@[v]).components@.len() == pre.worlds@[v].components@.len() by {
                if v != w {
                    assert(self.worlds@[v] == pre.worlds@[v]);
                }
            }
            assert(pid == pre.mirror(b as int, m as int).properties@[j as int].id@);
            assert(pre.keeps_all_but(&*self, pid));
        }
    }

    /// Removes property `property` from every mirror that carries it, and
    /// from the partition entity each such mirror names.
    pub fn remove_property(&mut self, property: Uid) -> (r: Result<(), StoreError>)
        requires
            old(self).wf(),
        ensures
            final(self).wf(),
            final(self).variant_count == old(self).variant_count,
            final(self).world_ids() == old(self).world_ids(),
            old(self).property_removal(&*final(self), property@, r),
    {
        let ghost pre = *self;
        proof {
            assert(pre.keeps_all_but(&pre, property@)) by {
                assert forall|v: int, x: Seq<char>|
                    0 <= v < pre.worlds@.len() && #[trigger] pre.worlds@[v].has_entity_spec(x) && !loc_ids(pre.worlds@[v].locs_of(x)).contains(property@)
                        implies pre.worlds@[v].has_entity_spec(x) && pre.worlds@[v].locs_of(x) == pre.worlds@[v].locs_of(x) by {}
            }
        }
        let mut removed = false;
        let mut b: usize = 0;
        while b < self.beings.len()
            invariant
                self.wf(),
                self.variant_count == pre.variant_count,
                self.world_ids() == pre.world_ids(),
                self.being_ids() == pre.being_ids(),
                pre.same_shape(&*self),
                b <= self.beings@.len(),
                forall|c: int, n: int| 0 <= c < b && self.is_mirror(c, n) ==> !prop_ids((#[trigger] self.mirror(c, n)).properties@).contains(property@),
                forall|c: int, n: int| b <= c && self.is_mirror(c, n) ==> #[trigger] self.mirror(c, n) == pre.mirror(c, n),
                !removed ==> *self == pre,
                removed ==> pre.mirrors_property(property@),
                pre == *old(self),
                pre.wf(),
                pre.keeps_all_but(&*self, property@),
                forall|c: int, n: int| 0 <= c < b && pre.is_mirror(c, n) && prop_ids((#[trigger] pre.mirror(c, n)).properties@).contains(property@)
                    ==> !self.worlds@[pre.world_position(pre.mirror(c, n).location.world@)].has_component_spec(property@),
                forall|c: int, n: int| 0 <= c < b && pre.is_mirror(c, n) && !prop_ids(pre.mirror(c, n).properties@).contains(property@)
                    ==> #[trigger] self.mirror(c, n) == pre.mirror(c, n),
            decreases self.beings@.len() - b,
        {
            let mut m: usize = 0;
            while m < self.beings[b].entities.len()
                invariant
                    self.wf(),
                    self.variant_count == pre.variant_count,
                    self.world_ids() == pre.world_ids(),
                    self.being_ids() == pre.being_ids(),
                    pre.same_shape(&*self),
                    b < self.beings@.len(),
                    m <= self.beings@[b as int].entities@.len(),
                    forall|c: int, n: int| (0 <= c < b || (c == b && 0 <= n < m)) && self.is_mirror(c, n)
                        ==> !prop_ids((#[trigger] self.mirror(c, n)).properties@).contains(property@),
                    forall|c: int, n: int| ((b < c) || (c == b && m <= n)) && self.is_mirror(c, n) ==> #[trigger] self.mirror(c, n) == pre.mirror(c, n),
                    !removed ==> *self == pre,
                    removed ==> pre.mirrors_property(property@),
                    pre == *old(self),
                    pre.wf(),
                    pre.keeps_all_but(&*self, property@),
                    forall|c: int, n: int| (0 <= c < b || (c == b && 0 <= n < m)) && pre.is_mirror(c, n) && prop_ids((#[trigger] pre.mirror(c, n)).properties@).contains(property@)
                        ==> !self.worlds@[pre.world_position(pre.mirror(c, n).location.world@)].has_component_spec(property@),
                    forall|c: int, n: int| (0 <= c < b || (c == b && 0 <= n < m)) && pre.is_mirror(c, n) && !prop_ids(pre.mirror(c, n).properties@).contains(property@)
                        ==> #[trigger] self.mirror(c, n) == pre.mirror(c, n),
                decreases self.beings@[b as int].entities@.len() - m,
            {
                match self.find_prop(b, m, &property) {
                    None => {},
                    Some(j) => {
                        let ghost before = *self;
                        proof {
                            assert(before.mirror(b as int, m as int) == pre.mirror(b as int, m as int));
                            assert(pre.is_mirror(b as int, m as int));
                            assert(prop_ids(pre.mirror(b as int, m as int).properties@).contains(property@));
                        }
                        self.drop_property(b, m, j);
                        removed = true;
                        proof {
                            assert(before.mirror(b as int, m as int).properties@[j as int].id@ == property@) by {
                                assert(prop_ids(before.mirror(b as int, m as int).properties@)[j as int] == property@);
                            }
                            lemma_keeps_all_but_trans(pre, before, *self, property@);
                            assert(before.world_ids() == pre.world_ids());
                            assert(before.world_position(pre.mirror(b as int, m as int).location.world@) == pre.world_position(pre.mirror(b as int, m as int).location.world@)) by {
                                let x = pre.mirror(b as int, m as int).location.world@;
                                assert(pre.mirror_ok(pre.mirror(b as int, m as int)));
                                let p0 = pre.world_position(x);
                                assert(pre.world_ids()[p0] == x) by {
                                    let z = choose|z: int| 0 <= z < pre.world_ids().len() && pre.world_ids()[z] == x;
                                }
                                let p1 = before.world_position(x);
                                assert(before.world_ids()[p1] == x);
                            }
                            assert(prop_ids(before.mirror(b as int, m as int).properties@)[j as int] == property@);
                            assert forall|c: int, n: int| (0 <= c < b || (c == b && 0 <= n < m + 1)) && pre.is_mirror(c, n) && prop_ids((#[trigger] pre.mirror(c, n)).properties@).contains(property@)
                                implies !self.worlds@[pre.world_position(pre.mirror(c, n).location.world@)].has_component_spec(property@) by {
                                let v = pre.world_position(pre.mirror(c, n).location.world@);
                                assert(pre.mirror_ok(pre.mirror(c, n)));
                                assert(0 <= v < pre.worlds@.len()) by {
                                    let z = choose|z: int| 0 <= z < pre.world_ids().len() && pre.world_ids()[z] == pre.mirror(c, n).location.world@;
                                }
                                if !(c == b && n == m) {
                                    if self.worlds@[v].has_component_spec(property@) {
                                        assert(before.worlds@[v].has_component_spec(property@));
                                    }
                                }
                            }
                            let ps = before.mirror(b as int, m as int).properties@;
                            let ids = prop_ids(ps);
                            assert(before.mirror_ok(before.mirror(b as int, m as int)));
                            let w = before.world_of(before.mirror(b as int, m as int));
                            assert(ids.no_duplicates()) by {
                                let e = w.entity_position(before.mirror(b as int, m as int).id@);
                                let wi = before.world_position(before.mirror(b as int, m as int).location.world@);
                                assert(before.world_ids().contains(before.mirror(b as int, m as int).location.world@));
                                assert(0 <= wi < before.worlds@.len());
                                assert(w.wf());
                                assert(w.has_entity_spec(before.mirror(b as int, m as int).id@));
                                let i = choose|i: int| 0 <= i < w.entity_ids().len() && w.entity_ids()[i] == before.mirror(b as int, m as int).id@;
                                lemma_entity_position(w, i);
                            }
                            assert(prop_ids(ps.remove(j as int)) =~= ids.remove(j as int));
                            assert(!prop_ids(ps.remove(j as int)).contains(property@)) by {
                                if prop_ids(ps.remove(j as int)).contains(property@) {
                                    let q = choose|q: int| 0 <= q < ids.remove(j as int).len() && ids.remove(j as int)[q] == property@;
                                    if q < j {
                                        assert(ids[q] == property@);
                                    } else {
                                        assert(ids[q + 1] == property@);
                                    }
                                }
                            }
                        }
                    },
                }
                m = m + 1;
            }
            b = b + 1;
        }
        proof {
            assert forall|c: int, n: int| self.is_mirror(c, n) implies !prop_ids((#[trigger] self.mirror(c, n)).properties@).contains(property@) by {}
            assert forall|c: int, n: int| pre.is_mirror(c, n) && prop_ids((#[trigger] pre.mirror(c, n)).properties@).contains(property@)
                implies !self.world_of(pre.mirror(c, n)).has_component_spec(property@) by {
                let x = pre.mirror(c, n).location.world@;
                assert(pre.mirror_ok(pre.mirror(c, n)));
                let p0 = pre.world_position(x);
                assert(pre.world_ids()[p0] == x) by {
                    let z = choose|z: int| 0 <= z < pre.world_ids().len() && pre.world_ids()[z] == x;
                }
                let p1 = self.world_position(x);
                assert(self.world_ids()[p1] == x);
            }
        }
        if removed {
            Ok(())
        } else {
            Err(StoreError::NotFound)
        }
    }

    /// Adds `property` to the sub-object; its variant selects the table. See
    /// `add_property_at`.
    pub fn add_property(&mut self, being: Uid, entity: Uid, property: T, property_name: String) -> (r: Result<Uid, StoreError>)
        requires
            old(self).wf(),
        ensures
            final(self).wf(),
            match r {
                Ok(pid) => {
                    let b = old(self).being_position(being@);
                    let m = old(self).mirror_position(b, entity@);
                    let se = old(self).mirror(b, m);
                    let ow = old(self).world_of(se);
                    let nw = final(self).world_of(se);
                    &&& old(self).has_being_spec(being@)
                    &&& old(self).has_mirror(b, entity@)
                    &&& prop_ids(final(self).mirror(b, m).properties@) == prop_ids(se.properties@).push(pid@)
                    &&& final(self).mirror(b, m).properties@.last().name == property_name
                    &&& final(self).mirror(b, m).id == se.id
                    &&& final(self).mirror(b, m).name == se.name
                    &&& final(self).mirror(b, m).location == se.location
                    &&& old(self).same_shape(&*final(self))
                    &&& forall|c: int, n: int| old(self).is_mirror(c, n) && (c != b || n != m) ==> #[trigger] final(self).mirror(c, n) == old(self).mirror(c, n)
                    &&& !ow.has_component_spec(pid@)
                    &&& exists|t: int| 0 <= t < old(self).variant_count && #[trigger] nw.table_ids(t).contains(pid@)
                        && nw.lookup(t, pid@) == (Component { name: property_name, data: property })
                        && nw.locs_of(se.id@) == ow.locs_of(se.id@).push((t as usize, pid))
                },
                Err(StoreError::NotFound) => {
                    &&& !old(self).has_being_spec(being@) || !old(self).has_mirror(old(self).being_position(being@), entity@)
                    &&& *final(self) == *old(self)
                },
                Err(StoreError::InvalidOperation) => {
                    &&& old(self).has_being_spec(being@)
                    &&& old(self).has_mirror(old(self).being_position(being@), entity@)
                    &&& *final(self) == *old(self)
                },
                Err(StoreError::ConsistencyFault) => false,
            },
    {
        let index = property.index();
        let r = self.add_property_at(being, entity, index, property, property_name);
        proof {
            if r is Ok {
                let pid = r->Ok_0;
                let pre = *old(self);
                let b = pre.being_position(being@);
                let m = pre.mirror_position(b, entity@);
                let se = pre.mirror(b, m);
                assert(prop_ids(self.mirror(b, m).properties@) =~= prop_ids(se.properties@).push(pid@));
                assert(pre.is_mirror(b, m));
                assert(pre.mirror_ok(se));
                assert(pre.world_of(se).has_entity_spec(entity@));
                let w = pre.world_position(se.location.world@);
                assert(pre.world_ids()[w] == se.location.world@) by {
                    let z = choose|z: int| 0 <= z < pre.world_ids().len() && pre.world_ids()[z] == se.location.world@;
                }
                assert(self.world_position(se.location.world@) == w) by {
                    let q = self.world_position(se.location.world@);
                    assert(self.world_ids()[q] == se.location.world@);
                }
                let ow = pre.worlds@[w];
                let nw = self.worlds@[w];
                let i = choose|i: int| 0 <= i < ow.entity_ids().len() && ow.entity_ids()[i] == entity@;
                lemma_entity_position(ow, i);
                let e = ow.entity_position(entity@);
                lemma_relocated_keeps(ow, nw, e, ow.locs(e).push((index, pid)));
                let n0 = ow.components@[index as int]@.len();
                crate::world::lemma_lookup_at(nw, index as int, n0 as int);
                assert(nw.components@[index as int]@[n0 as int].0 == pid);
                let t = index as int;
                assert(nw == self.world_of(se));
                assert(ow == pre.world_of(se));
                assert(se.id@ == entity@);
                assert(ow.locs_of(se.id@) == ow.locs(e));
                assert(nw.locs_of(se.id@) == ow.locs_of(se.id@).push((t as usize, pid)));
                assert(0 <= t < pre.variant_count && nw.table_ids(t).contains(pid@)
                    && nw.lookup(t, pid@) == (Component { name: property_name, data: property })
                    && nw.locs_of(se.id@) == ow.locs_of(se.id@).push((t as usize, pid)));
            }
        }
        r
    }

    /// Stores `value` named `name` under property id `property` of the
    /// sub-object, in table `index`, and mirrors the name; see
    /// `World::set_component_at` for which ids are accepted.
    pub fn set_property_at(&mut self, being: Uid, entity: Uid, property: Uid, index: usize, value: T, name: String) -> (r: Result<Uid, StoreError>)
        requires
            old(self).wf(),
        ensures
            final(self).wf(),
            final(self).variant_count == old(self).variant_count,
            final(self).world_ids() == old(self).world_ids(),
            old(self).same_shape(&*final(self)),
            match r {
                Ok(id) => {
                    let b = old(self).being_position(being@);
                    let m = old(self).mirror_position(b, entity@);
                    let se = final(self).mirror(b, m);
                    let w = final(self).world_of(se);
                    &&& id == property
                    &&& old(self).has_being_spec(being@)
                    &&& old(self).has_mirror(b, entity@)
                    &&& index < old(self).variant_count
                    &&& w.table_ids(index as int).contains(property@)
                    &&& w.lookup(index as int, property@) == (Component { name, data: value })
                    &&& exists|j: int| 0 <= j < se.properties@.len() && (#[trigger] se.properties@[j]).id@ == property@ && se.properties@[j].name == name
                    &&& se.id == old(self).mirror(b, m).id
                    &&& se.name == old(self).mirror(b, m).name
                    &&& se.location == old(self).mirror(b, m).location
                    &&& if prop_ids(old(self).mirror(b, m).properties@).contains(property@) {
                        let ps = old(self).mirror(b, m).properties@;
                        let j = choose|j: int| 0 <= j < ps.len() && prop_ids(ps)[j] == property@;
                        se.properties@ == ps.update(j, StarEntityProperty { name, id: ps[j].id, location: ps[j].location })
                    } else {
                        se.properties@ == old(self).mirror(b, m).properties@.push(
                            StarEntityProperty { name, id: property, location: StarEntityLocation { world: se.location.world, entity: se.id } })
                    }
                    &&& forall|c: int, n: int| old(self).is_mirror(c, n) && (c != b || n != m) ==> #[trigger] final(self).mirror(c, n) == old(self).mirror(c, n)
                },
                Err(StoreError::NotFound) => {
                    &&& !old(self).has_being_spec(being@) || !old(self).has_mirror(old(self).being_position(being@), entity@)
                    &&& *final(self) == *old(self)
                },
                Err(StoreError::InvalidOperation) => {
                    let b = old(self).being_position(being@);
                    let se = old(self).mirror(b, old(self).mirror_position(b, entity@));
                    &&& old(self).has_being_spec(being@)
                    &&& old(self).has_mirror(b, entity@)
                    &&& index >= old(self).variant_count
                        || (old(self).world_of(se).referenced(property@) && !prop_ids(se.properties@).contains(property@))
                    &&& *final(self) == *old(self)
                },
                Err(StoreError::ConsistencyFault) => false,
            },
    {
        let b = match self.find_being(&being) {
            None => return Err(StoreError::NotFound),
            Some(b) => b,
        };
        let m = match self.find_mirror(b, &entity) {
            None => return Err(StoreError::NotFound),
            Some(m) => m,
        };
        let ghost pre = *self;
        let ghost se = self.mirror(b as int, m as int);
        proof {
            assert(pre.mirror_ok(se));
            assert(pre.being_ids()[b as int] == being@);
            assert(pre.has_mirror(b as int, entity@)) by {
                assert(pre.mirror(b as int, m as int).id@ == entity@);
            }
        }
        let w = match self.find_world(&self.beings[b].entities[m].location.world) {
            None => return Err(StoreError::ConsistencyFault),
            Some(w) => w,
        };
        if index >= self.variant_count {
            return Err(StoreError::InvalidOperation);
        }
        let ghost ow = self.worlds@[w as int];
        let ghost e = ow.entity_position(entity@);
        proof {
            let i = choose|i: int| 0 <= i < ow.entity_ids().len() && ow.entity_ids()[i] == entity@;
            lemma_entity_position(ow, i);
        }
        let ghost own = loc_ids(ow.locs(e)).contains(property@);
        let ghost j0 = ow.loc_position(e, property@);
        let e_exec = match self.worlds[w].find_entity(&entity) {
            None => return Err(StoreError::ConsistencyFault),
            Some(x) => x,
        };
        let jm = self.find_prop(b, m, &property);
        proof {
            assert(e_exec == e) by {
                assert(ow.entity_ids()[e_exec as int] == entity@);
            }
            assert(loc_ids(ow.locs(e)) == prop_ids(se.properties@));
            assert(loc_ids(ow.locs(e)).len() == ow.locs(e).len());
        }
        let same_table = match jm {
            Some(j) => self.worlds[w].entities[e_exec].1.location[j].0 == index,
            None => false,
        };
        proof {
            assert(e_exec == e) by {
                assert(ow.entity_ids()[e_exec as int] == entity@);
            }
            assert(loc_ids(ow.locs(e)) == prop_ids(se.properties@));
            if jm is Some {
                let j = jm->Some_0;
                assert(loc_ids(ow.locs(e))[j as int] == property@);
                assert(own);
                assert(j0 == j) by {
                    assert(loc_ids(ow.locs(e))[j0] == property@) by {
                        let q = choose|q: int| 0 <= q < loc_ids(ow.locs(e)).len() && loc_ids(ow.locs(e))[q] == property@;
                    }
                    assert(loc_ids(ow.locs(e)).no_duplicates());
                }
            } else {
                assert(!own);
            }
        }
        if jm.is_none() && self.worlds[w].is_referenced(&property) {
            return Err(StoreError::InvalidOperation);
        }
        let r = self.worlds[w].set_component_at(entity.clone(), index, value, name.clone(), property.clone());
        match r {
            Err(err) => {
                proof {
                    assert(ow.components@.len() == self.variant_count);
                }
                return Err(err);
            },
            Ok(_) => {},
        }
        let wid = self.beings[b].entities[m].location.world.clone();
        let ghost mid = *self;
        let owner = self.beings[b].entities[m].id.clone();
        let ghost gp;
        match jm {
            Some(j) => {
                let loc = self.beings[b].entities[m].properties[j].location.clone();
                let id = self.beings[b].entities[m].properties[j].id.clone();
                let p = StarEntityProperty { name: name, id, location: loc };
                proof {
                    gp = p;
                }
                self.beings[b].entities[m].properties.set(j, p);
            },
            None => {
                let p = StarEntityProperty { name: name, id: property.clone(), location: StarEntityLocation { world: wid, entity: owner } };
                proof {
                    gp = p;
                }
                self.beings[b].entities[m].properties.push(p);
            },
        }
        proof {
            let nw = self.worlds@[w as int];
            let nse = self.mirror(b as int, m as int);
            if same_table {
                assert(nw.entities == ow.entities);
                assert(ow.keeps_entities_except(&nw, entity@)) by {
                    assert(nw.entity_ids() == ow.entity_ids());
                    assert forall|k: Seq<char>| k != entity@ && #[trigger] ow.has_entity_spec(k) implies nw.has_entity_spec(k) && nw.locs_of(k) == ow.locs_of(k) by {}
                }
                assert(nw.entity_ids() == ow.entity_ids());
                assert(nw.locs_of(entity@) == ow.locs_of(entity@));
                assert(nw.has_entity_spec(entity@));
                assert(prop_ids(nse.properties@) =~= prop_ids(se.properties@));
                assert(nse.properties@[jm->Some_0 as int] == gp);
            } else if own {
                let j = jm->Some_0 as int;
                lemma_relocated_keeps(ow, nw, e, ow.locs(e).update(j, (index, property)));
                assert(loc_ids(ow.locs(e).update(j, (index, property))) =~= loc_ids(ow.locs(e)));
                assert(prop_ids(nse.properties@) =~= prop_ids(se.properties@));
                assert(nse.properties@[j] == gp);
            } else {
                lemma_relocated_keeps(ow, nw, e, ow.locs(e).push((index, property)));
                assert(loc_ids(ow.locs(e).push((index, property))) =~= loc_ids(ow.locs(e)).push(property@));
                assert(prop_ids(nse.properties@) =~= prop_ids(se.properties@).push(property@));
                assert(nse.properties@[nse.properties@.len() - 1] == gp);
            }
            assert(self.world_ids() =~= pre.world_ids()) by {
                assert forall|v: int| 0 <= v < pre.worlds@.len() implies self.world_ids()[v] == pre.world_ids()[v] by {
                    if v != w {
                        assert(self.worlds@[v] == pre.worlds@[v]);
                    }
                }
            }
            assert(self.being_ids() =~= pre.being_ids()) by {
                assert forall|c: int| 0 <= c < pre.beings@.len() implies self.being_ids()[c] == pre.being_ids()[c] by {}
            }
            assert(self.world_ids()[w as int] == se.location.world@);
            assert(self.world_position(se.location.world@) == w) by {
                let q = self.world_position(se.location.world@);
                assert(self.world_ids()[q] == se.location.world@);
            }
            assert(self.mirror_ok(nse));
            lemma_mirror_step(pre, *self, w as int, b as int, m as int);
            assert forall|v: int| 0 <= v < self.worlds@.len() implies (#[trigger] self.worlds@[v]).wf()
                && self.worlds@[v].components@.len() == self.variant_count by {
                if v != w {
                    assert(self.worlds@[v] == pre.worlds@[v]);
                }
            }
            assert(forall|c: int, n: int| pre.is_mirror(c, n) && (c != b || n != m) ==> #[trigger] self.mirror(c, n) == pre.mirror(c, n));
        }
        proof {
            let ps = se.properties@;
            let nps = self.mirror(b as int, m as int).properties@;
            if jm is Some {
                let j = jm->Some_0 as int;
                let jc = choose|q: int| 0 <= q < ps.len() && prop_ids(ps)[q] == property@;
                assert(prop_ids(ps)[j] == property@);
                assert(prop_ids(ps).no_duplicates()) by {
                    assert(loc_ids(ow.locs(e)) == prop_ids(ps));
                    assert(loc_ids(ow.locs(e)).no_duplicates());
                }
                assert(jc == j);
                assert(nps =~= ps.update(j, StarEntityProperty { name, id: ps[j].id, location: ps[j].location }));
                assert(nps[j].id@ == property@);
            } else {
                assert(nps[ps.len() as int].id@ == property@);
            }
        }
        Ok(property)
    }

    /// Stores `value` under property id `property`; its variant selects the
    /// table. See `set_property_at`.
    pub fn set_property(&mut self, being: Uid, entity: Uid, property: Uid, value: T, name: String) -> (r: Result<Uid, StoreError>)
        requires
            old(self).wf(),
        ensures
            final(self).wf(),
            old(self).same_shape(&*final(self)),
            match r {
                Ok(id) => {
                    let b = old(self).being_position(being@);
                    let m = old(self).mirror_position(b, entity@);
                    let se = final(self).mirror(b, m);
                    let w = final(self).world_of(se);
                    let ops = old(self).mirror(b, m).properties@;
                    &&& id == property
                    &&& old(self).has_being_spec(being@)
                    &&& old(self).has_mirror(b, entity@)
                    &&& exists|t: int| 0 <= t < old(self).variant_count && #[trigger] w.table_ids(t).contains(property@)
                        && w.lookup(t, property@) == (Component { name, data: value })
                    &&& exists|j: int| 0 <= j < se.properties@.len() && (#[trigger] se.properties@[j]).id@ == property@ && se.properties@[j].name == name
                    &&& prop_ids(ops).contains(property@) ==> prop_ids(se.properties@) == prop_ids(ops)
                    &&& !prop_ids(ops).contains(property@) ==> prop_ids(se.properties@) == prop_ids(ops).push(property@)
                    &&& forall|c: int, n: int| old(self).is_mirror(c, n) && (c != b || n != m) ==> #[trigger] final(self).mirror(c, n) == old(self).mirror(c, n)
                },
                Err(StoreError::NotFound) => {
                    &&& !old(self).has_being_spec(being@) || !old(self).has_mirror(old(self).being_position(being@), entity@)
                    &&& *final(self) == *old(self)
                },
                Err(StoreError::InvalidOperation) => {
                    &&& old(self).has_being_spec(being@)
                    &&& old(self).has_mirror(old(self).being_position(being@), entity@)
                    &&& *final(self) == *old(self)
                },
                Err(StoreError::ConsistencyFault) => false,
            },
    {
        let index = value.index();
        let ghost gname = name;
        let ghost gvalue = value;
        let ghost gprop = property;
        let r = self.set_property_at(being, entity, property, index, value, name);
        proof {
            if r is Ok {
                let pre = *old(self);
                let b = pre.being_position(being@);
                let m = pre.mirror_position(b, entity@);
                let se = self.mirror(b, m);
                let w = self.world_of(se);
                let ops = pre.mirror(b, m).properties@;
                let t = index as int;
                assert(w.table_ids(t).contains(gprop@));
                if prop_ids(ops).contains(gprop@) {
                    let j = choose|j: int| 0 <= j < ops.len() && prop_ids(ops)[j] == gprop@;
                    assert(prop_ids(se.properties@) =~= prop_ids(ops));
                } else {
                    assert(prop_ids(se.properties@) =~= prop_ids(ops).push(gprop@));
                }
            }
        }
        r
    }

    /// Replaces the value of property `property_id` in the first partition
    /// whose tables hold it, which must be table `index`; names and mirrors
    /// are left as they are.
    pub fn set_property_by_id_at(&mut self, property_id: Uid, index: usize, value: T) -> (r: Result<Uid, StoreError>)
        requires
            old(self).wf(),
        ensures
            final(self).wf(),
            final(self).beings == old(self).beings,
            final(self).variant_count == old(self).variant_count,
            final(self).world_ids() == old(self).world_ids(),
            match r {
                Ok(id) => {
                    &&& id@ == property_id@
                    &&& exists|v: int| 0 <= v < old(self).worlds@.len() && (#[trigger] old(self).worlds@[v]).has_component_spec(property_id@)
                        && final(self).worlds@[v].table_ids(index as int).contains(property_id@)
                        && final(self).worlds@[v].lookup(index as int, property_id@).data == value
                        && final(self).worlds@[v].lookup(index as int, property_id@).name == old(self).worlds@[v].lookup(index as int, property_id@).name
                        && old(self).worlds@[v].value_replaced(&final(self).worlds@[v], index as int, property_id@, value)
                        && forall|u: int| 0 <= u < old(self).worlds@.len() && u != v ==> #[trigger] final(self).worlds@[u] == old(self).worlds@[u]
                },
                Err(StoreError::NotFound) => {
                    &&& forall|v: int| 0 <= v < old(self).worlds@.len() ==> !(#[trigger] old(self).worlds@[v]).has_component_spec(property_id@)
                    &&& *final(self) == *old(self)
                },
                Err(StoreError::InvalidOperation) => {
                    &&& exists|v: int| 0 <= v < old(self).worlds@.len()
                        && (#[trigger] old(self).worlds@[v]).has_component_spec(property_id@)
                        && !(index < old(self).variant_count && old(self).worlds@[v].table_ids(index as int).contains(property_id@))
                    &&& *final(self) == *old(self)
                },
                Err(StoreError::ConsistencyFault) => false,
            },
    {
        let ghost pre = *self;
        let mut v: usize = 0;
        while v < self.worlds.len()
            invariant
                *self == pre,
                pre == *old(self),
                pre.wf(),
                v <= self.worlds@.len(),
                forall|u: int| 0 <= u < v ==> !(#[trigger] self.worlds@[u]).has_component_spec(property_id@),
            decreases self.worlds@.len() - v,
        {
            if self.worlds[v].has_component(property_id.clone()) {
                let ghost ow = self.worlds@[v as int];
                match self.worlds[v].find_component(&property_id) {
                    None => {},
                    Some((t, i)) => {
                        if t != index {
                            proof {
                                assert(ow.table_ids(t as int)[i as int] == property_id@);
                                if index < self.variant_count && ow.table_ids(index as int).contains(property_id@) {
                                    assert(ow.wf_tables());
                                    assert(ow.table_ids(t as int).contains(property_id@));
                                }
                            }
                            return Err(StoreError::InvalidOperation);
                        }
                        proof {
                            assert(ow.table_ids(t as int)[i as int] == property_id@);
                            assert(ow.table_ids(index as int).contains(property_id@));
                        }
                    },
                }
                proof {
                    assert(index < ow.components@.len() && ow.table_ids(index as int).contains(property_id@));
                }
                let r = self.worlds[v].set_component_value_at(property_id, index, value);
                proof {
                    let nw = self.worlds@[v as int];
                    assert(nw.entities == ow.entities);
                    assert(nw.entity_ids() == ow.entity_ids());
                    assert(ow.keeps_entities_except(&nw, Seq::<char>::empty())) by {
                        assert forall|k: Seq<char>| k != Seq::<char>::empty() && #[trigger] ow.has_entity_spec(k) implies nw.has_entity_spec(k) && nw.locs_of(k) == ow.locs_of(k) by {}
                    }
                    assert(self.world_ids() =~= pre.world_ids()) by {
                        assert forall|u: int| 0 <= u < pre.worlds@.len() implies self.world_ids()[u] == pre.world_ids()[u] by {
                            if u != v {
                                assert(self.worlds@[u] == pre.worlds@[u]);
                            }
                        }
                    }
                    assert forall|c: int, n: int| pre.is_mirror(c, n) implies self.mirror_ok(#[trigger] pre.mirror(c, n)) by {
                        let o = pre.mirror(c, n);
                        assert(pre.mirror_ok(o));
                        let u = pre.world_position(o.location.world@);
                        assert(pre.world_ids()[u] == o.location.world@) by {
                            let q = choose|q: int| 0 <= q < pre.world_ids().len() && pre.world_ids()[q] == o.location.world@;
                        }
                        assert(self.world_position(o.location.world@) == u) by {
                            let q = self.world_position(o.location.world@);
                            assert(self.world_ids()[q] == o.location.world@);
                        }
                        if u == v {
                            assert(nw.has_entity_spec(o.id@));
                            assert(nw.locs_of(o.id@) == ow.locs_of(o.id@));
                        } else {
                            assert(self.worlds@[u] == pre.worlds@[u]);
                        }
                    }
                    assert(forall|c: int, n: int| #[trigger] self.mirror(c, n) == pre.mirror(c, n));
                    assert forall|u: int| 0 <= u < self.worlds@.len() implies (#[trigger] self.worlds@[u]).wf()
                        && self.worlds@[u].components@.len() == self.variant_count by {
                        if u != v {
                            assert(self.worlds@[u] == pre.worlds@[u]);
                        }
                    }
                    assert(ow.components@.len() == self.variant_count);
                    assert(r is Ok);
                    let i = ow.position(index as int, property_id@);
                    crate::world::lemma_lookup_at(ow, index as int, i);
                    crate::world::lemma_lookup_at(nw, index as int, i);
                    assert(nw.components@[index as int]@[i].0@ == property_id@);
                    assert(forall|u: int| 0 <= u < pre.worlds@.len() && u != v ==> #[trigger] self.worlds@[u] == pre.worlds@[u]);
                }
                return r;
            }
            v = v + 1;
        }
        Err(StoreError::NotFound)
    }

    /// Replaces the value of property `property_id`; its variant selects the
    /// table. See `set_property_by_id_at`.
    pub fn set_property_by_id(&mut self, property_id: Uid, property_value: T) -> (r: Result<Uid, StoreError>)
        requires
            old(self).wf(),
        ensures
            final(self).wf(),
            final(self).beings == old(self).beings,
            match r {
                Ok(id) => id@ == property_id@ && exists|v: int, t: int| 0 <= v < old(self).worlds@.len()
                    && old(self).worlds@[v].has_component_spec(property_id@)
                    && #[trigger] old(self).worlds@[v].value_replaced(&final(self).worlds@[v], t, property_id@, property_value)
                    && forall|u: int| 0 <= u < old(self).worlds@.len() && u != v ==> #[trigger] final(self).worlds@[u] == old(self).worlds@[u],
                Err(StoreError::NotFound) => {
                    &&& forall|v: int| 0 <= v < old(self).worlds@.len() ==> !(#[trigger] old(self).worlds@[v]).has_component_spec(property_id@)
                    &&& *final(self) == *old(self)
                },
                Err(StoreError::InvalidOperation) => *final(self) == *old(self) && exists|v: int| 0 <= v < old(self).worlds@.len()
                    && (#[trigger] old(self).worlds@[v]).has_component_spec(property_id@),
                Err(StoreError::ConsistencyFault) => false,
            },
    {
        let index = property_value.index();
        let ghost pv = property_value;
        let r = self.set_property_by_id_at(property_id, index, property_value);
        proof {
            if r is Ok {
                let v = choose|v: int| 0 <= v < old(self).worlds@.len() && (#[trigger] old(self).worlds@[v]).has_component_spec(r->Ok_0@)
                    && self.worlds@[v].table_ids(index as int).contains(r->Ok_0@)
                    && self.worlds@[v].lookup(index as int, r->Ok_0@).data == pv
                    && self.worlds@[v].lookup(index as int, r->Ok_0@).name == old(self).worlds@[v].lookup(index as int, r->Ok_0@).name
                    && old(self).worlds@[v].value_replaced(&self.worlds@[v], index as int, r->Ok_0@, pv)
                    && forall|u: int| 0 <= u < old(self).worlds@.len() && u != v ==> #[trigger] self.worlds@[u] == old(self).worlds@[u];
                assert(old(self).worlds@[v].value_replaced(&self.worlds@[v], index as int, r->Ok_0@, pv));
            }
        }
        r
    }

    /// Recreates snapshot entity `ae` on partition `w` under its own id and
    /// mirrors it at the end of root position `b`; each component is written
    /// under its own id, in order. An id already live on that partition is
    /// refused, so nothing live is overwritten.
    fn develop_entity(&mut self, b: usize, w: usize, ae: AscendedEntity<T>) -> (r: Result<Uid, StoreError>)
        requires
            old(self).wf(),
            b < old(self).beings@.len(),
            w < old(self).worlds@.len(),
        ensures
            final(self).wf(),
            final(self).variant_count == old(self).variant_count,
            final(self).world_ids() == old(self).world_ids(),
            final(self).being_ids() == old(self).being_ids(),
            final(self).beings@.len() == old(self).beings@.len(),
            final(self).beings@[b as int].id == old(self).beings@[b as int].id,
            forall|c: int| 0 <= c < old(self).beings@.len() && c != b ==> (#[trigger] final(self).beings@[c]).entities@ == old(self).beings@[c].entities@,
            final(self).beings@[b as int].entities@.len() >= old(self).beings@[b as int].entities@.len(),
            final(self).beings@[b as int].entities@.subrange(0, old(self).beings@[b as int].entities@.len() as int) == old(self).beings@[b as int].entities@,
            forall|c: int, n: int| old(self).is_mirror(c, n) ==> final(self).stored_of(#[trigger] old(self).mirror(c, n)) == old(self).stored_of(old(self).mirror(c, n)),
            match r {
                Ok(eid) => {
                    let es = final(self).beings@[b as int].entities@;
                    &&& eid == ae.id
                    &&& es.len() == old(self).beings@[b as int].entities@.len() + 1
                    &&& es.last().id == ae.id
                    &&& es.last().name == ae.name
                    &&& final(self).stored_of(es.last()) == components_of(ae)
                    &&& es.last().properties@.len() == ae.components@.len()
                    &&& forall|i: int| 0 <= i < ae.components@.len() ==> (#[trigger] es.last().properties@[i]).name == ae.components@[i].name
                },
                Err(e) => e == StoreError::InvalidOperation
                    && (old(self).worlds@[w as int].has_entity_spec(ae.id@) || ae.components@.len() > 0),
            },
            old(self).worlds@[w as int].has_entity_spec(ae.id@) ==> r == Err::<Uid, StoreError>(StoreError::InvalidOperation) && *final(self) == *old(self),
            forall|v: int, x: Seq<char>| 0 <= v < final(self).worlds@.len() && #[trigger] final(self).worlds@[v].has_entity_spec(x)
                ==> old(self).worlds@[v].has_entity_spec(x) || x == ae.id@,
            final(self).worlds@.len() == old(self).worlds@.len(),
            !old(self).worlds@[w as int].has_entity_spec(ae.id@) && ae.components@.len() == 0 ==> r is Ok,
    {
        let ghost pre = *self;
        if self.worlds[w].has_entity(ae.id.clone()) {
            proof {
                assert(self.beings@[b as int].entities@.subrange(0, pre.beings@[b as int].entities@.len() as int) =~= pre.beings@[b as int].entities@);
            }
            return Err(StoreError::InvalidOperation);
        }
        let ghost gae = ae;
        let AscendedEntity { name, id, components } = ae;
        let ghost ow = self.worlds@[w as int];
        let eid = self.worlds[w].set_entity(id.clone(), name.clone());
        let wid = self.worlds[w].id.clone();
        let se = StarEntity {
            location: StarEntityLocation { world: wid.clone(), entity: eid.clone() },
            id: eid.clone(),
            name,
            properties: Vec::new(),
        };
        let ghost gse = se;
        self.beings[b].entities.push(se);
        let last = self.beings[b].entities.len() - 1;
        proof {
            let nw = self.worlds@[w as int];
            assert(nw.entities@ =~= ow.entities@.push(nw.entities@.last()));
            lemma_pushed_keeps(ow, nw, nw.entities@.last());
            assert(self.world_ids() =~= pre.world_ids()) by {
                assert forall|v: int| 0 <= v < pre.worlds@.len() implies self.world_ids()[v] == pre.world_ids()[v] by {
                    if v != w {
                        assert(self.worlds@[v] == pre.worlds@[v]);
                    }
                }
            }
            assert(self.being_ids() =~= pre.being_ids()) by {
                assert forall|c: int| 0 <= c < pre.beings@.len() implies self.being_ids()[c] == pre.being_ids()[c] by {}
            }
            assert(self.world_ids()[w as int] == wid@);
            assert(self.world_position(wid@) == w) by {
                let q = self.world_position(wid@);
                assert(self.world_ids()[q] == wid@);
            }
            assert(prop_ids(gse.properties@) =~= Seq::<Seq<char>>::empty());
            assert(loc_ids(nw.locs_of(eid@)) =~= Seq::<Seq<char>>::empty());
            assert(self.mirror_ok(gse));
            assert(self.beings@[b as int].entities@ == pre.beings@[b as int].entities@.push(gse));
            lemma_mirror_added(pre, *self, w as int, b as int, gse);
            assert forall|v: int| 0 <= v < self.worlds@.len() implies (#[trigger] self.worlds@[v]).wf()
                && self.worlds@[v].components@.len() == self.variant_count by {
                if v != w {
                    assert(self.worlds@[v] == pre.worlds@[v]);
                }
            }
            assert forall|c: int, n: int| pre.is_mirror(c, n) implies self.stored_of(#[trigger] pre.mirror(c, n)) == pre.stored_of(pre.mirror(c, n)) by {
                let o = pre.mirror(c, n);
                assert(pre.mirror_ok(o));
                if o.location.world@ == pre.world_ids()[w as int] && o.id@ == eid@ {
                    assert(pre.world_position(o.location.world@) == w) by {
                        let q = pre.world_position(o.location.world@);
                        assert(pre.world_ids()[q] == o.location.world@);
                    }
                }
                assert(nw.components == ow.components);
                lemma_stored_kept(pre, *self, w as int, eid@, o);
            }
            assert(self.stored_of(gse) =~= Seq::<(Uid, Component<T>)>::empty());
        }
        let mut comps = components;
        let n = comps.len();
        let ghost orig = comps@;
        let ghost mid = *self;
        let mut j: usize = 0;
        while j < n
            invariant
                self.wf(),
                pre.wf(),
                b < self.beings@.len(),
                w < self.worlds@.len(),
                self.worlds@[w as int].id@ == wid@,
                self.variant_count == pre.variant_count,
                self.world_ids() == pre.world_ids(),
                self.being_ids() == pre.being_ids(),
                self.beings@.len() == pre.beings@.len(),
                forall|c: int| 0 <= c < pre.beings@.len() && c != b ==> (#[trigger] self.beings@[c]).entities@ == pre.beings@[c].entities@,
                last == pre.beings@[b as int].entities@.len(),
                self.beings@[b as int].entities@.len() == last + 1,
                self.beings@[b as int].entities@.subrange(0, last as int) == pre.beings@[b as int].entities@,
                self.mirror(b as int, last as int).id == id,
                self.beings@[b as int].id == pre.beings@[b as int].id,
                eid == id,
                pre == *old(self),
                !pre.worlds@[w as int].has_entity_spec(gae.id@),
                gae == ae,
                self.worlds@.len() == pre.worlds@.len(),
                forall|v: int, x: Seq<char>| 0 <= v < self.worlds@.len() && #[trigger] self.worlds@[v].has_entity_spec(x)
                    ==> pre.worlds@[v].has_entity_spec(x) || x == gae.id@,
                gae.id == id,
                self.mirror(b as int, last as int).id@ == eid@,
                self.mirror(b as int, last as int).name == gae.name,
                self.mirror(b as int, last as int).location.world@ == wid@,
                forall|c: int, q: int| pre.is_mirror(c, q) ==> self.stored_of(#[trigger] pre.mirror(c, q)) == pre.stored_of(pre.mirror(c, q)),
                n == orig.len(),
                orig == gae.components@,
                j <= n,
                comps@ == orig.subrange(j as int, n as int),
                self.stored_of(self.mirror(b as int, last as int)) == components_of(gae).take(j as int),
                self.mirror(b as int, last as int).properties@.len() == j,
                forall|i: int| 0 <= i < j ==> (#[trigger] self.mirror(b as int, last as int).properties@[i]).name == orig[i].name,
            decreases n - j,
        {
            let ac = comps.remove(0);
            proof {
                assert(orig[j as int] == ac);
                assert(comps@ =~= orig.subrange(j as int + 1, n as int));
            }
            if self.worlds[w].is_referenced(&ac.id) {
                proof {
                    assert(self.beings@[b as int].entities@.subrange(0, pre.beings@[b as int].entities@.len() as int) == pre.beings@[b as int].entities@);
                }
                return Err(StoreError::InvalidOperation);
            }
            let ix = ac.data.index();
            if ix >= self.variant_count {
                return Err(StoreError::InvalidOperation);
            }
            let AscendedComponent { name: cname, id: cid, data } = ac;
            let pid = cid.clone();
            let ghost before = *self;
            let ghost cur = before.mirror(b as int, last as int);
            let ghost bw = before.worlds@[w as int];
            proof {
                assert(before.mirror_ok(cur));
                assert(before.world_position(cur.location.world@) == w) by {
                    assert(before.world_ids()[w as int] == wid@);
                    let q = before.world_position(cur.location.world@);
                    assert(before.world_ids()[q] == wid@);
                }
                let i = choose|i: int| 0 <= i < bw.entity_ids().len() && bw.entity_ids()[i] == eid@;
                lemma_entity_position(bw, i);
                assert(!loc_ids(bw.locs(bw.entity_position(eid@))).contains(pid@));
            }
            let r = self.worlds[w].set_component_at(eid.clone(), ix, data, cname.clone(), cid);
            match r {
                Err(_) => {
                    proof {
                        assert(false);
                    }
                    return Err(StoreError::InvalidOperation);
                },
                Ok(_) => {},
            }
            self.beings[b].entities[last].properties.push(
                StarEntityProperty { name: cname, id: pid, location: StarEntityLocation { world: wid.clone(), entity: eid.clone() } },
            );
            proof {
                let nw = self.worlds@[w as int];
                let e = bw.entity_position(eid@);
                let newl = bw.locs(e).push((ix, cid));
                lemma_relocated_keeps(bw, nw, e, newl);
                assert forall|v: int, x: Seq<char>| 0 <= v < self.worlds@.len() && #[trigger] self.worlds@[v].has_entity_spec(x)
                    implies pre.worlds@[v].has_entity_spec(x) || x == gae.id@ by {
                    if v != w {
                        assert(self.worlds@[v] == before.worlds@[v]);
                    } else {
                        assert(nw.entity_ids() == bw.entity_ids());
                    }
                    assert(before.worlds@[v].has_entity_spec(x));
                }
                assert(self.world_ids() =~= before.world_ids()) by {
                    assert forall|v: int| 0 <= v < before.worlds@.len() implies self.world_ids()[v] == before.world_ids()[v] by {
                        if v != w {
                            assert(self.worlds@[v] == before.worlds@[v]);
                        }
                    }
                }
                assert(self.being_ids() =~= before.being_ids()) by {
                    assert forall|c: int| 0 <= c < before.beings@.len() implies self.being_ids()[c] == before.being_ids()[c] by {}
                }
                let nse = self.mirror(b as int, last as int);
                assert(self.world_ids()[w as int] == wid@);
                assert(self.world_position(wid@) == w) by {
                    let q = self.world_position(wid@);
                    assert(self.world_ids()[q] == wid@);
                }
                assert(loc_ids(newl) =~= loc_ids(bw.locs(e)).push(pid@));
                assert(prop_ids(nse.properties@) =~= prop_ids(cur.properties@).push(pid@));
                assert(self.mirror_ok(nse));
                lemma_mirror_step(before, *self, w as int, b as int, last as int);
                assert forall|v: int| 0 <= v < self.worlds@.len() implies (#[trigger] self.worlds@[v]).wf()
                    && self.worlds@[v].components@.len() == self.variant_count by {
                    if v != w {
                        assert(self.worlds@[v] == before.worlds@[v]);
                    }
                }
                assert forall|t: int, q: Seq<char>| 0 <= t < bw.components@.len() && #[trigger] bw.table_ids(t).contains(q)
                    && bw.referenced(q) implies nw.lookup(t, q) == bw.lookup(t, q) by {
                    assert(q != pid@);
                }
                assert forall|c: int, q: int| pre.is_mirror(c, q) implies self.stored_of(#[trigger] pre.mirror(c, q)) == pre.stored_of(pre.mirror(c, q)) by {
                    let o = pre.mirror(c, q);
                    assert(before.is_mirror(c, q)) by {
                        if c == b {
                            assert(before.beings@[b as int].entities@.subrange(0, last as int)[q] == before.mirror(b as int, q));
                        }
                    }
                    assert(before.mirror(c, q) == o) by {
                        if c == b {
                            assert(before.beings@[b as int].entities@.subrange(0, last as int)[q] == before.mirror(b as int, q));
                        }
                    }
                    assert(!same_target(o, cur));
                    lemma_stored_kept(before, *self, w as int, eid@, o);
                }
                // the new mirror's stored entries grew by the written component
                let sl = components_of(gae);
                assert(nw.locs_of(eid@) == newl);
                assert(bw.locs_of(eid@) == bw.locs(e));
                assert(self.stored_of(nse) =~= before.stored_of(cur).push((cid, Component { name: gae.components@[j as int].name, data: gae.components@[j as int].data }))) by {
                    assert forall|q: int| 0 <= q < bw.locs(e).len() implies nw.lookup(newl[q].0 as int, newl[q].1@) == bw.lookup(bw.locs(e)[q].0 as int, bw.locs(e)[q].1@) by {
                        assert(newl[q] == bw.locs(e)[q]);
                        assert(loc_ids(bw.locs(e))[q] == bw.locs(e)[q].1@);
                        assert(bw.referenced(bw.locs(e)[q].1@));
                        assert(bw.wf_locations());
                        assert(bw.locs(e)[q].1@ != pid@);
                    }
                }
                assert(sl.take(j as int + 1) =~= sl.take(j as int).push(sl[j as int]));
                assert(self.beings@[b as int].entities@.subrange(0, last as int) =~= pre.beings@[b as int].entities@) by {
                    assert forall|q: int| 0 <= q < last implies self.beings@[b as int].entities@[q] == pre.beings@[b as int].entities@[q] by {
                        assert(self.mirror(b as int, q) == before.mirror(b as int, q));
                        assert(before.beings@[b as int].entities@.subrange(0, last as int)[q] == before.mirror(b as int, q));
                    }
                }
            }
            j = j + 1;
        }
        proof {
            assert(components_of(gae).take(n as int) =~= components_of(gae));
            assert(self.beings@[b as int].entities@.last() == self.mirror(b as int, last as int));
        }
        Ok(eid)
    }

    /// Rehydrates snapshots into root `being`: for each root snapshot a
    /// partition is picked at random (one is created when there is none), and
    /// each of its entities is recreated there under its own id, with every
    /// component written through to the partition's tables under its own id,
    /// and mirrored at the end of the root's list. Returns the entity ids in
    /// order. An id already live on the picked partition is refused with
    /// `InvalidOperation` rather than overwritten: overwriting would empty a
    /// record that another mirror may name, breaking the mirror/table match.
    /// A store with no declared variants is refused the same way.
    #[verifier::spinoff_prover]
    #[verifier::rlimit(50)]
    pub fn develop_being(&mut self, being: Uid, ascended_beings: Vec<AscendedBeing<T>>) -> (r: Result<Vec<Uid>, StoreError>)
        requires
            old(self).wf(),
        ensures
            final(self).wf(),
            final(self).variant_count == old(self).variant_count,
            match r {
                Ok(ids) => old(self).developed_into(&*final(self), being@, ascended_beings@, ids@),
                Err(StoreError::NotFound) => !old(self).has_being_spec(being@) && *final(self) == *old(self),
                Err(StoreError::InvalidOperation) => {
                    let b = old(self).being_position(being@);
                    let k = old(self).beings@[b].entities@.len();
                    &&& old(self).has_being_spec(being@)
                    &&& final(self).being_ids() == old(self).being_ids()
                    &&& final(self).beings@.len() == old(self).beings@.len()
                    &&& forall|c: int| 0 <= c < old(self).beings@.len() && c != b ==> (#[trigger] final(self).beings@[c]).entities@ == old(self).beings@[c].entities@
                    &&& final(self).beings@[b].entities@.len() >= k
                    &&& final(self).beings@[b].entities@.subrange(0, k as int) == old(self).beings@[b].entities@
                },
                Err(StoreError::ConsistencyFault) => false,
            },
            !old(self).has_being_spec(being@) ==> r == Err::<Vec<Uid>, StoreError>(StoreError::NotFound),
            old(self).has_being_spec(being@) && old(self).variant_count == 0
                ==> r == Err::<Vec<Uid>, StoreError>(StoreError::InvalidOperation) && *final(self) == *old(self),
            old(self).has_being_spec(being@) && old(self).variant_count > 0 && flat_entities(ascended_beings@).len() == 0 ==> r is Ok,
            old(self).has_being_spec(being@) && old(self).variant_count > 0 && old(self).fresh_bare_snapshots(ascended_beings@) ==> r is Ok,
    {
        let b = match self.find_being(&being) {
            None => return Err(StoreError::NotFound),
            Some(b) => b,
        };
        proof {
            assert(self.being_ids()[b as int] == being@);
        }
        if self.variant_count == 0 {
            return Err(StoreError::InvalidOperation);
        }
        let ghost pre = *self;
        let ghost k = pre.beings@[b as int].entities@.len();
        proof {
            assert(pre.being_ids()[b as int] == being@);
            lemma_flat_prefix(ascended_beings@);
        }
        let mut snaps = ascended_beings;
        let ghost orig = snaps@;
        let n = snaps.len();
        let mut ids: Vec<Uid> = Vec::new();
        let mut i: usize = 0;
        while i < n
            invariant
                self.wf(),
                pre == *old(self),
                pre.wf(),
                b < self.beings@.len(),
                self.variant_count == pre.variant_count,
                self.beings@.len() == pre.beings@.len(),
                self.being_ids() == pre.being_ids(),
                self.beings@[b as int].id == pre.beings@[b as int].id,
                forall|c: int| 0 <= c < pre.beings@.len() && c != b ==> (#[trigger] self.beings@[c]).entities@ == pre.beings@[c].entities@,
                forall|q: int| 0 <= q <= orig.len() ==> flat_entities(#[trigger] orig.take(q)).len() <= flat_entities(orig).len(),
                pre.has_being_spec(being@),
                pre.variant_count > 0,
                b == pre.being_position(being@),
                pre.fresh_bare_snapshots(orig) ==> forall|i2: int, q2: int, v: int| i <= i2 < orig.len() && 0 <= q2 < orig[i2].entities@.len() && 0 <= v < self.worlds@.len()
                    ==> !(#[trigger] self.worlds@[v].has_entity_spec(orig[i2].entities@[q2].id@)),
                k == pre.beings@[b as int].entities@.len(),
                n == orig.len(),
                orig == ascended_beings@,
                i <= n,
                snaps@ == orig.subrange(i as int, n as int),
                self.beings@[b as int].entities@.len() == k + flat_entities(orig.take(i as int)).len(),
                self.beings@[b as int].entities@.subrange(0, k as int) == pre.beings@[b as int].entities@,
                ids@.len() == flat_entities(orig.take(i as int)).len(),
                self.developed(b as int, k as int, flat_entities(orig.take(i as int)), ids@, flat_entities(orig.take(i as int)).len() as int),
            decreases n - i,
        {
            let ab = snaps.remove(0);
            proof {
                assert(orig[i as int] == ab);
                assert(snaps@ =~= orig.subrange(i as int + 1, n as int));
                assert(orig.take(i as int + 1).drop_last() =~= orig.take(i as int));
                assert(flat_entities(orig.take(i as int + 1)) == flat_entities(orig.take(i as int)) + ab.entities@);
            }
            let ghost done = flat_entities(orig.take(i as int));
            let ghost before_pick = *self;
            let w = self.pick_world();
            proof {
                if before_pick.worlds@.len() == 0 {
                    assert(before_pick.beings@[b as int].entities@.len() == 0) by {
                        if before_pick.beings@[b as int].entities@.len() > 0 {
                            assert(before_pick.mirror_ok(before_pick.mirror(b as int, 0)));
                        }
                    }
                } else {
                    assert(self.worlds == before_pick.worlds);
                }
                assert(self.being_ids() == before_pick.being_ids());
                assert forall|q: int| 0 <= q < done.len() implies #[trigger] (done + ab.entities@)[q] == done[q] by {}
                assert forall|q: int| 0 <= q < done.len() implies self.stored_of(#[trigger] self.mirror(b as int, k + q)) == before_pick.stored_of(before_pick.mirror(b as int, k + q)) by {
                    assert(self.mirror(b as int, k + q) == before_pick.mirror(b as int, k + q));
                }
            }
            let ghost gab = ab;
            let AscendedBeing { name: _, id: _, entities } = ab;
            let mut ents = entities;
            let ghost eorig = ents@;
            let en = ents.len();
            proof {
                assert(eorig == gab.entities@);
                assert(before_pick.developed(b as int, k as int, done, ids@, done.len() as int));
                assert forall|q: int| 0 <= q < done.len() implies #[trigger] (done + eorig)[q] == done[q] && self.mirror(b as int, k + q) == before_pick.mirror(b as int, k + q)
                    && self.stored_of(before_pick.mirror(b as int, k + q)) == before_pick.stored_of(before_pick.mirror(b as int, k + q)) by {
                }
                if pre.fresh_bare_snapshots(orig) {
                    assert forall|i2: int, q2: int, v: int| (i < i2 < orig.len() || (i2 == i && 0 <= q2)) && 0 <= q2 < orig[i2].entities@.len() && 0 <= v < self.worlds@.len()
                        implies !(#[trigger] self.worlds@[v].has_entity_spec(orig[i2].entities@[q2].id@)) by {
                        if self.worlds@[v].has_entity_spec(orig[i2].entities@[q2].id@) {
                            assert(before_pick.worlds@[v].has_entity_spec(orig[i2].entities@[q2].id@));
                        }
                    }
                }
                assert(self.developed(b as int, k as int, done + eorig, ids@, done.len() as int)) by {
                    assert forall|q: int| 0 <= q < done.len() implies #[trigger] self.developed_at(b as int, k as int, done + eorig, ids@, q) by {
                        assert(before_pick.developed_at(b as int, k as int, done, ids@, q));
                        assert((done + eorig)[q] == done[q]);
                        assert(self.mirror(b as int, k + q) == before_pick.mirror(b as int, k + q));
                    }
                }
            }
            let mut j: usize = 0;
            while j < en
                invariant
                    self.wf(),
                    pre.wf(),
                    pre == *old(self),
                    b < self.beings@.len(),
                    w < self.worlds@.len(),
                    self.variant_count == pre.variant_count,
                    self.beings@.len() == pre.beings@.len(),
                    self.being_ids() == pre.being_ids(),
                    self.beings@[b as int].id == pre.beings@[b as int].id,
                    forall|c: int| 0 <= c < pre.beings@.len() && c != b ==> (#[trigger] self.beings@[c]).entities@ == pre.beings@[c].entities@,
                    forall|q: int| 0 <= q <= orig.len() ==> flat_entities(#[trigger] orig.take(q)).len() <= flat_entities(orig).len(),
                    flat_entities(orig.take(i as int + 1)) == done + eorig,
                    pre.has_being_spec(being@),
                    pre.variant_count > 0,
                    b == pre.being_position(being@),
                    pre.fresh_bare_snapshots(orig) ==> forall|i2: int, q2: int, v: int| (i < i2 < orig.len() || (i2 == i && j <= q2)) && 0 <= q2 < orig[i2].entities@.len() && 0 <= v < self.worlds@.len()
                        ==> !(#[trigger] self.worlds@[v].has_entity_spec(orig[i2].entities@[q2].id@)),
                    k == pre.beings@[b as int].entities@.len(),
                    n == orig.len(),
                    orig == ascended_beings@,
                    i < n,
                    snaps@ == orig.subrange(i as int + 1, n as int),
                    eorig == orig[i as int].entities@,
                    en == eorig.len(),
                    j <= en,
                    ents@ == eorig.subrange(j as int, en as int),
                    done == flat_entities(orig.take(i as int)),
                    self.beings@[b as int].entities@.len() == k + done.len() + j,
                    self.beings@[b as int].entities@.subrange(0, k as int) == pre.beings@[b as int].entities@,
                    ids@.len() == done.len() + j,
                    self.developed(b as int, k as int, done + eorig, ids@, done.len() + j as int),
                decreases en - j,
            {
                let ae = ents.remove(0);
                proof {
                    assert(eorig[j as int] == ae);
                    assert(ents@ =~= eorig.subrange(j as int + 1, en as int));
                }
                let ghost before = *self;
                let ghost old_ids = ids@;
                let r = self.develop_entity(b, w, ae);
                let eid = match r {
                    Err(e) => {
                        proof {
                            if pre.fresh_bare_snapshots(orig) {
                                assert(ae == orig[i as int].entities@[j as int]);
                                assert(!before.worlds@[w as int].has_entity_spec(orig[i as int].entities@[j as int].id@));
                                assert(orig[i as int].entities@[j as int].components@.len() == 0);
                            }
                            assert(flat_entities(orig.take(i as int + 1)).len() > 0);
                            assert(self.beings@[b as int].entities@.subrange(0, k as int) =~= pre.beings@[b as int].entities@) by {
                                assert forall|q: int| 0 <= q < k implies self.beings@[b as int].entities@[q] == pre.beings@[b as int].entities@[q] by {
                                    assert(self.beings@[b as int].entities@.subrange(0, before.beings@[b as int].entities@.len() as int)[q] == before.beings@[b as int].entities@[q]);
                                    assert(before.beings@[b as int].entities@.subrange(0, k as int)[q] == pre.beings@[b as int].entities@[q]);
                                }
                            }
                        }
                        return Err(e);
                    },
                    Ok(eid) => eid,
                };
                ids.push(eid);
                proof {
                    let fl = done + eorig;
                    let m0 = k + done.len() + j;
                    assert(fl[done.len() + j] == eorig[j as int]);
                    assert(before.developed(b as int, k as int, done + eorig, old_ids, done.len() + j as int));
                    assert(self.developed(b as int, k as int, done + eorig, ids@, done.len() + j as int + 1)) by {
                        assert forall|q: int| 0 <= q < done.len() + j + 1 implies #[trigger] self.developed_at(b as int, k as int, done + eorig, ids@, q) by {
                            if q < done.len() + j {
                                assert(before.developed_at(b as int, k as int, done + eorig, old_ids, q));
                                assert(before.is_mirror(b as int, k + q));
                                assert(self.stored_of(before.mirror(b as int, k + q)) == before.stored_of(before.mirror(b as int, k + q)));
                                assert(ids@[q] == old_ids[q]);
                                assert(self.beings@[b as int].entities@.subrange(0, before.beings@[b as int].entities@.len() as int)[k + q] == before.mirror(b as int, k + q));
                                assert(self.mirror(b as int, k + q) == before.mirror(b as int, k + q));
                            } else {
                                assert(self.beings@[b as int].entities@.last() == self.mirror(b as int, k + q));
                            }
                        }
                    }
                    assert(self.beings@[b as int].entities@.subrange(0, k as int) =~= pre.beings@[b as int].entities@) by {
                        assert forall|q: int| 0 <= q < k implies self.beings@[b as int].entities@[q] == pre.beings@[b as int].entities@[q] by {
                            assert(self.beings@[b as int].entities@.subrange(0, before.beings@[b as int].entities@.len() as int)[q] == before.beings@[b as int].entities@[q]);
                            assert(before.beings@[b as int].entities@.subrange(0, k as int)[q] == pre.beings@[b as int].entities@[q]);
                        }
                    }
                }
                j = j + 1;
            }
            proof {
                assert(flat_entities(orig.take(i as int + 1)) == done + eorig);
                assert(self.developed(b as int, k as int, flat_entities(orig.take(i as int + 1)), ids@, flat_entities(orig.take(i as int + 1)).len() as int));
            }
            i = i + 1;
        }
        proof {
            assert(orig.take(n as int) =~= orig);
            let fl = flat_entities(ascended_beings@);
            assert(self.developed(b as int, k as int, fl, ids@, fl.len() as int));
        }
        Ok(ids)
    }

    /// A copy of root `id`.
    pub fn get_being(&self, id: Uid) -> (r: Result<Being, StoreError>)
        requires
            self.wf(),
        ensures
            match r {
                Ok(b) => {
                    let o = self.beings@[self.being_position(id@)];
                    &&& self.has_being_spec(id@)
                    &&& b.id == o.id
                    &&& b.name == o.name
                    &&& b.entities@.len() == o.entities@.len()
                    &&& forall|i: int| 0 <= i < o.entities@.len() ==> {
                        let (x, y) = (#[trigger] b.entities@[i], o.entities@[i]);
                        &&& x.location == y.location
                        &&& x.id == y.id
                        &&& x.name == y.name
                        &&& x.properties@ == y.properties@
                    }
                },
                Err(e) => e == StoreError::NotFound && !self.has_being_spec(id@),
            },
    {
        match self.find_being(&id) {
            Some(i) => {
                proof {
                    assert(self.being_ids()[i as int] == id@);
                }
                Ok(self.beings[i].clone())
            },
            None => Err(StoreError::NotFound),
        }
    }
}

} // verus!

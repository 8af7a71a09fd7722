use crate::error::StoreError;
use crate::uid::Uid;
use vstd::prelude::*;

verus! {

/// The property-type enumeration: each value names the table it belongs in.
pub trait EnumIndex: Sized {
    /// The discriminant index of this value's variant.
    fn index(&self) -> usize;

    /// How many variants the enumeration declares.
    fn variant_count() -> usize;
}

/// A stored property: its display name and typed value.
pub struct Component<T> {
    pub name: String,
    pub data: T,
}

impl<T: Clone> Clone for Component<T> {
    fn clone(&self) -> (r: Self)
        ensures
            r.name == self.name,
            cloned::<T>(self.data, r.data),
    {
        Component { name: self.name.clone(), data: self.data.clone() }
    }
}

/// An entity record: its display name and the ordered list of
/// (table index, property id) pairs that locate its properties.
pub struct Entity {
    pub location: Vec<(usize, Uid)>,
    pub name: String,
}

/// A partition: an entity registry and one property table per variant.
/// The registry and the tables are keyed lists with unique ids (an
/// invariant), kept in insertion order; a table copy lists its entries in
/// that order.
pub struct World<T> {
    pub id: Uid,
    pub entities: Vec<(Uid, Entity)>,
    pub components: Vec<Vec<(Uid, Component<T>)>>,
}

/// The ids of a sequence of keyed entries.
pub open spec fn keys_of<V>(s: Seq<(Uid, V)>) -> Seq<Seq<char>> {
    s.map_values(|e: (Uid, V)| e.0@)
}

/// The property ids of a location list.
pub open spec fn loc_ids(l: Seq<(usize, Uid)>) -> Seq<Seq<char>> {
    l.map_values(|p: (usize, Uid)| p.1@)
}

/// `new` is `old` with the entry at `i` taken out.
pub proof fn lemma_keys_remove<V>(s: Seq<(Uid, V)>, i: int)
    requires
        0 <= i < s.len(),
    ensures
        keys_of(s.remove(i)) == keys_of(s).remove(i),
        forall|k: Seq<char>| keys_of(s).contains(k) && k != s[i].0@ ==> keys_of(s.remove(i)).contains(k),
        forall|k: Seq<char>| keys_of(s.remove(i)).contains(k) ==> keys_of(s).contains(k),
{
    assert(keys_of(s.remove(i)) =~= keys_of(s).remove(i));
    assert forall|k: Seq<char>| keys_of(s).contains(k) && k != s[i].0@ implies keys_of(s.remove(i)).contains(k) by {
        let j = choose|j: int| 0 <= j < keys_of(s).len() && keys_of(s)[j] == k;
        if j < i {
            assert(keys_of(s.remove(i))[j] == k);
        } else {
            assert(keys_of(s.remove(i))[j - 1] == k);
        }
    }
    assert forall|k: Seq<char>| keys_of(s.remove(i)).contains(k) implies keys_of(s).contains(k) by {
        let j = choose|j: int| 0 <= j < keys_of(s.remove(i)).len() && keys_of(s.remove(i))[j] == k;
        if j < i {
            assert(keys_of(s)[j] == k);
        } else {
            assert(keys_of(s)[j + 1] == k);
        }
    }
}

/// Location-list counterpart of `lemma_keys_remove`.
pub proof fn lemma_locs_remove(s: Seq<(usize, Uid)>, i: int)
    requires
        0 <= i < s.len(),
    ensures
        loc_ids(s.remove(i)) == loc_ids(s).remove(i),
        forall|k: Seq<char>| loc_ids(s.remove(i)).contains(k) ==> loc_ids(s).contains(k),
{
    assert(loc_ids(s.remove(i)) =~= loc_ids(s).remove(i));
    assert forall|k: Seq<char>| loc_ids(s.remove(i)).contains(k) implies loc_ids(s).contains(k) by {
        let j = choose|j: int| 0 <= j < loc_ids(s.remove(i)).len() && loc_ids(s.remove(i))[j] == k;
        if j < i {
            assert(loc_ids(s)[j] == k);
        } else {
            assert(loc_ids(s)[j + 1] == k);
        }
    }
}

/// Within `c`, a property id is held at most once, by at most one table.
pub open spec fn tables_wf<T>(c: Seq<Vec<(Uid, Component<T>)>>) -> bool {
    &&& forall|t: int| 0 <= t < c.len() ==> (#[trigger] keys_of(c[t]@)).no_duplicates()
    &&& forall|t1: int, t2: int, k: Seq<char>|
        0 <= t1 < c.len() && 0 <= t2 < c.len() && t1 != t2 && #[trigger] keys_of(c[t1]@).contains(k)
            ==> !(#[trigger] keys_of(c[t2]@)).contains(k)
}

impl<T> World<T> {
    /// The entity ids, in registry order.
    pub open spec fn entity_ids(&self) -> Seq<Seq<char>> {
        keys_of(self.entities@)
    }

    /// The property ids held by table `t`.
    pub open spec fn table_ids(&self, t: int) -> Seq<Seq<char>> {
        keys_of(self.components@[t]@)
    }

    pub open spec fn has_entity_spec(&self, k: Seq<char>) -> bool {
        self.entity_ids().contains(k)
    }

    /// Whether some table holds property id `k`.
    pub open spec fn has_component_spec(&self, k: Seq<char>) -> bool {
        exists|t: int| 0 <= t < self.components@.len() && (#[trigger] self.table_ids(t)).contains(k)
    }

    /// The location list of the entity at registry position `e`.
    pub open spec fn locs(&self, e: int) -> Seq<(usize, Uid)> {
        self.entities@[e].1.location@
    }

    /// Whether some entity's location list references property id `k`.
    pub open spec fn referenced(&self, k: Seq<char>) -> bool {
        exists|e: int| 0 <= e < self.entities@.len() && loc_ids(#[trigger] self.locs(e)).contains(k)
    }

    /// Entity ids are unique.
    pub open spec fn wf_entities(&self) -> bool {
        self.entity_ids().no_duplicates()
    }

    /// A property id is held at most once, by at most one table.
    pub open spec fn wf_tables(&self) -> bool {
        tables_wf(self.components@)
    }

    /// Every location pair points into the table it names.
    pub open spec fn wf_locations(&self) -> bool {
        forall|e: int, j: int|
            0 <= e < self.entities@.len() && 0 <= j < self.locs(e).len() ==> {
                let p = #[trigger] self.locs(e)[j];
                &&& p.0 < self.components@.len()
                &&& self.table_ids(p.0 as int).contains(p.1@)
            }
    }

    /// A property id is located by at most one entity, at most once.
    pub open spec fn wf_owners(&self) -> bool {
        &&& forall|e: int| 0 <= e < self.entities@.len() ==> loc_ids(#[trigger] self.locs(e)).no_duplicates()
        &&& forall|e1: int, e2: int, k: Seq<char>|
            0 <= e1 < self.entities@.len() && 0 <= e2 < self.entities@.len() && e1 != e2
                && #[trigger] loc_ids(self.locs(e1)).contains(k) ==> !(#[trigger] loc_ids(self.locs(e2))).contains(k)
    }

    /// Position in table `t` of the entry with id `k` (meaningful when present).
    pub open spec fn position(&self, t: int, k: Seq<char>) -> int {
        choose|i: int| 0 <= i < self.table_ids(t).len() && self.table_ids(t)[i] == k
    }

    /// The stored entry of table `t` with id `k` (meaningful when present).
    pub open spec fn lookup(&self, t: int, k: Seq<char>) -> Component<T> {
        self.components@[t]@[self.position(t, k)].1
    }

    /// Registry position of entity `k` (meaningful when present).
    pub open spec fn entity_position(&self, k: Seq<char>) -> int {
        choose|i: int| 0 <= i < self.entity_ids().len() && self.entity_ids()[i] == k
    }

    /// Position of property `k` in the location list of the entity at `e`
    /// (meaningful when present).
    pub open spec fn loc_position(&self, e: int, k: Seq<char>) -> int {
        choose|j: int| 0 <= j < loc_ids(self.locs(e)).len() && loc_ids(self.locs(e))[j] == k
    }

    /// `post` differs from `self` only in the location list of the entity at
    /// `e`, which is `l` there.
    pub open spec fn relocated(&self, post: &Self, e: int, l: Seq<(usize, Uid)>) -> bool {
        &&& post.id == self.id
        &&& post.entities@.len() == self.entities@.len()
        &&& forall|i: int| 0 <= i < self.entities@.len() && i != e ==> #[trigger] post.entities@[i] == self.entities@[i]
        &&& post.entities@[e].0 == self.entities@[e].0
        &&& post.entities@[e].1.name == self.entities@[e].1.name
        &&& post.locs(e) == l
    }

    /// `post`'s tables are `self`'s with the entry of id `k` taken out of
    /// whichever table held it.
    pub open spec fn tables_without(&self, post: &Self, k: Seq<char>) -> bool {
        &&& post.components@.len() == self.components@.len()
        &&& forall|t: int| 0 <= t < self.components@.len() ==>
            if self.table_ids(t).contains(k) {
                (#[trigger] post.components@[t])@ == self.components@[t]@.remove(self.position(t, k))
            } else {
                post.components@[t] == self.components@[t]
            }
    }

    /// `post`'s tables are `self`'s with `x` appended to table `t`.
    pub open spec fn tables_with(&self, post: &Self, t: int, x: (Uid, Component<T>)) -> bool {
        &&& post.components@.len() == self.components@.len()
        &&& forall|u: int| 0 <= u < self.components@.len() && u != t ==> #[trigger] post.components@[u] == self.components@[u]
        &&& post.components@[t]@ == self.components@[t]@.push(x)
    }

    /// The location list of entity `k` (meaningful when present).
    pub open spec fn locs_of(&self, k: Seq<char>) -> Seq<(usize, Uid)> {
        self.locs(self.entity_position(k))
    }

    /// Every entity of `self` other than `gone` is still in `post`, with the
    /// same location list.
    pub open spec fn keeps_entities_except(&self, post: &Self, gone: Seq<char>) -> bool {
        forall|k: Seq<char>| k != gone && #[trigger] self.has_entity_spec(k) ==> post.has_entity_spec(k) && post.locs_of(k) == self.locs_of(k)
    }

    /// `post` is `self` with the value of property `k`, held by table `t`,
    /// replaced by `data`; its id, name and position are kept and nothing
    /// else changes.
    pub open spec fn value_replaced(&self, post: &Self, t: int, k: Seq<char>, data: T) -> bool {
        let i = self.position(t, k);
        let x = self.components@[t]@[i];
        &&& 0 <= t < self.components@.len()
        &&& self.table_ids(t).contains(k)
        &&& post.entities == self.entities
        &&& post.id == self.id
        &&& post.components@ == self.components@.update(t, post.components@[t])
        &&& post.components@[t]@ == self.components@[t]@.update(i, (x.0, Component { name: x.1.name, data }))
    }

    /// The partition's invariant.
    pub open spec fn wf(&self) -> bool {
        &&& self.wf_entities()
        &&& self.wf_tables()
        &&& self.wf_locations()
        &&& self.wf_owners()
    }
}

impl<T: EnumIndex + Clone> World<T> {
    /// A partition with `variant_count` empty tables and no entities.
    pub fn new(variant_count: usize) -> (r: Self)
        ensures
            r.wf(),
            r.components@.len() == variant_count,
            forall|t: int| 0 <= t < variant_count ==> (#[trigger] r.components@[t])@.len() == 0,
            r.entities@.len() == 0,
    {
        let mut components: Vec<Vec<(Uid, Component<T>)>> = Vec::new();
        let mut i: usize = 0;
        while i < variant_count
            invariant
                i <= variant_count,
                components@.len() == i,
                forall|t: int| 0 <= t < i ==> (#[trigger] components@[t])@.len() == 0,
            decreases variant_count - i,
        {
            components.push(Vec::new());
            i = i + 1;
        }
        let r = World { id: Uid::new(), entities: Vec::new(), components };
        proof {
            assert forall|t: int| 0 <= t < r.components@.len() implies (#[trigger] r.table_ids(t)).len() == 0 by {}
        }
        r
    }

    /// Whether some table holds `component_id`.
    pub fn has_component(&self, component_id: Uid) -> (r: bool)
        ensures
            r == self.has_component_spec(component_id@),
    {
        match self.find_component(&component_id) {
            Some((t, i)) => {
                proof {
                    assert(self.table_ids(t as int)[i as int] == component_id@);
                }
                true
            },
            None => false,
        }
    }

    /// Whether the registry holds `entity_id`.
    pub fn has_entity(&self, entity_id: Uid) -> (r: bool)
        ensures
            r == self.has_entity_spec(entity_id@),
    {
        match self.find_entity(&entity_id) {
            Some(i) => {
                proof {
                    assert(self.entity_ids()[i as int] == entity_id@);
                }
                true
            },
            None => false,
        }
    }

    /// The number of live entities.
    pub fn entities_count(&self) -> (r: usize)
        ensures
            r == self.entities@.len(),
    {
        self.entities.len()
    }

    /// The registry position of `id`, if present.
    pub fn find_entity(&self, id: &Uid) -> (r: Option<usize>)
        ensures
            match r {
                Some(i) => i < self.entities@.len() && self.entities@[i as int].0@ == id@,
                None => !self.has_entity_spec(id@),
            },
    {
        let mut i: usize = 0;
        while i < self.entities.len()
            invariant
                i <= self.entities@.len(),
                forall|j: int| 0 <= j < i ==> self.entity_ids()[j] != id@,
            decreases self.entities@.len() - i,
        {
            if self.entities[i].0 == *id {
                return Some(i);
            }
            i = i + 1;
        }
        None
    }

    /// The (table, position) of property `id`, if some table holds it.
    pub fn find_component(&self, id: &Uid) -> (r: Option<(usize, usize)>)
        ensures
            match r {
                Some((t, i)) => t < self.components@.len() && i < self.components@[t as int]@.len()
                    && self.components@[t as int]@[i as int].0@ == id@,
                None => !self.has_component_spec(id@),
            },
    {
        let mut t: usize = 0;
        while t < self.components.len()
            invariant
                t <= self.components@.len(),
                forall|u: int| 0 <= u < t ==> !(#[trigger] self.table_ids(u)).contains(id@),
            decreases self.components@.len() - t,
        {
            let mut i: usize = 0;
            while i < self.components[t].len()
                invariant
                    t < self.components@.len(),
                    i <= self.components@[t as int]@.len(),
                    forall|j: int| 0 <= j < i ==> self.table_ids(t as int)[j] != id@,
                decreases self.components@[t as int]@.len() - i,
            {
                if self.components[t][i].0 == *id {
                    return Some((t, i));
                }
                i = i + 1;
            }
            t = t + 1;
        }
        None
    }

    /// The position of property `id` in the location list of the entity at `e`.
    fn find_location(&self, e: usize, id: &Uid) -> (r: Option<usize>)
        requires
            e < self.entities@.len(),
        ensures
            match r {
                Some(j) => j < self.locs(e as int).len() && self.locs(e as int)[j as int].1@ == id@,
                None => !loc_ids(self.locs(e as int)).contains(id@),
            },
    {
        let mut j: usize = 0;
        while j < self.entities[e].1.location.len()
            invariant
                e < self.entities@.len(),
                j <= self.locs(e as int).len(),
                forall|k: int| 0 <= k < j ==> loc_ids(self.locs(e as int))[k] != id@,
            decreases self.locs(e as int).len() - j,
        {
            if self.entities[e].1.location[j].1 == *id {
                return Some(j);
            }
            j = j + 1;
        }
        None
    }

    /// All entity ids, in registry order.
    pub(crate) fn entity_id_list(&self) -> (r: Vec<Uid>)
        ensures
            forall|k: Seq<char>| self.has_entity_spec(k) ==> exists|i: int| 0 <= i < r@.len() && r@[i]@ == k,
    {
        let mut r: Vec<Uid> = Vec::new();
        let mut i: usize = 0;
        while i < self.entities.len()
            invariant
                i <= self.entities@.len(),
                r@.len() == i,
                forall|j: int| 0 <= j < i ==> r@[j]@ == self.entity_ids()[j],
            decreases self.entities@.len() - i,
        {
            r.push(self.entities[i].0.clone());
            i = i + 1;
        }
        proof {
            assert forall|k: Seq<char>| self.has_entity_spec(k) implies exists|i: int| 0 <= i < r@.len() && r@[i]@ == k by {
                let j = choose|j: int| 0 <= j < self.entity_ids().len() && self.entity_ids()[j] == k;
                assert(r@[j]@ == k);
            }
        }
        r
    }

    /// All property ids, table by table.
    fn component_id_list(&self) -> (r: Vec<Uid>)
        ensures
            forall|k: Seq<char>| self.has_component_spec(k) ==> exists|i: int| 0 <= i < r@.len() && r@[i]@ == k,
    {
        let mut r: Vec<Uid> = Vec::new();
        let mut t: usize = 0;
        while t < self.components.len()
            invariant
                t <= self.components@.len(),
                forall|u: int, k: Seq<char>| 0 <= u < t && #[trigger] self.table_ids(u).contains(k)
                    ==> exists|i: int| 0 <= i < r@.len() && r@[i]@ == k,
            decreases self.components@.len() - t,
        {
            let ghost before = r@;
            let mut i: usize = 0;
            while i < self.components[t].len()
                invariant
                    t < self.components@.len(),
                    i <= self.components@[t as int]@.len(),
                    r@.len() == before.len() + i,
                    forall|j: int| 0 <= j < before.len() ==> r@[j] == before[j],
                    forall|j: int| 0 <= j < i ==> r@[before.len() + j]@ == self.table_ids(t as int)[j],
                decreases self.components@[t as int]@.len() - i,
            {
                r.push(self.components[t][i].0.clone());
                i = i + 1;
            }
            proof {
                assert forall|u: int, k: Seq<char>| 0 <= u < t + 1 && #[trigger] self.table_ids(u).contains(k)
                    implies exists|i: int| 0 <= i < r@.len() && r@[i]@ == k by {
                    if u < t {
                        let i0 = choose|i: int| 0 <= i < before.len() && before[i]@ == k;
                        assert(r@[i0]@ == k);
                    } else {
                        let j = choose|j: int| 0 <= j < self.table_ids(u).len() && self.table_ids(u)[j] == k;
                        assert(r@[before.len() + j]@ == k);
                    }
                }
            }
            t = t + 1;
        }
        r
    }

    /// A fresh id, held by no entity of this partition.
    fn fresh_entity_id(&self) -> (r: Uid)
        ensures
            !self.has_entity_spec(r@),
    {
        let taken = self.entity_id_list();
        Uid::new().avoiding(&taken)
    }

    /// A fresh id, held by no table of this partition.
    fn fresh_component_id(&self) -> (r: Uid)
        ensures
            !self.has_component_spec(r@),
    {
        let taken = self.component_id_list();
        Uid::new().avoiding(&taken)
    }
}

/// `post` is `pre` with entity `id`, new to it, appended to the registry;
/// the tables are untouched.
pub open spec fn entity_created<T>(pre: World<T>, post: World<T>, id: Seq<char>) -> bool {
    &&& !pre.has_entity_spec(id)
    &&& post.entity_ids() == pre.entity_ids().push(id)
    &&& post.components == pre.components
}

/// `post` is `pre` with property `id`, new to it, held by some table; the
/// registry's ids and every property already held stay.
pub open spec fn component_created<T>(pre: World<T>, post: World<T>, id: Seq<char>) -> bool {
    &&& !pre.has_component_spec(id)
    &&& post.has_component_spec(id)
    &&& post.entity_ids() == pre.entity_ids()
    &&& forall|k: Seq<char>| #[trigger] pre.has_component_spec(k) ==> post.has_component_spec(k)
}

/// `e` is a fresh record for entity `id` named `name`, with no properties.
pub open spec fn is_blank(e: (Uid, Entity), id: Seq<char>, name: Seq<char>) -> bool {
    &&& e.0@ == id
    &&& e.1.name@ == name
    &&& e.1.location@.len() == 0
}

/// The position of a present entity is the one that holds its id.
pub proof fn lemma_entity_position<T>(w: World<T>, i: int)
    requires
        w.wf_entities(),
        0 <= i < w.entities@.len(),
    ensures
        w.entity_position(w.entities@[i].0@) == i,
        w.has_entity_spec(w.entities@[i].0@),
        w.locs_of(w.entities@[i].0@) == w.locs(i),
{
    let k = w.entities@[i].0@;
    assert(w.entity_ids()[i] == k);
    let q = w.entity_position(k);
    assert(w.entity_ids()[q] == k);
}

/// Changing one entity's location list keeps every other entity as it was.
pub proof fn lemma_relocated_keeps<T>(pre: World<T>, post: World<T>, e: int, l: Seq<(usize, Uid)>)
    requires
        pre.wf_entities(),
        0 <= e < pre.entities@.len(),
        pre.relocated(&post, e, l),
    ensures
        post.entity_ids() == pre.entity_ids(),
        post.wf_entities(),
        pre.keeps_entities_except(&post, pre.entities@[e].0@),
        post.has_entity_spec(pre.entities@[e].0@),
        post.locs_of(pre.entities@[e].0@) == l,
{
    assert(post.entity_ids() =~= pre.entity_ids()) by {
        assert forall|i: int| 0 <= i < pre.entities@.len() implies post.entity_ids()[i] == pre.entity_ids()[i] by {
            if i != e {
                assert(post.entities@[i] == pre.entities@[i]);
            }
        }
    }
    lemma_entity_position(post, e);
    assert forall|k: Seq<char>| k != pre.entities@[e].0@ && #[trigger] pre.has_entity_spec(k)
        implies post.has_entity_spec(k) && post.locs_of(k) == pre.locs_of(k) by {
        let i = choose|i: int| 0 <= i < pre.entity_ids().len() && pre.entity_ids()[i] == k;
        lemma_entity_position(pre, i);
        lemma_entity_position(post, i);
        assert(post.entities@[i] == pre.entities@[i]);
    }
}

/// Dropping one entity record keeps every other entity as it was.
pub proof fn lemma_removed_keeps<T>(pre: World<T>, post: World<T>, e: int)
    requires
        pre.wf_entities(),
        0 <= e < pre.entities@.len(),
        post.entities@ == pre.entities@.remove(e),
    ensures
        pre.keeps_entities_except(&post, pre.entities@[e].0@),
        !post.has_entity_spec(pre.entities@[e].0@),
{
    lemma_keys_remove(pre.entities@, e);
    assert(post.wf_entities());
    assert forall|k: Seq<char>| k != pre.entities@[e].0@ && #[trigger] pre.has_entity_spec(k)
        implies post.has_entity_spec(k) && post.locs_of(k) == pre.locs_of(k) by {
        let i = choose|i: int| 0 <= i < pre.entity_ids().len() && pre.entity_ids()[i] == k;
        lemma_entity_position(pre, i);
        let i2 = if i < e { i } else { i - 1 };
        assert(i != e);
        assert(post.entities@[i2] == pre.entities@[i]);
        lemma_entity_position(post, i2);
    }
    assert(!post.has_entity_spec(pre.entities@[e].0@)) by {
        let k = pre.entities@[e].0@;
        if post.has_entity_spec(k) {
            let i = choose|i: int| 0 <= i < post.entity_ids().len() && post.entity_ids()[i] == k;
            let i0 = if i < e { i } else { i + 1 };
            assert(pre.entity_ids()[i0] == k);
            assert(pre.entity_ids()[e] == k);
        }
    }
}

/// Appending an entity record under a new id keeps every entity as it was.
pub proof fn lemma_pushed_keeps<T>(pre: World<T>, post: World<T>, x: (Uid, Entity))
    requires
        pre.wf_entities(),
        !pre.has_entity_spec(x.0@),
        post.entities@ == pre.entities@.push(x),
    ensures
        pre.keeps_entities_except(&post, x.0@),
        post.has_entity_spec(x.0@),
        post.locs_of(x.0@) == x.1.location@,
        forall|k: Seq<char>| post.has_entity_spec(k) ==> k == x.0@ || pre.has_entity_spec(k),
{
    assert(post.entity_ids() =~= pre.entity_ids().push(x.0@));
    assert(post.wf_entities());
    lemma_entity_position(post, pre.entities@.len() as int);
    assert forall|k: Seq<char>| k != x.0@ && #[trigger] pre.has_entity_spec(k)
        implies post.has_entity_spec(k) && post.locs_of(k) == pre.locs_of(k) by {
        let i = choose|i: int| 0 <= i < pre.entity_ids().len() && pre.entity_ids()[i] == k;
        lemma_entity_position(pre, i);
        assert(post.entities@[i] == pre.entities@[i]);
        lemma_entity_position(post, i);
    }
    assert forall|k: Seq<char>| post.has_entity_spec(k) implies k == x.0@ || pre.has_entity_spec(k) by {
        let i = choose|i: int| 0 <= i < post.entity_ids().len() && post.entity_ids()[i] == k;
        if i < pre.entities@.len() {
            assert(pre.entity_ids()[i] == k);
        }
    }
}

/// The entry of a present id is the one at the position holding it.
pub proof fn lemma_lookup_at<T>(w: World<T>, t: int, i: int)
    requires
        0 <= t < w.components@.len(),
        0 <= i < w.components@[t]@.len(),
        w.table_ids(t).no_duplicates(),
    ensures
        w.position(t, w.components@[t]@[i].0@) == i,
        w.lookup(t, w.components@[t]@[i].0@) == w.components@[t]@[i].1,
        w.table_ids(t).contains(w.components@[t]@[i].0@),
{
    let k = w.components@[t]@[i].0@;
    assert(w.table_ids(t)[i] == k);
    let q = w.position(t, k);
    assert(w.table_ids(t)[q] == k);
}

/// Entries of table `t` other than `k` keep their values when `post`'s
/// table is `pre`'s with one entry removed or one appended.
pub proof fn lemma_lookup_kept<T>(pre: World<T>, post: World<T>, t: int, k: Seq<char>)
    requires
        0 <= t < pre.components@.len(),
        0 <= t < post.components@.len(),
        pre.table_ids(t).no_duplicates(),
        post.table_ids(t).no_duplicates(),
        pre.table_ids(t).contains(k),
        ({
            let a = pre.components@[t]@;
            let c = post.components@[t]@;
            ||| c == a
            ||| exists|i: int| 0 <= i < a.len() && a[i].0@ != k && c == a.remove(i)
            ||| exists|x: (Uid, Component<T>)| x.0@ != k && c == a.push(x)
            ||| exists|i: int, x: (Uid, Component<T>)| 0 <= i < a.len() && a[i].0@ != k && c == a.update(i, x)
        }),
    ensures
        post.table_ids(t).contains(k),
        post.lookup(t, k) == pre.lookup(t, k),
{
    let a = pre.components@[t]@;
    let c = post.components@[t]@;
    let i0 = pre.position(t, k);
    lemma_lookup_at(pre, t, i0);
    assert(pre.table_ids(t)[pre.position(t, k)] == k) by {
        let j = choose|j: int| 0 <= j < pre.table_ids(t).len() && pre.table_ids(t)[j] == k;
    }
    if c == a {
        lemma_lookup_at(post, t, i0);
    } else if exists|i: int| 0 <= i < a.len() && a[i].0@ != k && c == a.remove(i) {
        let i = choose|i: int| 0 <= i < a.len() && a[i].0@ != k && c == a.remove(i);
        let i1 = if i0 < i { i0 } else { i0 - 1 };
        assert(i0 != i);
        assert(c[i1] == a[i0]);
        lemma_lookup_at(post, t, i1);
    } else if exists|x: (Uid, Component<T>)| x.0@ != k && c == a.push(x) {
        let x = choose|x: (Uid, Component<T>)| x.0@ != k && c == a.push(x);
        assert(c[i0] == a[i0]);
        lemma_lookup_at(post, t, i0);
    } else {
        let (i, x) = choose|i: int, x: (Uid, Component<T>)| 0 <= i < a.len() && a[i].0@ != k && c == a.update(i, x);
        assert(i0 != i);
        assert(c[i0] == a[i0]);
        lemma_lookup_at(post, t, i0);
    }
}

/// Moving the entry that location pair `(e, j)` names to the end of table
/// `index`, and pointing the pair there, keeps the invariant and every other
/// entry.
proof fn lemma_move_entry<T>(pre: World<T>, post: World<T>, e: int, j: int, i_old: int, index: int, x: (Uid, Component<T>))
    requires
        pre.wf(),
        0 <= e < pre.entities@.len(),
        0 <= j < pre.locs(e).len(),
        0 <= index < pre.components@.len(),
        index <= usize::MAX,
        index != pre.locs(e)[j].0 as int,
        0 <= i_old < pre.components@[pre.locs(e)[j].0 as int]@.len(),
        pre.components@[pre.locs(e)[j].0 as int]@[i_old].0@ == pre.locs(e)[j].1@,
        x.0@ == pre.locs(e)[j].1@,
        post.id == pre.id,
        post.components@.len() == pre.components@.len(),
        post.components@[pre.locs(e)[j].0 as int]@ == pre.components@[pre.locs(e)[j].0 as int]@.remove(i_old),
        post.components@[index]@ == pre.components@[index]@.push(x),
        forall|u: int| 0 <= u < pre.components@.len() && u != index && u != pre.locs(e)[j].0 ==> #[trigger] post.components@[u] == pre.components@[u],
        pre.relocated(&post, e, pre.locs(e).update(j, (index as usize, x.0))),
    ensures
        post.wf(),
        post.table_ids(index).contains(x.0@),
        post.lookup(index, x.0@) == x.1,
        forall|t: int, k: Seq<char>| 0 <= t < pre.components@.len() && k != x.0@ ==>
            (#[trigger] post.table_ids(t).contains(k) <==> pre.table_ids(t).contains(k)),
        forall|t: int, k: Seq<char>| 0 <= t < pre.components@.len() && k != x.0@
            && #[trigger] pre.table_ids(t).contains(k) ==> post.lookup(t, k) == pre.lookup(t, k),
{
    let k0 = x.0@;
    let to = pre.locs(e)[j].0 as int;
    lemma_relocated_keeps(pre, post, e, pre.locs(e).update(j, (index as usize, x.0)));
    lemma_keys_remove(pre.components@[to]@, i_old);
    assert(pre.table_ids(to)[i_old] == k0);
    assert(pre.table_ids(to).contains(k0));
    assert(forall|u: int| 0 <= u < pre.components@.len() && u != to ==> !pre.table_ids(u).contains(k0));
    assert(keys_of(post.components@[index]@) =~= keys_of(pre.components@[index]@).push(k0));
    assert(!keys_of(post.components@[to]@).contains(k0)) by {
        if keys_of(post.components@[to]@).contains(k0) {
            let q = choose|q: int| 0 <= q < keys_of(post.components@[to]@).len() && keys_of(post.components@[to]@)[q] == k0;
            if q < i_old {
                assert(pre.table_ids(to)[q] == k0);
            } else {
                assert(pre.table_ids(to)[q + 1] == k0);
            }
        }
    }
    assert forall|t: int, k: Seq<char>| 0 <= t < pre.components@.len() && k != k0 implies
        (#[trigger] post.table_ids(t).contains(k) <==> pre.table_ids(t).contains(k)) by {
        if t == index {
            if post.table_ids(t).contains(k) {
                let q = choose|q: int| 0 <= q < post.table_ids(t).len() && post.table_ids(t)[q] == k;
                assert(pre.table_ids(t)[q] == k);
            }
            if pre.table_ids(t).contains(k) {
                let q = choose|q: int| 0 <= q < pre.table_ids(t).len() && pre.table_ids(t)[q] == k;
                assert(post.table_ids(t)[q] == k);
            }
        } else if t != to {
            assert(post.components@[t] == pre.components@[t]);
        }
    }
    assert forall|t: int, k: Seq<char>| 0 <= t < pre.components@.len() && k != k0
        && #[trigger] pre.table_ids(t).contains(k) implies post.lookup(t, k) == pre.lookup(t, k) by {
        if t != index && t != to {
            assert(post.components@[t] == pre.components@[t]);
        }
        if t == to {
            assert(pre.components@[to]@[i_old].0@ != k);
        }
        assert(post.table_ids(t).no_duplicates()) by {
            if t == index {
                assert(!pre.table_ids(index).contains(k0));
            } else if t != to {
                assert(post.components@[t] == pre.components@[t]);
            }
        }
        lemma_lookup_kept(pre, post, t, k);
    }
    assert(post.wf_tables()) by {
        assert forall|u: int| 0 <= u < post.components@.len() implies (#[trigger] keys_of(post.components@[u]@)).no_duplicates() by {
            if u == index {
                assert(!pre.table_ids(index).contains(k0));
            } else if u != to {
                assert(post.components@[u] == pre.components@[u]);
            }
        }
        assert forall|t1: int, t2: int, k: Seq<char>|
            0 <= t1 < post.components@.len() && 0 <= t2 < post.components@.len() && t1 != t2 && #[trigger] keys_of(post.components@[t1]@).contains(k)
                implies !(#[trigger] keys_of(post.components@[t2]@)).contains(k) by {
            if k == k0 {
                if t1 != index {
                    if t1 != to {
                        assert(post.components@[t1] == pre.components@[t1]);
                    }
                } else if t2 != to {
                    assert(post.components@[t2] == pre.components@[t2]);
                }
            } else {
                assert(post.table_ids(t1).contains(k) == pre.table_ids(t1).contains(k));
                assert(post.table_ids(t2).contains(k) == pre.table_ids(t2).contains(k));
            }
        }
    }
    let n = pre.components@[index]@.len() as int;
    assert(post.components@[index]@[n] == x);
    lemma_lookup_at(post, index, n);
    assert forall|e2: int| 0 <= e2 < pre.entities@.len() implies loc_ids(#[trigger] post.locs(e2)) == loc_ids(pre.locs(e2)) by {
        if e2 == e {
            assert(loc_ids(post.locs(e)) =~= loc_ids(pre.locs(e)));
        } else {
            assert(post.entities@[e2] == pre.entities@[e2]);
        }
    }
    assert(post.wf_locations()) by {
        assert forall|e2: int, j2: int| 0 <= e2 < post.entities@.len() && 0 <= j2 < post.locs(e2).len() implies {
            let p = #[trigger] post.locs(e2)[j2];
            &&& p.0 < post.components@.len()
            &&& post.table_ids(p.0 as int).contains(p.1@)
        } by {
            assert(post.locs(e) == pre.locs(e).update(j, (index as usize, x.0)));
            if e2 == e && j2 == j {
                assert(post.locs(e)[j] == (index as usize, x.0));
                assert(post.table_ids(index).contains(x.0@));
            } else {
                assert(post.locs(e2)[j2] == pre.locs(e2)[j2]) by {
                    if e2 != e {
                        assert(post.entities@[e2] == pre.entities@[e2]);
                    }
                }
                assert(post.locs(e2).len() == pre.locs(e2).len());
                let p = pre.locs(e2)[j2];
                assert(loc_ids(pre.locs(e2))[j2] == p.1@);
                assert(loc_ids(pre.locs(e))[j] == k0);
                assert(p.1@ != k0) by {
                    if e2 == e {
                        assert(loc_ids(pre.locs(e)).no_duplicates());
                    } else {
                        assert(loc_ids(pre.locs(e)).contains(k0));
                    }
                }
                assert(pre.table_ids(p.0 as int).contains(p.1@));
                assert(post.table_ids(p.0 as int).contains(p.1@));
            }
        }
    }
    assert(post.wf_owners());
}

/// Appending a blank record under a fresh id keeps the invariant.
pub proof fn lemma_push_blank<T>(pre: World<T>, post: World<T>, x: (Uid, Entity))
    requires
        pre.wf(),
        post.components == pre.components,
        post.entities@ == pre.entities@.push(x),
        x.1.location@.len() == 0,
        !pre.has_entity_spec(x.0@),
    ensures
        post.wf(),
{
    assert(post.entity_ids() =~= pre.entity_ids().push(x.0@));
    assert forall|e: int| 0 <= e < pre.entities@.len() implies post.locs(e) == pre.locs(e) by {
        assert(post.entities@[e] == pre.entities@[e]);
    }
    assert(loc_ids(post.locs(pre.entities@.len() as int)) =~= Seq::<Seq<char>>::empty());
    assert(post.wf_entities());
    assert(post.wf_tables());
    assert(post.wf_locations());
    assert(post.wf_owners());
}

/// Replacing the record at `i` by a blank one under the same id keeps the invariant.
pub proof fn lemma_set_blank<T>(pre: World<T>, post: World<T>, i: int, x: (Uid, Entity))
    requires
        pre.wf(),
        0 <= i < pre.entities@.len(),
        post.components == pre.components,
        post.entities@ == pre.entities@.update(i, x),
        x.1.location@.len() == 0,
        x.0@ == pre.entities@[i].0@,
    ensures
        post.wf(),
{
    assert(post.entity_ids() =~= pre.entity_ids());
    assert forall|e: int| 0 <= e < pre.entities@.len() && e != i implies post.locs(e) == pre.locs(e) by {
        assert(post.entities@[e] == pre.entities@[e]);
    }
    assert(loc_ids(post.locs(i)) =~= Seq::<Seq<char>>::empty());
    assert(post.wf_entities());
    assert(post.wf_tables());
    assert(post.wf_locations());
    assert(post.wf_owners());
}

/// A property id that no location list references can leave its table.
proof fn lemma_remove_entry<T>(pre: World<T>, post: World<T>, t: int, i: int)
    requires
        pre.wf(),
        0 <= t < pre.components@.len(),
        0 <= i < pre.components@[t]@.len(),
        !pre.referenced(pre.components@[t]@[i].0@),
        post.entities == pre.entities,
        post.id == pre.id,
        post.components@ == pre.components@.update(t, post.components@[t]),
        post.components@[t]@ == pre.components@[t]@.remove(i),
    ensures
        post.wf(),
        !post.has_component_spec(pre.components@[t]@[i].0@),
        pre.tables_without(&post, pre.components@[t]@[i].0@),
        forall|u: int, k: Seq<char>| 0 <= u < post.components@.len() && #[trigger] post.table_ids(u).contains(k) ==> pre.table_ids(u).contains(k),
        forall|u: int, k: Seq<char>| 0 <= u < post.components@.len() && #[trigger] pre.table_ids(u).contains(k) && k != pre.components@[t]@[i].0@ ==> post.table_ids(u).contains(k),
{
    let k = pre.components@[t]@[i].0@;
    lemma_keys_remove(pre.components@[t]@, i);
    assert(post.entity_ids() == pre.entity_ids());
    assert(forall|e: int| 0 <= e < pre.entities@.len() ==> #[trigger] post.locs(e) == pre.locs(e));
    assert(pre.table_ids(t)[i] == k);
    assert(pre.position(t, k) == i) by {
        let p = pre.position(t, k);
        assert(pre.table_ids(t)[p] == k);
    }
    assert forall|u: int, k2: Seq<char>| 0 <= u < post.components@.len() && #[trigger] post.table_ids(u).contains(k2) implies pre.table_ids(u).contains(k2) by {
        if u != t {
            assert(post.components@[u] == pre.components@[u]);
        }
    }
    assert forall|u: int, k2: Seq<char>| 0 <= u < post.components@.len() && #[trigger] pre.table_ids(u).contains(k2) && k2 != k implies post.table_ids(u).contains(k2) by {
        if u != t {
            assert(post.components@[u] == pre.components@[u]);
        }
    }
    assert(keys_of(post.components@[t]@).no_duplicates()) by {
        assert(keys_of(post.components@[t]@) == keys_of(pre.components@[t]@).remove(i));
    }
    assert(post.wf_tables()) by {
        assert forall|u: int| 0 <= u < post.components@.len() implies (#[trigger] keys_of(post.components@[u]@)).no_duplicates() by {
            if u != t {
                assert(post.components@[u] == pre.components@[u]);
            }
        }
    }
    assert(post.wf_locations()) by {
        assert forall|e: int, j: int| 0 <= e < post.entities@.len() && 0 <= j < post.locs(e).len() implies {
            let p = #[trigger] post.locs(e)[j];
            &&& p.0 < post.components@.len()
            &&& post.table_ids(p.0 as int).contains(p.1@)
        } by {
            let p = post.locs(e)[j];
            assert(pre.locs(e)[j] == p);
            assert(loc_ids(pre.locs(e))[j] == p.1@);
            assert(p.1@ != k);
            assert(pre.table_ids(p.0 as int).contains(p.1@));
        }
    }
    assert(!post.has_component_spec(k)) by {
        if post.has_component_spec(k) {
            let u = choose|u: int| 0 <= u < post.components@.len() && (#[trigger] post.table_ids(u)).contains(k);
            if u != t {
                assert(post.components@[u] == pre.components@[u]);
                assert(pre.table_ids(t).contains(k));
            } else {
                let j = choose|j: int| 0 <= j < post.table_ids(t).len() && post.table_ids(t)[j] == k;
                if j < i {
                    assert(pre.table_ids(t)[j] == k);
                } else {
                    assert(pre.table_ids(t)[j + 1] == k);
                }
            }
        }
    }
    assert forall|u: int| 0 <= u < pre.components@.len() && u != t implies !pre.table_ids(u).contains(k) by {
        assert(pre.table_ids(t).contains(k));
    }
}

/// Dropping one location pair keeps the invariant and leaves its property
/// unreferenced.
proof fn lemma_remove_loc<T>(pre: World<T>, post: World<T>, e: int, j: int)
    requires
        pre.wf(),
        0 <= e < pre.entities@.len(),
        0 <= j < pre.locs(e).len(),
        pre.relocated(&post, e, pre.locs(e).remove(j)),
        post.components == pre.components,
    ensures
        post.wf(),
        !post.referenced(pre.locs(e)[j].1@),
{
    let k = pre.locs(e)[j].1@;
    lemma_locs_remove(pre.locs(e), j);
    assert(post.entity_ids() =~= pre.entity_ids()) by {
        assert forall|i: int| 0 <= i < pre.entities@.len() implies post.entity_ids()[i] == pre.entity_ids()[i] by {
            if i != e {
                assert(post.entities@[i] == pre.entities@[i]);
            }
        }
    }
    assert forall|i: int| 0 <= i < pre.entities@.len() && i != e implies #[trigger] post.locs(i) == pre.locs(i) by {
        assert(post.entities@[i] == pre.entities@[i]);
    }
    assert(loc_ids(pre.locs(e))[j] == k);
    assert(post.wf_locations()) by {
        assert forall|e2: int, j2: int| 0 <= e2 < post.entities@.len() && 0 <= j2 < post.locs(e2).len() implies {
            let p = #[trigger] post.locs(e2)[j2];
            &&& p.0 < post.components@.len()
            &&& post.table_ids(p.0 as int).contains(p.1@)
        } by {
            if e2 != e {
                assert(post.locs(e2)[j2] == pre.locs(e2)[j2]);
            } else if j2 < j {
                assert(post.locs(e2)[j2] == pre.locs(e2)[j2]);
            } else {
                assert(post.locs(e2)[j2] == pre.locs(e2)[j2 + 1]);
            }
        }
    }
    assert(post.wf_owners()) by {
        assert forall|e1: int, e2: int, k2: Seq<char>|
            0 <= e1 < post.entities@.len() && 0 <= e2 < post.entities@.len() && e1 != e2
                && #[trigger] loc_ids(post.locs(e1)).contains(k2) implies !(#[trigger] loc_ids(post.locs(e2))).contains(k2) by {
            if loc_ids(post.locs(e1)).contains(k2) {
                assert(loc_ids(pre.locs(e1)).contains(k2));
            }
            if loc_ids(post.locs(e2)).contains(k2) {
                assert(loc_ids(pre.locs(e2)).contains(k2));
            }
        }
        assert forall|e1: int| 0 <= e1 < post.entities@.len() implies loc_ids(#[trigger] post.locs(e1)).no_duplicates() by {
            if e1 == e {
                assert(loc_ids(post.locs(e)) == loc_ids(pre.locs(e)).remove(j));
            }
        }
    }
    assert(!post.referenced(k)) by {
        if post.referenced(k) {
            let e2 = choose|e2: int| 0 <= e2 < post.entities@.len() && loc_ids(#[trigger] post.locs(e2)).contains(k);
            if e2 != e {
                assert(loc_ids(pre.locs(e2)).contains(k));
                assert(loc_ids(pre.locs(e)).contains(k));
            } else {
                let j2 = choose|j2: int| 0 <= j2 < loc_ids(post.locs(e)).len() && loc_ids(post.locs(e))[j2] == k;
                if j2 < j {
                    assert(loc_ids(pre.locs(e))[j2] == k);
                } else {
                    assert(loc_ids(pre.locs(e))[j2 + 1] == k);
                }
            }
        }
    }
}

/// Dropping an entity record keeps the invariant and leaves its properties
/// unreferenced.
proof fn lemma_remove_record<T>(pre: World<T>, post: World<T>, e: int)
    requires
        pre.wf(),
        0 <= e < pre.entities@.len(),
        post.entities@ == pre.entities@.remove(e),
        post.components == pre.components,
    ensures
        post.wf(),
        forall|k: Seq<char>| #[trigger] loc_ids(pre.locs(e)).contains(k) ==> !post.referenced(k),
        forall|k: Seq<char>| post.has_entity_spec(k) ==> pre.has_entity_spec(k),
{
    lemma_keys_remove(pre.entities@, e);
    assert forall|i: int| 0 <= i < post.entities@.len() implies #[trigger] post.locs(i) == pre.locs(if i < e { i } else { i + 1 }) by {}
    assert(post.wf_entities());
    assert(post.wf_locations()) by {
        assert forall|e2: int, j2: int| 0 <= e2 < post.entities@.len() && 0 <= j2 < post.locs(e2).len() implies {
            let p = #[trigger] post.locs(e2)[j2];
            &&& p.0 < post.components@.len()
            &&& post.table_ids(p.0 as int).contains(p.1@)
        } by {
            let o = if e2 < e { e2 } else { e2 + 1 };
            assert(post.locs(e2)[j2] == pre.locs(o)[j2]);
        }
    }
    assert(post.wf_owners()) by {
        assert forall|e1: int, e2: int, k2: Seq<char>|
            0 <= e1 < post.entities@.len() && 0 <= e2 < post.entities@.len() && e1 != e2
                && #[trigger] loc_ids(post.locs(e1)).contains(k2) implies !(#[trigger] loc_ids(post.locs(e2))).contains(k2) by {
            let o1 = if e1 < e { e1 } else { e1 + 1 };
            let o2 = if e2 < e { e2 } else { e2 + 1 };
            assert(post.locs(e1) == pre.locs(o1));
            assert(post.locs(e2) == pre.locs(o2));
        }
        assert forall|e1: int| 0 <= e1 < post.entities@.len() implies loc_ids(#[trigger] post.locs(e1)).no_duplicates() by {
            let o1 = if e1 < e { e1 } else { e1 + 1 };
            assert(post.locs(e1) == pre.locs(o1));
        }
    }
    assert forall|k: Seq<char>| #[trigger] loc_ids(pre.locs(e)).contains(k) implies !post.referenced(k) by {
        if post.referenced(k) {
            let e2 = choose|e2: int| 0 <= e2 < post.entities@.len() && loc_ids(#[trigger] post.locs(e2)).contains(k);
            let o2 = if e2 < e { e2 } else { e2 + 1 };
            assert(post.locs(e2) == pre.locs(o2));
        }
    }
}

impl<T: EnumIndex + Clone> World<T> {
    /// Takes property `id` out of whichever table holds it, if any; no
    /// location list may reference it.
    fn remove_orphan(&mut self, id: &Uid)
        requires
            old(self).wf(),
            !old(self).referenced(id@),
        ensures
            final(self).wf(),
            final(self).entities == old(self).entities,
            final(self).id == old(self).id,
            !final(self).has_component_spec(id@),
            old(self).tables_without(&*final(self), id@),
            forall|u: int, k: Seq<char>| 0 <= u < final(self).components@.len() && #[trigger] final(self).table_ids(u).contains(k) ==> old(self).table_ids(u).contains(k),
            forall|u: int, k: Seq<char>| 0 <= u < final(self).components@.len() && #[trigger] old(self).table_ids(u).contains(k) && k != id@ ==> final(self).table_ids(u).contains(k),
            forall|u: int, k: Seq<char>| 0 <= u < old(self).components@.len() && #[trigger] old(self).table_ids(u).contains(k) && k != id@
                ==> final(self).lookup(u, k) == old(self).lookup(u, k),
    {
        let ghost pre = *self;
        match self.find_component(id) {
            None => {
                proof {
                    assert forall|t: int| 0 <= t < pre.components@.len() implies !pre.table_ids(t).contains(id@) by {}
                }
            },
            Some((t, i)) => {
                self.components[t].remove(i);
                proof {
                    assert(self.components@ =~= pre.components@.update(t as int, self.components@[t as int]));
                    lemma_remove_entry(pre, *self, t as int, i as int);
                    assert forall|u: int, k: Seq<char>| 0 <= u < pre.components@.len() && #[trigger] pre.table_ids(u).contains(k) && k != id@
                        implies self.lookup(u, k) == pre.lookup(u, k) by {
                        if u == t {
                            assert(pre.components@[t as int]@[i as int].0@ != k);
                        }
                        lemma_lookup_kept(pre, *self, u, k);
                    }
                }
            },
        }
    }

    /// Appends `(pid, c)` to table `index` and `(index, pid)` to the location
    /// list of the entity at `e`; `pid` must be new to the partition.
    fn attach_new(&mut self, e: usize, index: usize, pid: Uid, c: Component<T>)
        requires
            old(self).wf(),
            e < old(self).entities@.len(),
            index < old(self).components@.len(),
            !old(self).has_component_spec(pid@),
        ensures
            final(self).wf(),
            old(self).relocated(&*final(self), e as int, old(self).locs(e as int).push((index, pid))),
            old(self).tables_with(&*final(self), index as int, (pid, c)),
    {
        let ghost pre = *self;
        let ghost x = (pid, c);
        self.components[index].push((pid.clone(), c));
        self.entities[e].1.location.push((index, pid.clone()));
        proof {
            assert(self.components@[index as int]@ =~= pre.components@[index as int]@.push(x));
            assert(self.locs(e as int) =~= pre.locs(e as int).push((index, pid)));
            assert(self.entity_ids() =~= pre.entity_ids());
            assert(keys_of(self.components@[index as int]@) =~= keys_of(pre.components@[index as int]@).push(pid@));
            assert(loc_ids(self.locs(e as int)) =~= loc_ids(pre.locs(e as int)).push(pid@));
            assert(!pre.table_ids(index as int).contains(pid@));
            assert forall|u: int, k: Seq<char>| 0 <= u < pre.components@.len() && #[trigger] pre.table_ids(u).contains(k) implies self.table_ids(u).contains(k) by {
                if u != index {
                    assert(self.components@[u] == pre.components@[u]);
                } else {
                    let j = choose|j: int| 0 <= j < pre.table_ids(u).len() && pre.table_ids(u)[j] == k;
                    assert(self.table_ids(u)[j] == k);
                }
            }
            assert(!pre.referenced(pid@)) by {
                if pre.referenced(pid@) {
                    let e2 = choose|e2: int| 0 <= e2 < pre.entities@.len() && loc_ids(#[trigger] pre.locs(e2)).contains(pid@);
                    let j = choose|j: int| 0 <= j < loc_ids(pre.locs(e2)).len() && loc_ids(pre.locs(e2))[j] == pid@;
                    assert(pre.locs(e2)[j].1@ == pid@);
                    assert(pre.table_ids(pre.locs(e2)[j].0 as int).contains(pid@));
                }
            }
            assert(self.wf_tables()) by {
                assert forall|u: int| 0 <= u < self.components@.len() implies (#[trigger] keys_of(self.components@[u]@)).no_duplicates() by {
                    if u != index {
                        assert(self.components@[u] == pre.components@[u]);
                    }
                }
                assert forall|t1: int, t2: int, k: Seq<char>|
                    0 <= t1 < self.components@.len() && 0 <= t2 < self.components@.len() && t1 != t2 && #[trigger] keys_of(self.components@[t1]@).contains(k)
                        implies !(#[trigger] keys_of(self.components@[t2]@)).contains(k) by {
                    if t1 != index {
                        assert(self.components@[t1] == pre.components@[t1]);
                    }
                    if t2 != index {
                        assert(self.components@[t2] == pre.components@[t2]);
                    }
                    if k == pid@ {
                        if t1 != index {
                            assert(pre.table_ids(t1).contains(k));
                        } else if keys_of(self.components@[t2]@).contains(k) {
                            assert(pre.table_ids(t2).contains(k));
                        }
                    }
                }
            }
            assert(self.wf_locations()) by {
                assert forall|e2: int, j: int| 0 <= e2 < self.entities@.len() && 0 <= j < self.locs(e2).len() implies {
                    let p = #[trigger] self.locs(e2)[j];
                    &&& p.0 < self.components@.len()
                    &&& self.table_ids(p.0 as int).contains(p.1@)
                } by {
                    if e2 != e || j < pre.locs(e2).len() {
                        assert(self.locs(e2)[j] == pre.locs(e2)[j]);
                    } else {
                        assert(self.table_ids(index as int)[pre.table_ids(index as int).len() as int] == pid@);
                    }
                }
            }
            assert(self.wf_owners()) by {
                assert forall|e1: int, e2: int, k: Seq<char>|
                    0 <= e1 < self.entities@.len() && 0 <= e2 < self.entities@.len() && e1 != e2
                        && #[trigger] loc_ids(self.locs(e1)).contains(k) implies !(#[trigger] loc_ids(self.locs(e2))).contains(k) by {
                    if e1 != e {
                        assert(self.locs(e1) == pre.locs(e1));
                    }
                    if e2 != e {
                        assert(self.locs(e2) == pre.locs(e2));
                    }
                    if k == pid@ {
                        if e1 != e {
                            assert(loc_ids(pre.locs(e1)).contains(pid@));
                            assert(pre.referenced(pid@));
                        } else if loc_ids(self.locs(e2)).contains(k) {
                            assert(loc_ids(pre.locs(e2)).contains(pid@));
                            assert(pre.referenced(pid@));
                        }
                    }
                }
                assert forall|e1: int| 0 <= e1 < self.entities@.len() implies loc_ids(#[trigger] self.locs(e1)).no_duplicates() by {
                    if e1 != e {
                        assert(self.locs(e1) == pre.locs(e1));
                    } else {
                        assert(!loc_ids(pre.locs(e as int)).contains(pid@)) by {
                            if loc_ids(pre.locs(e as int)).contains(pid@) {
                                assert(pre.referenced(pid@));
                            }
                        }
                    }
                }
            }
        }
    }


    /// Adds `component` named `component_name` to table `index` under a fresh
    /// id, and appends its location to entity `entity`.
    pub fn add_component_at(&mut self, entity: Uid, index: usize, component: T, component_name: String) -> (r: Result<Uid, StoreError>)
        requires
            old(self).wf(),
        ensures
            final(self).wf(),
            match r {
                Ok(pid) => {
                    let e = old(self).entity_position(entity@);
                    &&& old(self).has_entity_spec(entity@)
                    &&& index < old(self).components@.len()
                    &&& !old(self).has_component_spec(pid@)
                    &&& old(self).relocated(&*final(self), e, old(self).locs(e).push((index, pid)))
                    &&& old(self).tables_with(&*final(self), index as int, (pid, Component { name: component_name, data: component }))
                    &&& component_created(*old(self), *final(self), pid@)
                },
                Err(StoreError::NotFound) => !old(self).has_entity_spec(entity@) && *final(self) == *old(self),
                Err(StoreError::InvalidOperation) => old(self).has_entity_spec(entity@) && index >= old(self).components@.len()
                    && *final(self) == *old(self),
                Err(StoreError::ConsistencyFault) => false,
            },
    {
        let e = match self.find_entity(&entity) {
            None => return Err(StoreError::NotFound),
            Some(e) => e,
        };
        if index >= self.components.len() {
            proof {
                assert(self.entity_ids()[e as int] == entity@);
            }
            return Err(StoreError::InvalidOperation);
        }
        let pid = self.fresh_component_id();
        proof {
            assert(self.entity_ids()[e as int] == entity@);
            assert(self.entity_position(entity@) == e) by {
                let q = self.entity_position(entity@);
                assert(self.entity_ids()[q] == entity@);
            }
        }
        let ghost pre = *self;
        self.attach_new(e, index, pid.clone(), Component { name: component_name, data: component });
        proof {
            lemma_relocated_keeps(pre, *self, e as int, pre.locs(e as int).push((index, pid)));
            let n = pre.components@[index as int]@.len();
            assert(self.table_ids(index as int)[n as int] == pid@);
            assert(self.table_ids(index as int).contains(pid@));
            assert forall|k: Seq<char>| #[trigger] pre.has_component_spec(k) implies self.has_component_spec(k) by {
                let t = choose|t: int| 0 <= t < pre.components@.len() && (#[trigger] pre.table_ids(t)).contains(k);
                let j = choose|j: int| 0 <= j < pre.table_ids(t).len() && pre.table_ids(t)[j] == k;
                if t != index {
                    assert(self.components@[t] == pre.components@[t]);
                } else {
                    assert(self.table_ids(t)[j] == k);
                }
                assert(self.table_ids(t).contains(k));
            }
        }
        Ok(pid)
    }

    /// Takes property `component` off entity `entity`: its location pair
    /// leaves the entity's list and its entry leaves its table. When the
    /// entity does not locate it, an entry that no entity locates is still
    /// removed from its table; one that another entity locates is refused
    /// with `InvalidOperation`, since removing it would leave that entity's
    /// location list pointing at nothing.
    pub fn remove_component_from_entity(&mut self, entity: Uid, component: Uid) -> (r: Result<(), StoreError>)
        requires
            old(self).wf(),
        ensures
            final(self).wf(),
            ({
                let e = old(self).entity_position(entity@);
                let own = loc_ids(old(self).locs(e)).contains(component@);
                match r {
                    Ok(()) => {
                        &&& old(self).has_entity_spec(entity@)
                        &&& old(self).tables_without(&*final(self), component@)
                        &&& !final(self).has_component_spec(component@)
                        &&& if own {
                            old(self).relocated(&*final(self), e, old(self).locs(e).remove(old(self).loc_position(e, component@)))
                        } else {
                            &&& !old(self).referenced(component@)
                            &&& old(self).has_component_spec(component@)
                            &&& final(self).entities == old(self).entities
                            &&& final(self).id == old(self).id
                        }
                    },
                    Err(StoreError::NotFound) => {
                        &&& !old(self).has_entity_spec(entity@)
                            || (!own && !old(self).referenced(component@) && !old(self).has_component_spec(component@))
                        &&& *final(self) == *old(self)
                    },
                    Err(StoreError::InvalidOperation) => {
                        &&& old(self).has_entity_spec(entity@)
                        &&& !own
                        &&& old(self).referenced(component@)
                        &&& *final(self) == *old(self)
                    },
                    Err(StoreError::ConsistencyFault) => false,
                }
            }),
    {
        let e = match self.find_entity(&entity) {
            None => return Err(StoreError::NotFound),
            Some(e) => e,
        };
        proof {
            assert(self.entity_ids()[e as int] == entity@);
            assert(self.entity_position(entity@) == e) by {
                let q = self.entity_position(entity@);
                assert(self.entity_ids()[q] == entity@);
            }
        }
        let j = match self.find_location(e, &component) {
            None => {
                if self.is_referenced(&component) {
                    return Err(StoreError::InvalidOperation);
                }
                if !self.has_component(component.clone()) {
                    return Err(StoreError::NotFound);
                }
                self.remove_orphan(&component);
                return Ok(());
            },
            Some(j) => j,
        };
        let ghost pre = *self;
        proof {
            assert(loc_ids(pre.locs(e as int))[j as int] == component@);
            assert(pre.loc_position(e as int, component@) == j) by {
                let q = pre.loc_position(e as int, component@);
                assert(loc_ids(pre.locs(e as int))[q] == component@);
            }
        }
        self.entities[e].1.location.remove(j);
        proof {
            assert(self.locs(e as int) =~= pre.locs(e as int).remove(j as int));
            lemma_remove_loc(pre, *self, e as int, j as int);
        }
        let ghost mid = *self;
        self.remove_orphan(&component);
        proof {
            assert forall|t: int| 0 <= t < pre.components@.len() implies pre.table_ids(t) == mid.table_ids(t) && pre.position(t, component@) == mid.position(t, component@) by {}
        }
        Ok(())
    }

    /// Removes entity `entity` and every property its location list names.
    pub fn remove_entity(&mut self, entity: Uid) -> (r: Result<(), StoreError>)
        requires
            old(self).wf(),
        ensures
            final(self).wf(),
            match r {
                Ok(()) => {
                    let e = old(self).entity_position(entity@);
                    let gone = loc_ids(old(self).locs(e));
                    &&& old(self).has_entity_spec(entity@)
                    &&& final(self).entities@ == old(self).entities@.remove(e)
                    &&& final(self).id == old(self).id
                    &&& final(self).components@.len() == old(self).components@.len()
                    &&& forall|t: int, k: Seq<char>| 0 <= t < old(self).components@.len() ==>
                        (#[trigger] final(self).table_ids(t).contains(k) <==> old(self).table_ids(t).contains(k) && !gone.contains(k))
                    &&& forall|t: int, k: Seq<char>| 0 <= t < old(self).components@.len() && #[trigger] final(self).table_ids(t).contains(k)
                        ==> final(self).lookup(t, k) == old(self).lookup(t, k)
                },
                Err(StoreError::NotFound) => !old(self).has_entity_spec(entity@) && *final(self) == *old(self),
                Err(_) => false,
            },
    {
        let e = match self.find_entity(&entity) {
            None => return Err(StoreError::NotFound),
            Some(e) => e,
        };
        let ghost pre = *self;
        proof {
            assert(self.entity_ids()[e as int] == entity@);
            assert(self.entity_position(entity@) == e) by {
                let q = self.entity_position(entity@);
                assert(self.entity_ids()[q] == entity@);
            }
        }
        let (_, ent) = self.entities.remove(e);
        let ghost l = ent.location@;
        proof {
            assert(l == pre.locs(e as int));
            lemma_remove_record(pre, *self, e as int);
        }
        let ghost mid = *self;
        proof {
            assert forall|t: int, k: Seq<char>| 0 <= t < pre.components@.len() && #[trigger] self.table_ids(t).contains(k) implies self.lookup(t, k) == pre.lookup(t, k) by {
                assert(self.components == pre.components);
                assert(self.table_ids(t) == pre.table_ids(t));
                lemma_lookup_kept(pre, *self, t, k);
            }
            assert forall|m: int| 0 <= m < l.len() implies !mid.referenced(#[trigger] l[m].1@) by {
                assert(loc_ids(pre.locs(e as int))[m] == l[m].1@);
                assert(loc_ids(pre.locs(e as int)).contains(l[m].1@));
            }
        }
        let mut j: usize = 0;
        while j < ent.location.len()
            invariant
                self.wf(),
                self.entities == mid.entities,
                self.id == pre.id,
                self.components@.len() == pre.components@.len(),
                l == ent.location@,
                j <= l.len(),
                forall|m: int| 0 <= m < l.len() ==> !mid.referenced(#[trigger] l[m].1@),
                forall|m: int| 0 <= m < j ==> !self.has_component_spec(#[trigger] l[m].1@),
                forall|t: int, k: Seq<char>| 0 <= t < pre.components@.len() && #[trigger] self.table_ids(t).contains(k) ==> pre.table_ids(t).contains(k),
                forall|t: int, k: Seq<char>| 0 <= t < pre.components@.len() && #[trigger] self.table_ids(t).contains(k) ==> self.lookup(t, k) == pre.lookup(t, k),
                pre.wf(),
                forall|t: int, k: Seq<char>| 0 <= t < pre.components@.len() ==>
                    (#[trigger] self.table_ids(t).contains(k) || !pre.table_ids(t).contains(k) || loc_ids(l).take(j as int).contains(k)),
            decreases l.len() - j,
        {
            proof {
                assert(loc_ids(l).contains(l[j as int].1@)) by {
                    assert(loc_ids(l)[j as int] == l[j as int].1@);
                }
                assert(!self.referenced(l[j as int].1@)) by {
                    assert(self.entities == mid.entities);
                    assert(forall|e2: int| 0 <= e2 < self.entities@.len() ==> #[trigger] self.locs(e2) == mid.locs(e2));
                }
            }
            let ghost before = *self;
            self.remove_orphan(&ent.location[j].1);
            proof {
                assert forall|t: int, k: Seq<char>| 0 <= t < pre.components@.len() && #[trigger] self.table_ids(t).contains(k) implies self.lookup(t, k) == pre.lookup(t, k) by {
                    assert(before.table_ids(t).contains(k));
                    if k == l[j as int].1@ {
                        assert(self.has_component_spec(k));
                    }
                }
                assert forall|m: int| 0 <= m < j + 1 implies !self.has_component_spec(#[trigger] l[m].1@) by {
                    if m < j && self.has_component_spec(l[m].1@) {
                        let t = choose|t: int| 0 <= t < self.components@.len() && (#[trigger] self.table_ids(t)).contains(l[m].1@);
                        assert(before.table_ids(t).contains(l[m].1@));
                    }
                }
                assert(loc_ids(l).take(j as int + 1) =~= loc_ids(l).take(j as int).push(l[j as int].1@));
                assert forall|t: int, k: Seq<char>| 0 <= t < pre.components@.len() implies
                    (#[trigger] self.table_ids(t).contains(k) || !pre.table_ids(t).contains(k) || loc_ids(l).take(j as int + 1).contains(k)) by {
                    if !self.table_ids(t).contains(k) && pre.table_ids(t).contains(k) {
                        if k != l[j as int].1@ {
                            assert(before.table_ids(t).contains(k) || loc_ids(l).take(j as int).contains(k));
                            if loc_ids(l).take(j as int).contains(k) {
                                let q = choose|q: int| 0 <= q < j && loc_ids(l).take(j as int)[q] == k;
                                assert(loc_ids(l).take(j as int + 1)[q] == k);
                            }
                        } else {
                            assert(loc_ids(l).take(j as int + 1)[j as int] == k);
                        }
                    }
                }
            }
            j = j + 1;
        }
        proof {
            assert(loc_ids(l).take(l.len() as int) =~= loc_ids(l));
            assert forall|t: int, k: Seq<char>| 0 <= t < pre.components@.len() implies
                (#[trigger] self.table_ids(t).contains(k) <==> pre.table_ids(t).contains(k) && !loc_ids(l).contains(k)) by {
                if self.table_ids(t).contains(k) && loc_ids(l).contains(k) {
                    let m = choose|m: int| 0 <= m < loc_ids(l).len() && loc_ids(l)[m] == k;
                    assert(l[m].1@ == k);
                    assert(self.has_component_spec(k));
                }
            }
        }
        Ok(())
    }

    /// The position of property `id` in table `t`, if that table holds it.
    fn find_in_table(&self, t: usize, id: &Uid) -> (r: Option<usize>)
        requires
            t < self.components@.len(),
        ensures
            match r {
                Some(i) => i < self.components@[t as int]@.len() && self.table_ids(t as int)[i as int] == id@,
                None => !self.table_ids(t as int).contains(id@),
            },
    {
        let mut i: usize = 0;
        while i < self.components[t].len()
            invariant
                t < self.components@.len(),
                i <= self.components@[t as int]@.len(),
                forall|j: int| 0 <= j < i ==> self.table_ids(t as int)[j] != id@,
            decreases self.components@[t as int]@.len() - i,
        {
            if self.components[t][i].0 == *id {
                return Some(i);
            }
            i = i + 1;
        }
        None
    }

    /// Whether some entity's location list references property `id`.
    pub fn is_referenced(&self, id: &Uid) -> (r: bool)
        ensures
            r == self.referenced(id@),
    {
        let mut e: usize = 0;
        while e < self.entities.len()
            invariant
                e <= self.entities@.len(),
                forall|q: int| 0 <= q < e ==> !loc_ids(#[trigger] self.locs(q)).contains(id@),
            decreases self.entities@.len() - e,
        {
            match self.find_location(e, id) {
                Some(j) => {
                    proof {
                        assert(loc_ids(self.locs(e as int))[j as int] == id@);
                    }
                    return true;
                },
                None => {},
            }
            e = e + 1;
        }
        false
    }

    /// The properties of entity `entity`, in location order, each with its id.
    pub fn get_entity_components(&self, entity: Uid) -> (r: Result<Vec<(Uid, Component<T>)>, StoreError>)
        requires
            self.wf(),
        ensures
            match r {
                Ok(v) => {
                    let l = self.locs(self.entity_position(entity@));
                    &&& self.has_entity_spec(entity@)
                    &&& v@.len() == l.len()
                    &&& forall|j: int| 0 <= j < l.len() ==> {
                        let c = self.lookup(l[j].0 as int, l[j].1@);
                        &&& (#[trigger] v@[j]).0 == l[j].1
                        &&& v@[j].1.name == c.name
                        &&& cloned::<T>(c.data, v@[j].1.data)
                    }
                },
                Err(err) => err == StoreError::NotFound && !self.has_entity_spec(entity@),
            },
    {
        let e = match self.find_entity(&entity) {
            None => return Err(StoreError::NotFound),
            Some(e) => e,
        };
        proof {
            assert(self.entity_ids()[e as int] == entity@);
            assert(self.entity_position(entity@) == e) by {
                let q = self.entity_position(entity@);
                assert(self.entity_ids()[q] == entity@);
            }
        }
        let ghost l = self.locs(e as int);
        let mut v: Vec<(Uid, Component<T>)> = Vec::new();
        let mut j: usize = 0;
        while j < self.entities[e].1.location.len()
            invariant
                self.wf(),
                e < self.entities@.len(),
                l == self.locs(e as int),
                j <= l.len(),
                v@.len() == j,
                forall|q: int| 0 <= q < j ==> {
                    let c = self.lookup(l[q].0 as int, l[q].1@);
                    &&& (#[trigger] v@[q]).0 == l[q].1
                    &&& v@[q].1.name == c.name
                    &&& cloned::<T>(c.data, v@[q].1.data)
                },
            decreases l.len() - j,
        {
            let t = self.entities[e].1.location[j].0;
            let pid = &self.entities[e].1.location[j].1;
            proof {
                assert(self.locs(e as int)[j as int] == l[j as int]);
            }
            match self.find_in_table(t, pid) {
                None => {
                    return Err(StoreError::ConsistencyFault);
                },
                Some(i) => {
                    proof {
                        assert(self.position(t as int, pid@) == i) by {
                            let q = self.position(t as int, pid@);
                            assert(self.table_ids(t as int)[q] == pid@);
                        }
                    }
                    v.push((pid.clone(), self.components[t][i].1.clone()));
                },
            }
            j = j + 1;
        }
        Ok(v)
    }

    /// A copy of table `index`.
    pub fn components_at(&self, index: usize) -> (r: Result<Vec<(Uid, Component<T>)>, StoreError>)
        ensures
            match r {
                Ok(v) => {
                    &&& index < self.components@.len()
                    &&& v@.len() == self.components@[index as int]@.len()
                    &&& forall|j: int| 0 <= j < v@.len() ==> {
                        let x = self.components@[index as int]@[j];
                        &&& (#[trigger] v@[j]).0 == x.0
                        &&& v@[j].1.name == x.1.name
                        &&& cloned::<T>(x.1.data, v@[j].1.data)
                    }
                },
                Err(err) => err == StoreError::InvalidOperation && index >= self.components@.len(),
            },
    {
        if index >= self.components.len() {
            return Err(StoreError::InvalidOperation);
        }
        let mut v: Vec<(Uid, Component<T>)> = Vec::new();
        let mut j: usize = 0;
        while j < self.components[index].len()
            invariant
                index < self.components@.len(),
                j <= self.components@[index as int]@.len(),
                v@.len() == j,
                forall|q: int| 0 <= q < j ==> {
                    let x = self.components@[index as int]@[q];
                    &&& (#[trigger] v@[q]).0 == x.0
                    &&& v@[q].1.name == x.1.name
                    &&& cloned::<T>(x.1.data, v@[q].1.data)
                },
            decreases self.components@[index as int]@.len() - j,
        {
            v.push((self.components[index][j].0.clone(), self.components[index][j].1.clone()));
            j = j + 1;
        }
        Ok(v)
    }

    /// Replaces the value of property `component`, which must sit in table
    /// `index`; its id and name are kept.
    pub fn set_component_value_at(&mut self, component: Uid, index: usize, data: T) -> (r: Result<Uid, StoreError>)
        requires
            old(self).wf(),
        ensures
            final(self).wf(),
            match r {
                Ok(id) => {
                    let i = old(self).position(index as int, component@);
                    let x = old(self).components@[index as int]@[i];
                    &&& id@ == component@
                    &&& index < old(self).components@.len()
                    &&& old(self).table_ids(index as int).contains(component@)
                    &&& final(self).entities == old(self).entities
                    &&& final(self).id == old(self).id
                    &&& final(self).components@ == old(self).components@.update(index as int, final(self).components@[index as int])
                    &&& final(self).components@[index as int]@ == old(self).components@[index as int]@.update(i, (x.0, Component { name: x.1.name, data }))
                },
                Err(StoreError::NotFound) => !old(self).has_component_spec(component@) && *final(self) == *old(self),
                Err(StoreError::InvalidOperation) => {
                    &&& old(self).has_component_spec(component@)
                    &&& !(index < old(self).components@.len() && old(self).table_ids(index as int).contains(component@))
                    &&& *final(self) == *old(self)
                },
                Err(StoreError::ConsistencyFault) => false,
            },
    {
        let (t, i) = match self.find_component(&component) {
            None => return Err(StoreError::NotFound),
            Some(p) => p,
        };
        proof {
            assert(self.table_ids(t as int)[i as int] == component@);
            assert(self.has_component_spec(component@));
        }
        if t != index {
            proof {
                if index < self.components@.len() && self.table_ids(index as int).contains(component@) {
                    assert(self.wf_tables());
                }
            }
            return Err(StoreError::InvalidOperation);
        }
        let ghost pre = *self;
        proof {
            assert(pre.position(t as int, component@) == i) by {
                let q = pre.position(t as int, component@);
                assert(pre.table_ids(t as int)[q] == component@);
            }
        }
        let id = self.components[t][i].0.clone();
        let name = self.components[t][i].1.name.clone();
        self.components[t].set(i, (id, Component { name, data }));
        proof {
            assert(self.components@[t as int]@ =~= pre.components@[t as int]@.update(i as int, (pre.components@[t as int]@[i as int].0, Component { name: pre.components@[t as int]@[i as int].1.name, data })));
            assert(self.components@ =~= pre.components@.update(t as int, self.components@[t as int]));
            assert(keys_of(self.components@[t as int]@) =~= keys_of(pre.components@[t as int]@));
            assert forall|u: int| 0 <= u < self.components@.len() implies #[trigger] keys_of(self.components@[u]@) == keys_of(pre.components@[u]@) by {}
            assert(forall|u: int| 0 <= u < self.components@.len() ==> #[trigger] self.table_ids(u) == pre.table_ids(u));
            assert(forall|e: int| 0 <= e < self.entities@.len() ==> #[trigger] self.locs(e) == pre.locs(e));
            assert(self.entity_ids() == pre.entity_ids());
        }
        Ok(component)
    }

    /// Stores `component` named `component_name` in table `index` under the
    /// given id, replacing whatever that id held, and makes entity `entity`
    /// locate it. The id may be new, held by no location list, or already
    /// located by this entity; one located by another entity is refused
    /// with `InvalidOperation`, since two entities locating one entry would
    /// let a removal on one of them leave the other pointing at nothing. A
    /// located entry whose variant changes moves to its new table while its
    /// location pair keeps its position.
    pub fn set_component_at(&mut self, entity: Uid, index: usize, component: T, component_name: String, component_id: Uid) -> (r: Result<Uid, StoreError>)
        requires
            old(self).wf(),
        ensures
            final(self).wf(),
            final(self).id == old(self).id,
            match r {
                Ok(id) => {
                    let e = old(self).entity_position(entity@);
                    let own = loc_ids(old(self).locs(e)).contains(component_id@);
                    let j = old(self).loc_position(e, component_id@);
                    &&& id == component_id
                    &&& old(self).has_entity_spec(entity@)
                    &&& index < old(self).components@.len()
                    &&& own || !old(self).referenced(component_id@)
                    &&& final(self).table_ids(index as int).contains(component_id@)
                    &&& final(self).lookup(index as int, component_id@) == (Component { name: component_name, data: component })
                    &&& forall|t: int, k: Seq<char>| 0 <= t < old(self).components@.len() && k != component_id@ ==>
                        (#[trigger] final(self).table_ids(t).contains(k) <==> old(self).table_ids(t).contains(k))
                    &&& forall|t: int, k: Seq<char>| 0 <= t < old(self).components@.len() && k != component_id@
                        && #[trigger] old(self).table_ids(t).contains(k) ==> final(self).lookup(t, k) == old(self).lookup(t, k)
                    &&& final(self).components@.len() == old(self).components@.len()
                    &&& if own && old(self).locs(e)[j].0 == index {
                        final(self).entities == old(self).entities
                    } else if own {
                        old(self).relocated(&*final(self), e, old(self).locs(e).update(j, (index, component_id)))
                    } else {
                        old(self).relocated(&*final(self), e, old(self).locs(e).push((index, component_id)))
                    }
                },
                Err(StoreError::NotFound) => !old(self).has_entity_spec(entity@) && *final(self) == *old(self),
                Err(StoreError::InvalidOperation) => {
                    let e = old(self).entity_position(entity@);
                    &&& old(self).has_entity_spec(entity@)
                    &&& index >= old(self).components@.len()
                        || (old(self).referenced(component_id@) && !loc_ids(old(self).locs(e)).contains(component_id@))
                    &&& *final(self) == *old(self)
                },
                Err(StoreError::ConsistencyFault) => false,
            },
    {
        let e = match self.find_entity(&entity) {
            None => return Err(StoreError::NotFound),
            Some(e) => e,
        };
        let ghost pre = *self;
        proof {
            assert(self.entity_ids()[e as int] == entity@);
            assert(self.entity_position(entity@) == e) by {
                let q = self.entity_position(entity@);
                assert(self.entity_ids()[q] == entity@);
            }
        }
        if index >= self.components.len() {
            return Err(StoreError::InvalidOperation);
        }
        match self.find_location(e, &component_id) {
            Some(j) => {
                proof {
                    assert(loc_ids(pre.locs(e as int))[j as int] == component_id@);
                    assert(pre.loc_position(e as int, component_id@) == j) by {
                        let q = pre.loc_position(e as int, component_id@);
                        assert(loc_ids(pre.locs(e as int))[q] == component_id@);
                    }
                }
                if self.entities[e].1.location[j].0 == index {
                    let i = match self.find_in_table(index, &component_id) {
                        None => {
                            proof {
                                assert(pre.locs(e as int)[j as int].1@ == component_id@);
                            }
                            return Err(StoreError::ConsistencyFault);
                        },
                        Some(i) => i,
                    };
                    self.components[index].set(i, (component_id.clone(), Component { name: component_name, data: component }));
                    proof {
                        assert(keys_of(self.components@[index as int]@) =~= keys_of(pre.components@[index as int]@));
                        assert forall|u: int| 0 <= u < self.components@.len() implies #[trigger] keys_of(self.components@[u]@) == keys_of(pre.components@[u]@) by {}
                        assert(forall|u: int| 0 <= u < self.components@.len() ==> #[trigger] self.table_ids(u) == pre.table_ids(u));
                        assert(forall|q: int| 0 <= q < self.entities@.len() ==> #[trigger] self.locs(q) == pre.locs(q));
                        assert(self.entity_ids() == pre.entity_ids());
                        assert(self.position(index as int, component_id@) == i) by {
                            let q = self.position(index as int, component_id@);
                            assert(self.table_ids(index as int)[q] == component_id@);
                            assert(self.table_ids(index as int)[i as int] == component_id@);
                        }
                        assert forall|t: int, k: Seq<char>| 0 <= t < pre.components@.len() && k != component_id@
                            && #[trigger] pre.table_ids(t).contains(k) implies self.lookup(t, k) == pre.lookup(t, k) by {
                            if t == index {
                                let x = (component_id, Component { name: component_name, data: component });
                                assert(pre.components@[t]@[i as int].0@ != k);
                                assert(self.components@[t]@ == pre.components@[t]@.update(i as int, x));
                                lemma_lookup_kept(pre, *self, t, k);
                            } else {
                                assert(self.components@[t] == pre.components@[t]);
                                lemma_lookup_kept(pre, *self, t, k);
                            }
                        }
                    }
                    return Ok(component_id);
                }
                let t_old = self.entities[e].1.location[j].0;
                let i_old = match self.find_in_table(t_old, &component_id) {
                    None => {
                        proof {
                            assert(pre.locs(e as int)[j as int].1@ == component_id@);
                        }
                        return Err(StoreError::ConsistencyFault);
                    },
                    Some(i) => i,
                };
                let ghost x = (component_id, Component { name: component_name, data: component });
                self.components[t_old].remove(i_old);
                self.components[index].push((component_id.clone(), Component { name: component_name, data: component }));
                self.entities[e].1.location.set(j, (index, component_id.clone()));
                proof {
                    assert(pre.locs(e as int)[j as int].1@ == component_id@);
                    assert(self.locs(e as int) =~= pre.locs(e as int).update(j as int, (index, component_id)));
                    assert(self.components@[t_old as int]@ =~= pre.components@[t_old as int]@.remove(i_old as int));
                    assert(self.components@[index as int]@ =~= pre.components@[index as int]@.push(x));
                    lemma_move_entry(pre, *self, e as int, j as int, i_old as int, index as int, x);
                }
                return Ok(component_id);
            },
            None => {
                if self.is_referenced(&component_id) {
                    return Err(StoreError::InvalidOperation);
                }
            },
        }
        let ghost mid = *self;
        self.remove_orphan(&component_id);
        let ghost mid2 = *self;
        let ghost c = Component { name: component_name, data: component };
        self.attach_new(e, index, component_id.clone(), Component { name: component_name, data: component });
        proof {
            let n = mid2.components@[index as int]@.len();
            assert(self.table_ids(index as int) =~= mid2.table_ids(index as int).push(component_id@));
            assert(self.table_ids(index as int)[n as int] == component_id@);
            assert(self.position(index as int, component_id@) == n) by {
                let q = self.position(index as int, component_id@);
                assert(self.table_ids(index as int)[q] == component_id@);
            }
            assert forall|t: int, k: Seq<char>| 0 <= t < pre.components@.len() && k != component_id@ implies
                (#[trigger] self.table_ids(t).contains(k) <==> pre.table_ids(t).contains(k)) by {
                assert(mid.table_ids(t) == pre.table_ids(t));
                if mid2.table_ids(t).contains(k) {
                    assert(mid.table_ids(t).contains(k));
                }
                if mid.table_ids(t).contains(k) {
                    assert(mid2.table_ids(t).contains(k));
                }
                if t != index {
                    assert(self.components@[t] == mid2.components@[t]);
                } else {
                    if self.table_ids(t).contains(k) {
                        let q = choose|q: int| 0 <= q < self.table_ids(t).len() && self.table_ids(t)[q] == k;
                        assert(mid2.table_ids(t)[q] == k);
                    }
                    if mid2.table_ids(t).contains(k) {
                        let q = choose|q: int| 0 <= q < mid2.table_ids(t).len() && mid2.table_ids(t)[q] == k;
                        assert(self.table_ids(t)[q] == k);
                    }
                }
            }
            assert forall|t: int, k: Seq<char>| 0 <= t < pre.components@.len() && k != component_id@
                && #[trigger] pre.table_ids(t).contains(k) implies self.lookup(t, k) == pre.lookup(t, k) by {
                assert(mid.table_ids(t) == pre.table_ids(t));
                    assert(mid.components@[t] == pre.components@[t]);
                    assert(mid.lookup(t, k) == pre.lookup(t, k));
                    if mid.table_ids(t).contains(component_id@) {
                        let i = mid.position(t, component_id@);
                        assert(mid.table_ids(t)[i] == component_id@) by {
                            let j = choose|j: int| 0 <= j < mid.table_ids(t).len() && mid.table_ids(t)[j] == component_id@;
                        }
                        assert(mid.components@[t]@[i].0@ != k);
                        lemma_lookup_kept(mid, mid2, t, k);
                    } else {
                        assert(mid2.components@[t] == mid.components@[t]);
                        lemma_lookup_kept(mid, mid2, t, k);
                    }
                    if t == index {
                        assert(self.components@[t]@ == mid2.components@[t]@.push((component_id, c)));
                        lemma_lookup_kept(mid2, *self, t, k);
                    } else {
                        lemma_lookup_kept(mid2, *self, t, k);
                    }
                
            }
        }
        Ok(component_id)
    }

    /// Adds `component` to the table its variant selects; see `add_component_at`.
    pub fn add_component_to_entity(&mut self, entity: Uid, component: T, component_name: String) -> (r: Result<Uid, StoreError>)
        requires
            old(self).wf(),
        ensures
            final(self).wf(),
            match r {
                Ok(pid) => {
                    &&& old(self).has_entity_spec(entity@)
                    &&& !old(self).has_component_spec(pid@)
                    &&& final(self).has_component_spec(pid@)
                    &&& loc_ids(final(self).locs(old(self).entity_position(entity@))).contains(pid@)
                    &&& component_created(*old(self), *final(self), pid@)
                },
                Err(StoreError::NotFound) => !old(self).has_entity_spec(entity@) && *final(self) == *old(self),
                Err(StoreError::InvalidOperation) => old(self).has_entity_spec(entity@) && *final(self) == *old(self),
                Err(StoreError::ConsistencyFault) => false,
            },
    {
        let index = component.index();
        let r = self.add_component_at(entity, index, component, component_name);
        proof {
            if r is Ok {
                let pid = r->Ok_0;
                let e = old(self).entity_position(entity@);
                let n = old(self).components@[index as int]@.len();
                assert(self.table_ids(index as int)[n as int] == pid@);
                assert(self.table_ids(index as int).contains(pid@));
                let m = old(self).locs(e).len();
                assert(loc_ids(self.locs(e))[m as int] == pid@);
            }
        }
        r
    }

    /// Stores `component` under `component_id` in the table its variant
    /// selects; see `set_component_at`.
    pub fn set_component_to_entity(&mut self, entity: Uid, component: T, component_name: String, component_id: Uid) -> (r: Result<Uid, StoreError>)
        requires
            old(self).wf(),
        ensures
            final(self).wf(),
            match r {
                Ok(id) => {
                    &&& id == component_id
                    &&& old(self).has_entity_spec(entity@)
                    &&& exists|t: int| 0 <= t < final(self).components@.len() && #[trigger] final(self).table_ids(t).contains(component_id@)
                        && final(self).lookup(t, component_id@) == (Component { name: component_name, data: component })
                    &&& loc_ids(final(self).locs_of(entity@)).contains(component_id@)
                },
                Err(StoreError::NotFound) => !old(self).has_entity_spec(entity@) && *final(self) == *old(self),
                Err(StoreError::InvalidOperation) => old(self).has_entity_spec(entity@) && *final(self) == *old(self),
                Err(StoreError::ConsistencyFault) => false,
            },
    {
        let index = component.index();
        let ghost cid = component_id;
        let r = self.set_component_at(entity, index, component, component_name, component_id);
        proof {
            if r is Ok {
                let pre = *old(self);
                assert(self.table_ids(index as int).contains(cid@));
                let i = choose|i: int| 0 <= i < pre.entity_ids().len() && pre.entity_ids()[i] == entity@;
                lemma_entity_position(pre, i);
                let e = pre.entity_position(entity@);
                let own = loc_ids(pre.locs(e)).contains(cid@);
                let j = pre.loc_position(e, cid@);
                if own {
                    assert(loc_ids(pre.locs(e))[j] == cid@) by {
                        let q = choose|q: int| 0 <= q < loc_ids(pre.locs(e)).len() && loc_ids(pre.locs(e))[q] == cid@;
                    }
                }
                if own && pre.locs(e)[j].0 == index {
                    lemma_entity_position(*self, i);
                    assert(self.locs(e) == pre.locs(e));
                } else {
                    if own {
                        let l = pre.locs(e).update(j, (index, cid));
                        lemma_relocated_keeps(pre, *self, e, l);
                        assert(loc_ids(l)[j] == cid@);
                    } else {
                        let l = pre.locs(e).push((index, cid));
                        lemma_relocated_keeps(pre, *self, e, l);
                        assert(loc_ids(l)[l.len() - 1] == cid@);
                    }
                }
            }
        }
        r
    }

    /// Replaces the value of property `component`; see `set_component_value_at`.
    pub fn set_component(&mut self, component: Uid, data: T) -> (r: Result<Uid, StoreError>)
        requires
            old(self).wf(),
        ensures
            final(self).wf(),
            final(self).entities == old(self).entities,
            match r {
                Ok(id) => {
                    &&& id@ == component@
                    &&& old(self).has_component_spec(component@)
                    &&& exists|t: int| 0 <= t < final(self).components@.len() && #[trigger] final(self).table_ids(t).contains(component@)
                        && final(self).lookup(t, component@).data == data
                        && final(self).lookup(t, component@).name == old(self).lookup(t, component@).name
                },
                Err(StoreError::NotFound) => !old(self).has_component_spec(component@) && *final(self) == *old(self),
                Err(StoreError::InvalidOperation) => old(self).has_component_spec(component@) && *final(self) == *old(self),
                Err(StoreError::ConsistencyFault) => false,
            },
    {
        let index = data.index();
        let ghost cid = component;
        let ghost d = data;
        let r = self.set_component_value_at(component, index, data);
        proof {
            if r is Ok {
                let pre = *old(self);
                let t = index as int;
                let i = pre.position(t, cid@);
                assert(pre.table_ids(t)[i] == cid@) by {
                    let q = choose|q: int| 0 <= q < pre.table_ids(t).len() && pre.table_ids(t)[q] == cid@;
                }
                lemma_lookup_at(pre, t, i);
                assert(self.components@[t]@[i].0@ == cid@);
                lemma_lookup_at(*self, t, i);
                assert(self.table_ids(t).contains(cid@));
            }
        }
        r
    }

    /// A copy of the table that `t`'s variant selects; see `components_at`.
    pub fn get_components_of_type(&self, t: &T) -> (r: Result<Vec<(Uid, Component<T>)>, StoreError>)
        ensures
            r is Err ==> r == Err::<Vec<(Uid, Component<T>)>, StoreError>(StoreError::InvalidOperation),
            match r {
                Ok(v) => exists|t: int| 0 <= t < self.components@.len() && #[trigger] self.components@[t]@.len() == v@.len()
                    && forall|j: int| 0 <= j < v@.len() ==> {
                        let x = self.components@[t]@[j];
                        &&& (#[trigger] v@[j]).0 == x.0
                        &&& v@[j].1.name == x.1.name
                        &&& cloned::<T>(x.1.data, v@[j].1.data)
                    },
                Err(_) => true,
            },
    {
        let index = t.index();
        self.components_at(index)
    }

    /// Whether the ids of `v` are pairwise distinct.
    fn keys_distinct(v: &Vec<(Uid, Component<T>)>) -> (r: bool)
        ensures
            r == keys_of(v@).no_duplicates(),
    {
        let n = v.len();
        let mut i: usize = 0;
        while i < n
            invariant
                n == v@.len(),
                i <= n,
                forall|a: int, b: int| 0 <= a < b < i ==> keys_of(v@)[a] != keys_of(v@)[b],
            decreases n - i,
        {
            let mut j: usize = 0;
            while j < i
                invariant
                    n == v@.len(),
                    i < n,
                    j <= i,
                    forall|a: int| 0 <= a < j ==> keys_of(v@)[a] != keys_of(v@)[i as int],
                decreases i - j,
            {
                if v[j].0 == v[i].0 {
                    proof {
                        assert(keys_of(v@)[j as int] == keys_of(v@)[i as int]);
                    }
                    return false;
                }
                j = j + 1;
            }
            i = i + 1;
        }
        true
    }

    /// Whether `k` is among the ids of `v`.
    fn keys_contain(v: &Vec<(Uid, Component<T>)>, k: &Uid) -> (r: bool)
        ensures
            r == keys_of(v@).contains(k@),
    {
        let mut i: usize = 0;
        while i < v.len()
            invariant
                i <= v@.len(),
                forall|a: int| 0 <= a < i ==> keys_of(v@)[a] != k@,
            decreases v@.len() - i,
        {
            if v[i].0 == *k {
                proof {
                    assert(keys_of(v@)[i as int] == k@);
                }
                return true;
            }
            i = i + 1;
        }
        false
    }

    /// Whether some id of `v` is held by a table other than `index`.
    fn held_elsewhere(&self, index: usize, v: &Vec<(Uid, Component<T>)>) -> (r: bool)
        requires
            self.wf(),
        ensures
            r == exists|i: int, t: int| 0 <= i < v@.len() && 0 <= t < self.components@.len() && t != index
                && #[trigger] self.table_ids(t).contains(#[trigger] keys_of(v@)[i]),
    {
        let mut i: usize = 0;
        while i < v.len()
            invariant
                self.wf(),
                i <= v@.len(),
                forall|a: int, t: int| 0 <= a < i && 0 <= t < self.components@.len() && t != index
                    ==> !(#[trigger] self.table_ids(t)).contains(#[trigger] keys_of(v@)[a]),
            decreases v@.len() - i,
        {
            match self.find_component(&v[i].0) {
                None => {
                    proof {
                        assert(keys_of(v@)[i as int] == v@[i as int].0@);
                    }
                },
                Some((t, q)) => {
                    proof {
                        assert(keys_of(v@)[i as int] == v@[i as int].0@);
                        assert(self.table_ids(t as int)[q as int] == v@[i as int].0@);
                    }
                    if t != index {
                        proof {
                            assert(self.table_ids(t as int).contains(keys_of(v@)[i as int]));
                        }
                        return true;
                    }
                },
            }
            i = i + 1;
        }
        false
    }

    /// Whether every location pair naming table `index` names an id of `v`.
    fn locations_covered(&self, index: usize, v: &Vec<(Uid, Component<T>)>) -> (r: bool)
        ensures
            r == forall|e: int, j: int| 0 <= e < self.entities@.len() && 0 <= j < self.locs(e).len()
                && (#[trigger] self.locs(e)[j]).0 == index ==> keys_of(v@).contains(self.locs(e)[j].1@),
    {
        let mut e: usize = 0;
        while e < self.entities.len()
            invariant
                e <= self.entities@.len(),
                forall|e2: int, j: int| 0 <= e2 < e && 0 <= j < self.locs(e2).len()
                    && (#[trigger] self.locs(e2)[j]).0 == index ==> keys_of(v@).contains(self.locs(e2)[j].1@),
            decreases self.entities@.len() - e,
        {
            let mut j: usize = 0;
            while j < self.entities[e].1.location.len()
                invariant
                    e < self.entities@.len(),
                    j <= self.locs(e as int).len(),
                    forall|e2: int, j2: int| 0 <= e2 < e && 0 <= j2 < self.locs(e2).len()
                        && (#[trigger] self.locs(e2)[j2]).0 == index ==> keys_of(v@).contains(self.locs(e2)[j2].1@),
                    forall|j2: int| 0 <= j2 < j && (#[trigger] self.locs(e as int)[j2]).0 == index
                        ==> keys_of(v@).contains(self.locs(e as int)[j2].1@),
                decreases self.locs(e as int).len() - j,
            {
                if self.entities[e].1.location[j].0 == index && !Self::keys_contain(v, &self.entities[e].1.location[j].1) {
                    return false;
                }
                j = j + 1;
            }
            e = e + 1;
        }
        true
    }

    /// Replaces table `index` by `components`. Refused with
    /// `InvalidOperation`, changing nothing, when `index` names no table,
    /// when two entries share an id, when an id is held by another table, or
    /// when an entity locates in table `index` an id that `components` lacks.
    pub fn set_components_at(&mut self, index: usize, components: Vec<(Uid, Component<T>)>) -> (r: Result<(), StoreError>)
        requires
            old(self).wf(),
        ensures
            final(self).wf(),
            ({
                let ok = {
                    &&& index < old(self).components@.len()
                    &&& keys_of(components@).no_duplicates()
                    &&& !(exists|i: int, t: int| 0 <= i < components@.len() && 0 <= t < old(self).components@.len() && t != index
                        && #[trigger] old(self).table_ids(t).contains(#[trigger] keys_of(components@)[i]))
                    &&& forall|e: int, j: int| 0 <= e < old(self).entities@.len() && 0 <= j < old(self).locs(e).len()
                        && (#[trigger] old(self).locs(e)[j]).0 == index ==> keys_of(components@).contains(old(self).locs(e)[j].1@)
                };
                match r {
                    Ok(()) => ok && final(self).components@ == old(self).components@.update(index as int, components)
                        && final(self).entities == old(self).entities && final(self).id == old(self).id,
                    Err(e) => !ok && e == StoreError::InvalidOperation && *final(self) == *old(self),
                }
            }),
    {
        if index >= self.components.len() || !Self::keys_distinct(&components) || self.held_elsewhere(index, &components)
            || !self.locations_covered(index, &components) {
            return Err(StoreError::InvalidOperation);
        }
        let ghost pre = *self;
        let ghost cv = components@;
        self.components.set(index, components);
        proof {
            assert(self.components@ == pre.components@.update(index as int, self.components@[index as int]));
            assert(self.entity_ids() == pre.entity_ids());
            assert(forall|e: int| 0 <= e < pre.entities@.len() ==> #[trigger] self.locs(e) == pre.locs(e));
            assert forall|t: int| 0 <= t < self.components@.len() && t != index implies #[trigger] self.table_ids(t) == pre.table_ids(t) by {}
            assert(self.table_ids(index as int) == keys_of(cv));
            assert(self.wf_tables()) by {
                assert forall|t1: int, t2: int, k: Seq<char>|
                    0 <= t1 < self.components@.len() && 0 <= t2 < self.components@.len() && t1 != t2 && #[trigger] keys_of(self.components@[t1]@).contains(k)
                        implies !(#[trigger] keys_of(self.components@[t2]@)).contains(k) by {
                    if t1 == index && keys_of(self.components@[t2]@).contains(k) {
                        let i = choose|i: int| 0 <= i < keys_of(cv).len() && keys_of(cv)[i] == k;
                        assert(pre.table_ids(t2).contains(keys_of(cv)[i]));
                    } else if t2 == index && keys_of(self.components@[t2]@).contains(k) {
                        let i = choose|i: int| 0 <= i < keys_of(cv).len() && keys_of(cv)[i] == k;
                        assert(pre.table_ids(t1).contains(keys_of(cv)[i]));
                    }
                }
            }
            assert(self.wf_locations()) by {
                assert forall|e: int, j: int| 0 <= e < self.entities@.len() && 0 <= j < self.locs(e).len() implies {
                    let p = #[trigger] self.locs(e)[j];
                    &&& p.0 < self.components@.len()
                    &&& self.table_ids(p.0 as int).contains(p.1@)
                } by {
                    assert(self.locs(e)[j] == pre.locs(e)[j]);
                }
            }
        }
        Ok(())
    }

    /// Replaces the table that the first entry's variant selects by
    /// `components`; see `set_components_at`. An empty list selects no table
    /// and is refused with `InvalidOperation`.
    pub fn set_components(&mut self, components: Vec<(Uid, Component<T>)>) -> (r: Result<(), StoreError>)
        requires
            old(self).wf(),
        ensures
            final(self).wf(),
            components@.len() == 0 ==> r == Err::<(), StoreError>(StoreError::InvalidOperation) && *final(self) == *old(self),
            r is Ok ==> final(self).entities == old(self).entities
                && exists|t: int| 0 <= t < old(self).components@.len() && final(self).components@ == old(self).components@.update(t, components),
            r is Err ==> *final(self) == *old(self),
    {
        if components.len() == 0 {
            return Err(StoreError::InvalidOperation);
        }
        let index = components[0].1.data.index();
        self.set_components_at(index, components)
    }

    /// Registers a new entity named `name` under a fresh id, with no properties.
    pub fn create_entity(&mut self, name: String) -> (r: Uid)
        requires
            old(self).wf(),
        ensures
            final(self).wf(),
            !old(self).has_entity_spec(r@),
            final(self).entities@.len() == old(self).entities@.len() + 1,
            final(self).entities@.drop_last() == old(self).entities@,
            is_blank(final(self).entities@.last(), r@, name@),
            final(self).components == old(self).components,
            final(self).id == old(self).id,
            entity_created(*old(self), *final(self), r@),
    {
        let id = self.fresh_entity_id();
        let ghost pre = *self;
        self.entities.push((id.clone(), Entity { location: Vec::new(), name }));
        proof {
            assert(self.entities@.drop_last() =~= pre.entities@);
            lemma_push_blank(pre, *self, self.entities@.last());
            assert(self.entity_ids() =~= pre.entity_ids().push(id@));
        }
        id
    }

    /// Registers entity `id` named `name` with no properties, replacing any
    /// record already held under `id`.
    pub fn set_entity(&mut self, id: Uid, name: String) -> (r: Uid)
        requires
            old(self).wf(),
        ensures
            final(self).wf(),
            r == id,
            final(self).components == old(self).components,
            final(self).id == old(self).id,
            old(self).has_entity_spec(id@) ==> {
                &&& final(self).entities@.len() == old(self).entities@.len()
                &&& forall|i: int| 0 <= i < old(self).entities@.len() ==>
                    if old(self).entity_ids()[i] == id@ {
                        is_blank(#[trigger] final(self).entities@[i], id@, name@)
                    } else {
                        final(self).entities@[i] == old(self).entities@[i]
                    }
            },
            !old(self).has_entity_spec(id@) ==> {
                &&& final(self).entities@.len() == old(self).entities@.len() + 1
                &&& final(self).entities@.drop_last() == old(self).entities@
                &&& is_blank(final(self).entities@.last(), id@, name@)
            },
    {
        let ghost pre = *self;
        match self.find_entity(&id) {
            Some(i) => {
                self.entities.set(i, (id.clone(), Entity { location: Vec::new(), name }));
                proof {
                    lemma_set_blank(pre, *self, i as int, self.entities@[i as int]);
                    assert(pre.entity_ids()[i as int] == id@);
                    assert forall|j: int| 0 <= j < pre.entities@.len() && j != i implies pre.entity_ids()[j] != id@ by {
                        assert(pre.entity_ids()[i as int] == id@);
                    }
                }
            },
            None => {
                self.entities.push((id.clone(), Entity { location: Vec::new(), name }));
                proof {
                    assert(self.entities@.drop_last() =~= pre.entities@);
                    lemma_push_blank(pre, *self, self.entities@.last());
                }
            },
        }
        id
    }
}

} // verus!

use starsystem::{AscendedBeing, AscendedComponent, AscendedEntity, Component, EnumIndex, StarSystem, StoreError, Uid, World};

#[derive(Debug, Clone, PartialEq)]
enum Prop {
    Text(String),
    Count(u64),
}

impl EnumIndex for Prop {
    fn index(&self) -> usize {
        match self {
            Prop::Text(_) => 0,
            Prop::Count(_) => 1,
        }
    }

    fn variant_count() -> usize {
        2
    }
}

fn text(s: &str) -> Prop {
    Prop::Text(s.to_string())
}

fn id_text(u: &Uid) -> String {
    u.as_text()
}

#[test]
fn uid_new_is_128_letters() {
    let u = Uid::new();
    let s = id_text(&u);
    assert_eq!(s.chars().count(), 128);
    assert!(s.chars().all(|c| c.is_ascii_alphabetic()));
    assert_ne!(Uid::new(), u);
}

#[test]
fn uid_avoiding_lengthens_on_collision() {
    let taken = vec![Uid::from_text("ab"), Uid::from_text("aba")];
    let r = Uid::from_text("ab").avoiding(&taken);
    assert!(!taken.contains(&r));
    assert_eq!(id_text(&r), "abaa");
    let free = Uid::from_text("zz").avoiding(&taken);
    assert_eq!(id_text(&free), "zz");
}

#[test]
fn world_new_has_one_table_per_variant() {
    let w: World<Prop> = World::new(3);
    assert_eq!(w.components.len(), 3);
    assert!(w.components.iter().all(|t| t.is_empty()));
    assert_eq!(w.entities_count(), 0);
}

#[test]
fn world_entity_and_property_crud() {
    let mut w: World<Prop> = World::new(2);
    let e = w.create_entity("e".to_string());
    assert!(w.has_entity(e.clone()));
    assert_eq!(w.entities_count(), 1);
    let p = w.add_component_to_entity(e.clone(), Prop::Count(7), "n".to_string()).unwrap();
    assert!(w.has_component(p.clone()));
    assert_eq!(w.components[1].len(), 1);
    assert_eq!(w.components[0].len(), 0);
    let got = w.get_entity_components(e.clone()).unwrap();
    assert_eq!(got.len(), 1);
    assert_eq!(got[0].0, p);
    assert_eq!(got[0].1.name, "n");
    assert_eq!(got[0].1.data, Prop::Count(7));
    assert_eq!(w.set_component(p.clone(), Prop::Count(9)), Ok(p.clone()));
    assert_eq!(w.get_entity_components(e.clone()).unwrap()[0].1.data, Prop::Count(9));
    assert_eq!(w.set_component(p.clone(), text("x")), Err(StoreError::InvalidOperation));
    let of_type = w.get_components_of_type(&Prop::Count(0)).unwrap();
    assert_eq!(of_type.len(), 1);
    assert_eq!(w.remove_component_from_entity(e.clone(), p.clone()), Ok(()));
    assert!(!w.has_component(p.clone()));
    assert_eq!(w.remove_component_from_entity(e.clone(), p.clone()), Err(StoreError::NotFound));
    assert_eq!(w.remove_entity(e.clone()), Ok(()));
    assert!(!w.has_entity(e.clone()));
    assert_eq!(w.remove_entity(e), Err(StoreError::NotFound));
}

#[test]
fn world_unknown_entity_is_not_found() {
    let mut w: World<Prop> = World::new(2);
    let missing = Uid::from_text("missing");
    assert_eq!(w.add_component_to_entity(missing.clone(), text("a"), "a".to_string()), Err(StoreError::NotFound));
    assert!(w.get_entity_components(missing.clone()).is_err());
    assert_eq!(w.set_component(missing, text("a")), Err(StoreError::NotFound));
}

#[test]
fn world_index_out_of_range_is_invalid() {
    let mut w: World<Prop> = World::new(2);
    let e = w.create_entity("e".to_string());
    assert_eq!(w.add_component_at(e, 2, text("a"), "a".to_string()), Err(StoreError::InvalidOperation));
    assert_eq!(w.components_at(5).map(|v| v.len()), Err(StoreError::InvalidOperation));
}

#[test]
fn world_set_component_to_entity_updates_in_place() {
    let mut w: World<Prop> = World::new(2);
    let e = w.create_entity("e".to_string());
    let p = w.add_component_to_entity(e.clone(), text("a"), "a".to_string()).unwrap();
    let q = w.add_component_to_entity(e.clone(), text("b"), "b".to_string()).unwrap();
    assert_eq!(w.set_component_to_entity(e.clone(), text("c"), "c".to_string(), p.clone()), Ok(p.clone()));
    let got = w.get_entity_components(e.clone()).unwrap();
    assert_eq!(got.len(), 2);
    assert_eq!(got[0].0, p);
    assert_eq!(got[0].1.name, "c");
    assert_eq!(got[0].1.data, text("c"));
    assert_eq!(got[1].0, q);
    // a new discriminant moves the entry to its table; the location keeps its position
    assert_eq!(w.set_component_to_entity(e.clone(), Prop::Count(1), "n".to_string(), p.clone()), Ok(p.clone()));
    let got = w.get_entity_components(e.clone()).unwrap();
    assert_eq!(got[0].0, p);
    assert_eq!(got[0].1.data, Prop::Count(1));
    assert_eq!(got[1].0, q);
    assert_eq!(w.entities[0].1.location[0].0, 1);
    assert_eq!(w.components[0].len(), 1);
    assert_eq!(w.components[1].len(), 1);
}

#[test]
fn world_set_entity_restores_given_id() {
    let mut w: World<Prop> = World::new(2);
    let id = Uid::from_text("fixed");
    let r = w.set_entity(id.clone(), "e".to_string());
    assert_eq!(r, id);
    assert!(w.has_entity(id.clone()));
    assert_eq!(w.entities_count(), 1);
    w.set_entity(id.clone(), "again".to_string());
    assert_eq!(w.entities_count(), 1);
    assert_eq!(w.entities[0].1.name, "again");
}

#[test]
fn created_ids_are_distinct() {
    let mut w: World<Prop> = World::new(2);
    let mut ids: Vec<Uid> = Vec::new();
    for i in 0..20 {
        ids.push(w.create_entity(format!("e{}", i)));
    }
    let e = ids[0].clone();
    let mut props: Vec<Uid> = Vec::new();
    for i in 0..20 {
        props.push(w.add_component_to_entity(e.clone(), Prop::Count(i), "p".to_string()).unwrap());
    }
    for a in 0..20 {
        for b in 0..20 {
            if a != b {
                assert_ne!(ids[a], ids[b]);
                assert_ne!(props[a], props[b]);
            }
        }
    }
    let mut s: StarSystem<Prop> = StarSystem::new();
    let r1 = s.conceive_being("a".to_string()).unwrap();
    let r2 = s.conceive_being("a".to_string()).unwrap();
    assert_ne!(r1, r2);
}

#[test]
fn ascend_single_property() {
    let mut s: StarSystem<Prop> = StarSystem::new();
    let r = s.conceive_being("r".to_string()).unwrap();
    let e = s.constitute_being(r.clone(), "s".to_string()).unwrap();
    let p = s.add_property(r.clone(), e.clone(), text("hello"), "greeting".to_string()).unwrap();
    let snap = s.ascend_being(r.clone()).unwrap();
    assert_eq!(snap.len(), 1);
    assert_eq!(snap[0].name, "r");
    assert_eq!(snap[0].id, r);
    assert_eq!(snap[0].entities.len(), 1);
    let ent = &snap[0].entities[0];
    assert_eq!(ent.name, "s");
    assert_eq!(ent.id, e);
    assert_eq!(ent.components, vec![AscendedComponent { name: "greeting".to_string(), id: p, data: text("hello") }]);
}

#[test]
fn constitute_same_name_replaces_previous() {
    let mut s: StarSystem<Prop> = StarSystem::new();
    let r = s.conceive_being("r".to_string()).unwrap();
    let e1 = s.constitute_being(r.clone(), "s".to_string()).unwrap();
    let p1 = s.add_property(r.clone(), e1.clone(), text("hello"), "greeting".to_string()).unwrap();
    let e2 = s.constitute_being(r.clone(), "s".to_string()).unwrap();
    assert_ne!(e1, e2);
    let b = s.get_being(r.clone()).unwrap();
    assert_eq!(b.entities.iter().filter(|m| m.name == "s").count(), 1);
    assert_eq!(b.entities[0].id, e2);
    assert!(s.worlds.iter().all(|w| !w.has_component(p1.clone())));
    assert!(s.worlds.iter().all(|w| !w.has_entity(e1.clone())));
}

#[test]
fn kill_being_removes_its_entities() {
    let mut s: StarSystem<Prop> = StarSystem::new();
    let r = s.conceive_being("r".to_string()).unwrap();
    let e1 = s.constitute_being(r.clone(), "a".to_string()).unwrap();
    let e2 = s.constitute_being(r.clone(), "b".to_string()).unwrap();
    s.add_property(r.clone(), e1.clone(), Prop::Count(1), "n".to_string()).unwrap();
    assert_eq!(s.kill_being(r.clone()), Ok(()));
    assert!(s.worlds.iter().all(|w| !w.has_entity(e1.clone()) && !w.has_entity(e2.clone())));
    assert_eq!(s.beings.len(), 0);
    assert_eq!(s.kill_being(r.clone()), Err(StoreError::NotFound));
    assert!(s.get_being(r).is_err());
}

#[test]
fn remove_property_twice_is_not_found_and_harmless() {
    let mut s: StarSystem<Prop> = StarSystem::new();
    let r = s.conceive_being("r".to_string()).unwrap();
    let e = s.constitute_being(r.clone(), "s".to_string()).unwrap();
    let p = s.add_property(r.clone(), e.clone(), text("v"), "k".to_string()).unwrap();
    let q = s.add_property(r.clone(), e.clone(), Prop::Count(3), "c".to_string()).unwrap();
    assert_eq!(s.remove_property(p.clone()), Ok(()));
    let before = s.ascend_being(r.clone()).unwrap();
    assert_eq!(s.remove_property(p.clone()), Err(StoreError::NotFound));
    let after = s.ascend_being(r.clone()).unwrap();
    assert_eq!(before, after);
    assert_eq!(after[0].entities[0].components.len(), 1);
    assert_eq!(after[0].entities[0].components[0].id, q);
}

#[test]
fn mirrors_match_partition_after_updates() {
    let mut s: StarSystem<Prop> = StarSystem::new();
    let r = s.conceive_being("r".to_string()).unwrap();
    let e = s.constitute_being(r.clone(), "s".to_string()).unwrap();
    let p = s.add_property(r.clone(), e.clone(), text("a"), "a".to_string()).unwrap();
    let q = s.add_property(r.clone(), e.clone(), text("b"), "b".to_string()).unwrap();
    assert_eq!(s.set_property(r.clone(), e.clone(), p.clone(), Prop::Count(5), "five".to_string()), Ok(p.clone()));
    assert_eq!(s.set_property_by_id(q.clone(), text("bb")), Ok(q.clone()));
    let b = s.get_being(r.clone()).unwrap();
    let mirror_ids: Vec<Uid> = b.entities[0].properties.iter().map(|m| m.id.clone()).collect();
    let w = s.worlds.iter().find(|w| w.id == b.entities[0].location.world).unwrap();
    let located: Vec<Uid> = w.entities.iter().find(|x| x.0 == e).unwrap().1.location.iter().map(|l| l.1.clone()).collect();
    assert_eq!(mirror_ids, located);
    let snap = s.ascend_being(r).unwrap();
    let comps = &snap[0].entities[0].components;
    assert_eq!(comps.len(), 2);
    assert_eq!(comps[0].id, p);
    assert_eq!(comps[0].name, "five");
    assert_eq!(comps[0].data, Prop::Count(5));
    assert_eq!(comps[1].id, q);
    assert_eq!(comps[1].data, text("bb"));
}

#[test]
fn root_level_not_found_errors() {
    let mut s: StarSystem<Prop> = StarSystem::new();
    let missing = Uid::from_text("nope");
    assert_eq!(s.constitute_being(missing.clone(), "s".to_string()), Err(StoreError::NotFound));
    assert_eq!(s.dissolve_entity(missing.clone(), missing.clone()), Err(StoreError::NotFound));
    assert_eq!(s.add_property(missing.clone(), missing.clone(), text("a"), "a".to_string()), Err(StoreError::NotFound));
    assert_eq!(s.remove_property(missing.clone()), Err(StoreError::NotFound));
    assert_eq!(s.set_property_by_id(missing.clone(), text("a")), Err(StoreError::NotFound));
    assert!(s.ascend_being(missing.clone()).is_err());
    assert!(s.develop_being(missing, Vec::new()).is_err());
    assert_eq!(s.worlds.len(), 0);
}

#[test]
fn dissolve_entity_removes_it() {
    let mut s: StarSystem<Prop> = StarSystem::new();
    let r = s.conceive_being("r".to_string()).unwrap();
    let e = s.constitute_being(r.clone(), "s".to_string()).unwrap();
    assert_eq!(s.dissolve_entity(r.clone(), e.clone()), Ok(()));
    assert!(s.worlds.iter().all(|w| !w.has_entity(e.clone())));
    assert_eq!(s.get_being(r.clone()).unwrap().entities.len(), 0);
    assert_eq!(s.dissolve_entity(r, e), Err(StoreError::NotFound));
}

#[test]
fn set_being_uses_given_id() {
    let mut s: StarSystem<Prop> = StarSystem::new();
    let id = Uid::from_text("root");
    assert_eq!(s.set_being(id.clone(), "x".to_string()), Ok(id.clone()));
    assert_eq!(s.get_being(id.clone()).unwrap().name, "x");
    assert_eq!(s.set_being(id.clone(), "y".to_string()), Ok(id.clone()));
    assert_eq!(s.beings.len(), 1);
    assert_eq!(s.get_being(id).unwrap().name, "y");
}

#[test]
fn round_trip_through_snapshot() {
    let mut s: StarSystem<Prop> = StarSystem::new();
    let r = s.conceive_being("r".to_string()).unwrap();
    let e1 = s.constitute_being(r.clone(), "one".to_string()).unwrap();
    let e2 = s.constitute_being(r.clone(), "two".to_string()).unwrap();
    s.add_property(r.clone(), e1.clone(), text("t"), "text".to_string()).unwrap();
    s.add_property(r.clone(), e1.clone(), Prop::Count(42), "count".to_string()).unwrap();
    s.add_property(r.clone(), e2.clone(), Prop::Count(7), "seven".to_string()).unwrap();
    let snap = s.ascend_being(r.clone()).unwrap();

    let mut fresh: StarSystem<Prop> = StarSystem::new();
    let x = fresh.conceive_being("x".to_string()).unwrap();
    let ids = fresh.develop_being(x.clone(), snap.clone()).unwrap();
    assert_eq!(ids, vec![e1, e2]);
    let again = fresh.ascend_being(x.clone()).unwrap();
    assert_eq!(again.len(), 1);
    assert_eq!(again[0].name, "x");
    assert_eq!(again[0].id, x);
    assert_eq!(again[0].entities, snap[0].entities);
}

#[test]
fn develop_refuses_live_ids_and_empty_enumerations() {
    let mut s: StarSystem<Prop> = StarSystem::new();
    let r = s.conceive_being("r".to_string()).unwrap();
    let e = s.constitute_being(r.clone(), "s".to_string()).unwrap();
    let snap = vec![AscendedBeing {
        name: "r".to_string(),
        id: r.clone(),
        entities: vec![AscendedEntity { name: "s".to_string(), id: e, components: Vec::new() }],
    }];
    assert_eq!(s.develop_being(r, snap), Err(StoreError::InvalidOperation));
    let mut none: StarSystem<Prop> = StarSystem { worlds: Vec::new(), beings: Vec::new(), variant_count: 0 };
    let x = none.conceive_being("x".to_string()).unwrap();
    assert_eq!(none.develop_being(x, Vec::new()), Err(StoreError::InvalidOperation));
}

#[test]
fn add_property_at_bad_index_is_invalid() {
    let mut s: StarSystem<Prop> = StarSystem::new();
    let r = s.conceive_being("r".to_string()).unwrap();
    let e = s.constitute_being(r.clone(), "s".to_string()).unwrap();
    assert_eq!(s.add_property_at(r, e, 2, text("a"), "a".to_string()), Err(StoreError::InvalidOperation));
}

#[test]
fn uid_parses_and_defaults() {
    let u: Uid = "abc".parse().unwrap();
    assert_eq!(u.as_text(), "abc");
    assert_eq!(u, Uid::from_text("abc"));
    let d = Uid::default();
    assert_eq!(d.as_text().chars().count(), 128);
}

#[test]
fn being_new_starts_empty() {
    let b = starsystem::Being::new("b".to_string());
    assert_eq!(b.name, "b");
    assert!(b.entities.is_empty());
    assert_eq!(b.id.as_text().len(), 128);
}

#[test]
fn world_set_components_replaces_a_table() {
    let mut w: World<Prop> = World::new(2);
    let e = w.create_entity("e".to_string());
    let p = w.add_component_to_entity(e.clone(), text("a"), "a".to_string()).unwrap();
    let extra = Uid::from_text("extra");
    let table = vec![
        (p.clone(), Component { name: "a2".to_string(), data: text("a2") }),
        (extra.clone(), Component { name: "x".to_string(), data: text("x") }),
    ];
    assert_eq!(w.set_components(table), Ok(()));
    assert_eq!(w.components[0].len(), 2);
    let got = w.get_entity_components(e.clone()).unwrap();
    assert_eq!(got[0].1.data, text("a2"));
    assert!(w.has_component(extra));
    // a table that drops a located id is refused and changes nothing
    let missing = vec![(Uid::from_text("other"), Component { name: "o".to_string(), data: text("o") })];
    assert_eq!(w.set_components(missing), Err(StoreError::InvalidOperation));
    assert_eq!(w.components[0].len(), 2);
    // duplicate ids are refused
    let dup = vec![
        (p.clone(), Component { name: "a".to_string(), data: text("a") }),
        (p.clone(), Component { name: "b".to_string(), data: text("b") }),
    ];
    assert_eq!(w.set_components(dup), Err(StoreError::InvalidOperation));
    // an id held by another table is refused
    let q = w.add_component_to_entity(e.clone(), Prop::Count(1), "n".to_string()).unwrap();
    let clash = vec![
        (p.clone(), Component { name: "a".to_string(), data: text("a") }),
        (q, Component { name: "q".to_string(), data: text("q") }),
    ];
    assert_eq!(w.set_components(clash), Err(StoreError::InvalidOperation));
    assert_eq!(w.set_components(Vec::new()), Err(StoreError::InvalidOperation));
    assert_eq!(w.set_components_at(7, Vec::new()), Err(StoreError::InvalidOperation));
}

#[test]
fn property_mirror_names_its_owning_entity() {
    let mut s: StarSystem<Prop> = StarSystem::new();
    let r = s.conceive_being("r".to_string()).unwrap();
    let e = s.constitute_being(r.clone(), "s".to_string()).unwrap();
    let p = s.add_property(r.clone(), e.clone(), text("v"), "k".to_string()).unwrap();
    let b = s.get_being(r).unwrap();
    let m = &b.entities[0];
    assert_eq!(m.properties[0].id, p);
    assert_eq!(m.properties[0].location.entity, e);
    assert_eq!(m.properties[0].location.world, m.location.world);
}

#[test]
fn set_property_errors() {
    let mut s: StarSystem<Prop> = StarSystem::new();
    let r = s.conceive_being("r".to_string()).unwrap();
    let e1 = s.constitute_being(r.clone(), "one".to_string()).unwrap();
    let p = s.add_property(r.clone(), e1.clone(), text("v"), "k".to_string()).unwrap();
    let missing = Uid::from_text("nope");
    assert_eq!(s.set_property(missing.clone(), e1.clone(), p.clone(), text("w"), "k".to_string()), Err(StoreError::NotFound));
    assert_eq!(s.set_property(r.clone(), missing, p.clone(), text("w"), "k".to_string()), Err(StoreError::NotFound));
    assert_eq!(s.set_property_at(r.clone(), e1.clone(), p.clone(), 2, text("w"), "k".to_string()), Err(StoreError::InvalidOperation));
    // a new id is added to the sub-object and mirrored
    let fresh = Uid::from_text("fresh");
    assert_eq!(s.set_property(r.clone(), e1.clone(), fresh.clone(), Prop::Count(4), "c".to_string()), Ok(fresh.clone()));
    let b = s.get_being(r.clone()).unwrap();
    assert_eq!(b.entities[0].properties.len(), 2);
    assert_eq!(b.entities[0].properties[1].id, fresh);
}

#[test]
fn constitute_replacement_gets_a_new_id() {
    let mut s: StarSystem<Prop> = StarSystem::new();
    let r = s.conceive_being("r".to_string()).unwrap();
    let other = s.constitute_being(r.clone(), "t".to_string()).unwrap();
    let e1 = s.constitute_being(r.clone(), "s".to_string()).unwrap();
    let e2 = s.constitute_being(r.clone(), "s".to_string()).unwrap();
    assert_ne!(e1, e2);
    let b = s.get_being(r).unwrap();
    assert_eq!(b.entities.len(), 2);
    assert_eq!(b.entities[0].id, other);
    assert_eq!(b.entities[1].id, e2);
    assert_eq!(s.worlds.len(), 1);
}

#[test]
fn world_removes_orphan_entries_and_refuses_foreign_ones() {
    let mut w: World<Prop> = World::new(2);
    let e1 = w.create_entity("a".to_string());
    let e2 = w.create_entity("b".to_string());
    let p = w.add_component_to_entity(e1.clone(), text("v"), "v".to_string()).unwrap();
    assert_eq!(w.remove_component_from_entity(e2.clone(), p.clone()), Err(StoreError::InvalidOperation));
    assert!(w.has_component(p.clone()));
    let orphan = Uid::from_text("orphan");
    let table = vec![
        (p.clone(), Component { name: "v".to_string(), data: text("v") }),
        (orphan.clone(), Component { name: "o".to_string(), data: text("o") }),
    ];
    assert_eq!(w.set_components(table), Ok(()));
    assert_eq!(w.remove_component_from_entity(e2.clone(), orphan.clone()), Ok(()));
    assert!(!w.has_component(orphan.clone()));
    assert_eq!(w.remove_component_from_entity(e2, orphan), Err(StoreError::NotFound));
}

#[test]
fn set_property_keeps_mirror_position_across_variants() {
    let mut s: StarSystem<Prop> = StarSystem::new();
    let r = s.conceive_being("r".to_string()).unwrap();
    let e = s.constitute_being(r.clone(), "s".to_string()).unwrap();
    let p = s.add_property(r.clone(), e.clone(), text("a"), "a".to_string()).unwrap();
    let q = s.add_property(r.clone(), e.clone(), text("b"), "b".to_string()).unwrap();
    assert_eq!(s.set_property(r.clone(), e.clone(), p.clone(), Prop::Count(9), "nine".to_string()), Ok(p.clone()));
    let b = s.get_being(r.clone()).unwrap();
    let ids: Vec<Uid> = b.entities[0].properties.iter().map(|m| m.id.clone()).collect();
    assert_eq!(ids, vec![p.clone(), q.clone()]);
    assert_eq!(b.entities[0].properties[0].name, "nine");
    let snap = s.ascend_being(r).unwrap();
    assert_eq!(snap[0].entities[0].components[0].id, p);
    assert_eq!(snap[0].entities[0].components[0].data, Prop::Count(9));
    assert_eq!(snap[0].entities[0].components[1].id, q);
}

#[test]
fn remove_property_keeps_other_data() {
    let mut s: StarSystem<Prop> = StarSystem::new();
    let r = s.conceive_being("r".to_string()).unwrap();
    let e = s.constitute_being(r.clone(), "s".to_string()).unwrap();
    let p = s.add_property(r.clone(), e.clone(), text("a"), "a".to_string()).unwrap();
    let q = s.add_property(r.clone(), e.clone(), Prop::Count(2), "two".to_string()).unwrap();
    assert_eq!(s.remove_property(p.clone()), Ok(()));
    let snap = s.ascend_being(r).unwrap();
    assert_eq!(snap[0].entities[0].components, vec![AscendedComponent { name: "two".to_string(), id: q, data: Prop::Count(2) }]);
    assert!(s.worlds.iter().all(|w| !w.has_component(p.clone())));
}

#[test]
fn set_property_by_id_keeps_name() {
    let mut s: StarSystem<Prop> = StarSystem::new();
    let r = s.conceive_being("r".to_string()).unwrap();
    let e = s.constitute_being(r.clone(), "s".to_string()).unwrap();
    let p = s.add_property(r.clone(), e.clone(), Prop::Count(1), "one".to_string()).unwrap();
    assert_eq!(s.set_property_by_id(p.clone(), text("x")), Err(StoreError::InvalidOperation));
    assert_eq!(s.set_property_by_id(p.clone(), Prop::Count(5)), Ok(p.clone()));
    let snap = s.ascend_being(r).unwrap();
    assert_eq!(snap[0].entities[0].components[0].name, "one");
    assert_eq!(snap[0].entities[0].components[0].data, Prop::Count(5));
}

#[test]
fn develop_bare_entities_names_mirrors() {
    let mut s: StarSystem<Prop> = StarSystem::new();
    let x = s.conceive_being("x".to_string()).unwrap();
    let snap = vec![AscendedBeing {
        name: "r".to_string(),
        id: Uid::from_text("r"),
        entities: vec![
            AscendedEntity { name: "a".to_string(), id: Uid::from_text("ea"), components: Vec::new() },
            AscendedEntity {
                name: "b".to_string(),
                id: Uid::from_text("eb"),
                components: vec![AscendedComponent { name: "n".to_string(), id: Uid::from_text("pn"), data: Prop::Count(3) }],
            },
        ],
    }];
    let ids = s.develop_being(x.clone(), snap).unwrap();
    assert_eq!(ids, vec![Uid::from_text("ea"), Uid::from_text("eb")]);
    let b = s.get_being(x).unwrap();
    assert_eq!(b.entities[1].properties[0].name, "n");
    assert_eq!(b.entities[1].properties[0].location.entity, Uid::from_text("eb"));
}

use std::collections::HashSet;

use il2_groups::ast::Il2Entity;
use il2_groups::pack::generate::{generate_pack, generate_pack_named, pack_fits_check};
use il2_groups::pack::inspect_pack;
use il2_groups::parser::parse_group_file;
use il2_groups::serialize::serialize_group;

fn mcu(block: &str, index: i32, name: &str, targets: &[i32]) -> Il2Entity {
    let mut e = Il2Entity::new(block);
    e.index = Some(index);
    e.set_property("Index", &index.to_string());
    e.set_name(name);
    e.set_targets(targets.to_vec());
    e.set_property("XPos", "1000.000");
    e.set_property("ZPos", "2000.000");
    e
}

fn group(index: i32, name: &str, children: Vec<Il2Entity>) -> Il2Entity {
    let mut g = Il2Entity::new("Group");
    g.index = Some(index);
    g.set_name(name);
    g.set_property("Index", &index.to_string());
    g.set_property("Desc", "\"\"");
    g.children = children;
    g
}

/// A linked two-group fighter pack: RTB and Group for each flight, and
/// NodeGates with one gate cell per group.
fn pack2() -> Il2Entity {
    let mut plane = mcu("Plane", 4, "Lead", &[]);
    plane.set_property("LinkTrId", "5");
    let mut entity = mcu("MCU_TR_Entity", 5, "Lead entity", &[]);
    entity.set_property("MisObjID", "4");
    let group1 = group(
        3,
        "Group 1",
        vec![
            plane,
            entity,
            mcu("MCU_CheckZone", 6, "Zone IN", &[41]),
            mcu("MCU_CheckZone", 7, "Zone OUT", &[43]),
            mcu("MCU_Spawner", 8, "Enable Spawner", &[12]),
            mcu("MCU_Timer", 9, "ENABLE / PULSE IN", &[]),
            mcu("MCU_Delete", 10, "Delete Orders", &[]),
            mcu("MCU_Spawner", 11, "Disable Spawner", &[]),
            mcu("MCU_Spawner", 12, "Spawn 1", &[]),
        ],
    );
    let group2 = group(
        14,
        "Group 2",
        vec![
            mcu("MCU_CheckZone", 15, "Zone IN", &[45]),
            mcu("MCU_Spawner", 16, "Enable Spawner", &[]),
            mcu("MCU_Timer", 17, "ENABLE / PULSE IN", &[]),
            mcu("MCU_Delete", 18, "Delete Orders", &[]),
            mcu("MCU_Spawner", 19, "Disable Spawner", &[]),
        ],
    );
    let gates = group(
        39,
        "NodeGates",
        vec![
            mcu("MCU_Timer", 40, "1IN - DISABLE", &[10, 11]),
            mcu("MCU_Timer", 41, "1OUT - DISABLE", &[50]),
            mcu("MCU_Timer", 42, "1IN - ENABLE", &[8, 9]),
            mcu("MCU_Timer", 43, "1OUT - ENABLE", &[49]),
            mcu("MCU_Timer", 44, "2IN - DISABLE", &[18, 19]),
            mcu("MCU_Timer", 45, "2OUT - DISABLE", &[52]),
            mcu("MCU_Timer", 46, "2IN - ENABLE", &[16, 17]),
            mcu("MCU_Timer", 47, "2OUT - ENABLE", &[51]),
            mcu("MCU_Timer", 49, "1", &[46]),
            mcu("MCU_Timer", 50, "1", &[44]),
            mcu("MCU_Timer", 51, "2", &[42]),
            mcu("MCU_Timer", 52, "2", &[40]),
        ],
    );
    group(
        1,
        "Eastern Fighters Random 2pack",
        vec![
            mcu("MCU_Waypoint", 2, "RTB - 1", &[]),
            group1,
            mcu("MCU_Waypoint", 13, "RTB - 2", &[]),
            group2,
            gates,
        ],
    )
}

fn named_groups(root: &Il2Entity) -> usize {
    root.children
        .iter()
        .filter(|c| {
            c.block_type == "Group"
                && c.name().is_some_and(|n| n.starts_with("Group ") && n[6..].parse::<usize>().is_ok())
        })
        .count()
}

fn gates_of(pack: &Il2Entity) -> &Il2Entity {
    pack.children.iter().find(|c| c.name() == Some("NodeGates")).expect("NodeGates")
}

fn index_named(root: &Il2Entity, name: &str) -> i32 {
    root.find_by_name(name).and_then(|e| e.index).expect(name)
}

#[test]
fn generated_pack_has_one_unit_and_cell_per_group() {
    let out = generate_pack(&pack2(), 10).expect("generate 10pack");
    assert_eq!(out.name(), Some("Eastern Fighters 10pack - Linked"));
    assert_eq!(named_groups(&out), 10);
    assert_eq!(out.children.iter().filter(|c| c.block_type == "MCU_Waypoint").count(), 10);
    let gates = gates_of(&out);
    assert!(gates.find_by_name("10IN - ENABLE").is_some());
    assert!(gates.find_by_name("10OUT - DISABLE").is_some());
    assert_eq!(gates.children.len(), 60);
}

#[test]
fn generated_pack_drops_the_template_s_other_groups() {
    let out = generate_pack(&pack2(), 1).expect("generate 1pack");
    assert_eq!(named_groups(&out), 1);
    assert!(out.find_by_name("Group 2").is_none());
    assert!(out.find_by_name("RTB - 2").is_none());
    let gates = gates_of(&out);
    assert!(gates.find_by_name("2IN - ENABLE").is_none());
    assert_eq!(gates.children.len(), 6);
}

#[test]
fn zero_groups_builds_one() {
    let out = generate_pack(&pack2(), 0).unwrap();
    assert_eq!(out.name(), Some("Eastern Fighters 1pack - Linked"));
    assert_eq!(named_groups(&out), 1);
}

#[test]
fn copies_are_numbered_after_the_template() {
    // highest template Index is 52; a unit (RTB + Group 1) holds 11, a cell 6
    let out = generate_pack(&pack2(), 3).unwrap();
    let order: Vec<Option<i32>> = out.children.iter().map(|c| c.index).collect();
    assert_eq!(order, vec![Some(2), Some(3), Some(53), Some(54), Some(64), Some(65), Some(39)]);
    assert_eq!(out.index, Some(1));
    assert_eq!(out.property("Index"), Some("1"));
    assert_eq!(out.children[2].name(), Some("RTB - 2"));
    assert_eq!(out.children[3].name(), Some("Group 2"));
    assert_eq!(out.children[5].name(), Some("Group 3"));
    let gates = gates_of(&out);
    let ids: Vec<i32> = gates.children.iter().map(|c| c.index.unwrap()).collect();
    assert_eq!(ids, vec![40, 41, 42, 43, 49, 50, 75, 76, 77, 78, 79, 80, 81, 82, 83, 84, 85, 86]);
    let names: Vec<&str> = gates.children[6..12].iter().map(|c| c.name().unwrap()).collect();
    assert_eq!(names, vec!["2IN - DISABLE", "2OUT - DISABLE", "2IN - ENABLE", "2OUT - ENABLE", "2", "2"]);
}

#[test]
fn generated_indexes_are_unique() {
    let out = generate_pack(&pack2(), 4).unwrap();
    let mut ids = Vec::new();
    out.collect_indexes(&mut ids);
    let set: HashSet<i32> = ids.iter().copied().collect();
    assert_eq!(ids.len(), set.len(), "duplicate Indexes: {ids:?}");
}

#[test]
fn fanouts_skip_their_own_cell() {
    let out = generate_pack(&pack2(), 3).unwrap();
    let gates = gates_of(&out);
    let one_in = index_named(gates, "1IN - ENABLE");
    let two_in = index_named(gates, "2IN - ENABLE");
    let three_in = index_named(gates, "3IN - ENABLE");
    let fanout = gates.children.iter().find(|c| c.index == Some(49)).unwrap();
    assert_eq!(fanout.targets, vec![two_in, three_in]);
    assert!(!fanout.targets.contains(&one_in));
    let fanout_off = gates.children.iter().find(|c| c.index == Some(86)).unwrap();
    assert_eq!(fanout_off.targets, vec![40, 75]);
    assert_eq!(fanout_off.property("Targets"), Some("[40,75]"));
}

#[test]
fn copied_group_zones_point_at_their_own_out_timers() {
    let out = generate_pack(&pack2(), 3).unwrap();
    let group2 = out.find_by_name("Group 2").unwrap();
    let gates = gates_of(&out);
    let out_disable = index_named(gates, "2OUT - DISABLE");
    let out_enable = index_named(gates, "2OUT - ENABLE");
    assert_eq!(group2.find_by_name("Zone IN").unwrap().targets, vec![out_disable]);
    assert_eq!(group2.find_by_name("Zone OUT").unwrap().targets, vec![out_enable]);
    let group1 = out.find_by_name("Group 1").unwrap();
    assert_eq!(group1.find_by_name("Zone IN").unwrap().targets, vec![41]);
}

#[test]
fn in_timers_fire_their_own_group_s_spawners() {
    let out = generate_pack(&pack2(), 3).unwrap();
    let group2 = out.find_by_name("Group 2").unwrap();
    let gates = gates_of(&out);
    let in_enable = gates.find_by_name("2IN - ENABLE").unwrap();
    assert_eq!(
        in_enable.targets,
        vec![index_named(group2, "Enable Spawner"), index_named(group2, "ENABLE / PULSE IN")]
    );
    let in_disable = gates.find_by_name("2IN - DISABLE").unwrap();
    assert_eq!(
        in_disable.targets,
        vec![index_named(group2, "Delete Orders"), index_named(group2, "Disable Spawner")]
    );
    let out_enable = gates.find_by_name("2OUT - ENABLE").unwrap();
    assert_eq!(out_enable.targets, vec![79]);
}

#[test]
fn copies_keep_internal_links_and_group1_its_index() {
    let out = generate_pack(&pack2(), 3).unwrap();
    assert_eq!(out.find_by_name("Group 1").unwrap().index, Some(3));
    let group3 = out.find_by_name("Group 3").unwrap();
    assert_eq!(group3.index, Some(65));
    let plane = group3.find_by_name("Lead").unwrap();
    let entity = group3.find_by_name("Lead entity").unwrap();
    assert_eq!(plane.property("LinkTrId"), Some(entity.index.unwrap().to_string().as_str()));
    assert_eq!(entity.property("MisObjID"), Some(plane.index.unwrap().to_string().as_str()));
    let spawner = group3.find_by_name("Enable Spawner").unwrap();
    assert_eq!(spawner.targets, vec![index_named(group3, "Spawn 1")]);
}

#[test]
fn generated_pack_reads_back() {
    let out = generate_pack(&pack2(), 4).unwrap();
    let text = serialize_group(&out);
    let reparsed = parse_group_file(&text).expect("reparse generated pack");
    assert_eq!(named_groups(&reparsed), 4);
    let info = inspect_pack(&reparsed).unwrap();
    assert_eq!(info.existing_groups, 4);
    assert_eq!(info.spawn_choices, 1);
    assert!(info.has_node_gates);
}

#[test]
fn named_pack_keeps_the_given_name() {
    let out = generate_pack_named(&pack2(), 2, "NATO Fighters Wave 1 pack 1").unwrap();
    assert_eq!(out.name(), Some("NATO Fighters Wave 1 pack 1"));
    assert_eq!(named_groups(&out), 2);
}

#[test]
fn pack_errors_name_what_is_missing() {
    let mut t = pack2();
    t.children.remove(1);
    assert_eq!(generate_pack(&t, 2).unwrap_err(), "template has no Group 1");

    let mut t = pack2();
    t.children.remove(0);
    assert_eq!(generate_pack(&t, 2).unwrap_err(), "template has no RTB - 1 waypoint");

    let mut t = pack2();
    t.children.remove(4);
    assert_eq!(
        generate_pack(&t, 2).unwrap_err(),
        "template has no NodeGates group — load a linked fighter pack"
    );

    let mut t = pack2();
    t.children[4].children.remove(2);
    assert_eq!(generate_pack(&t, 2).unwrap_err(), "NodeGates is missing `1IN - ENABLE`");

    let mut t = pack2();
    t.children[4].children[3].set_targets(vec![]);
    assert_eq!(generate_pack(&t, 2).unwrap_err(), "1OUT - ENABLE has no fanout target");

    let mut t = pack2();
    t.children[4].children[1].set_targets(vec![999]);
    assert_eq!(generate_pack(&t, 2).unwrap_err(), "missing fanout-disable timer 999");
}

#[test]
fn fit_check_refuses_indexes_past_i32() {
    assert!(pack_fits_check(&pack2(), 100));
    let mut t = pack2();
    t.index = Some(i32::MAX - 20);
    assert!(pack_fits_check(&t, 2));
    assert!(!pack_fits_check(&t, 3));
    assert!(pack_fits_check(&t, 1));
    t.children.remove(1);
    assert!(pack_fits_check(&t, 3));
}

fn set_country(root: &mut Il2Entity, country: &str) {
    fn walk(e: &mut Il2Entity, country: &str) {
        if e.block_type == "Plane" {
            e.set_property("Country", country);
        }
        for c in &mut e.children {
            walk(c, country);
        }
    }
    walk(root, country);
}

#[test]
fn pack_named_after_usa_planes() {
    let mut root = pack2();
    set_country(&mut root, "601");
    let pack = generate_pack(&root, 3).expect("pack");
    assert_eq!(pack.name(), Some("USA Fighters 3pack - Linked"));
}

#[test]
fn pack_named_after_other_countries() {
    let mut root = pack2();
    set_country(&mut root, "501");
    let out = generate_pack(&root, 2).expect("pack");
    assert_eq!(out.name(), Some("USSR Fighters 2pack - Linked"));
    let mut other = pack2();
    set_country(&mut other, "503");
    assert_eq!(generate_pack(&other, 2).unwrap().name(), Some("PRC Fighters 2pack - Linked"));
    set_country(&mut other, "201");
    assert_eq!(generate_pack(&other, 2).unwrap().name(), Some("Eastern Fighters 2pack - Linked"));
}

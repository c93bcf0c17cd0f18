use il2_groups::airfield::{
    clean_airfield, collect_player_planes, plan_clean, Nearby, EASTERN_PLANE_COALITIONS, WESTERN_PLANE_COALITIONS,
};
use il2_groups::ast::Il2Entity;

fn block(kind: &str, index: i32, name: &str) -> Il2Entity {
    let mut e = Il2Entity::new(kind);
    e.index = Some(index);
    e.set_property("Index", &index.to_string());
    e.set_name(name);
    e
}

fn linked(kind: &str, index: i32, name: &str, targets: &[i32]) -> Il2Entity {
    let mut e = block(kind, index, name);
    e.set_targets(targets.to_vec());
    e
}

fn event(tar: i32) -> Il2Entity {
    let mut e = Il2Entity::new("OnEvent");
    e.set_property("Type", "2");
    e.set_property("TarId", &tar.to_string());
    e
}

/// A small airfield with one player plane and its single-player logic.
fn airfield() -> Il2Entity {
    let mut plane = block("Plane", 10, "Player");
    plane.set_property("AILevel", "0");
    plane.set_property("LinkTrId", "11");
    plane.set_property("Script", "\"LuaScripts\\WorldObjects\\Planes\\f80a.txt\"");
    plane.set_property("Country", "601");
    let mut entity = block("MCU_TR_Entity", 11, "Player entity");
    entity.set_property("MisObjID", "10");
    let mut leader = block("MCU_CheckZone", 20, "CZ_LEADER_PLAYER_OUT");
    leader.set_objects(vec![10]);
    leader.set_property("PlaneCoalitions", "[]");
    let mut bubble = linked("MCU_CheckZone", 21, "CZ_PLAYER_OUT", &[30]);
    bubble.set_objects(vec![10]);
    let mut auto = block("Group", 80, "AutoRemove");
    auto.children.push(block("MCU_Timer", 81, "Helper"));
    let mut events = Il2Entity::new("OnEvents");
    events.children = vec![event(30), event(70)];
    let mut watcher = block("MCU_Timer", 90, "Watcher");
    watcher.children.push(events);
    let mut root = block("Group", 1, "Seoul AFB");
    root.children = vec![
        plane,
        entity,
        leader,
        bubble,
        linked("MCU_Timer", 30, "Take off", &[40]),
        block("MCU_TR_Subtitle", 40, "YOU_ARE_KILLED"),
        block("MCU_TR_Subtitle", 41, "Mission Objective Subtitle"),
        block("MCU_TR_MissionObjective", 45, "Objective"),
        linked("MCU_Timer", 50, "Music", &[30]),
        block("Vehicle", 60, "Truck"),
        linked("MCU_Timer", 70, "Convoy", &[60, 30]),
        auto,
        watcher,
    ];
    root
}

/// The map facts for `root`: bubble zones and blocks next to the player.
fn nearby(root: &Il2Entity) -> Vec<Nearby> {
    let mut ns = Vec::new();
    root.collect_nodes(&mut ns);
    ns.iter()
        .map(|e| Nearby {
            small_zone: e.name() == Some("CZ_PLAYER_OUT"),
            near_player: e.name() == Some("Objective"),
        })
        .collect()
}

fn all_indexes(root: &Il2Entity) -> Vec<i32> {
    let mut ids = Vec::new();
    root.collect_indexes(&mut ids);
    ids
}

#[test]
fn plan_strips_player_logic_and_unlinks_leader_zone() {
    let root = airfield();
    let plan = plan_clean(&root, &nearby(&root));
    let mut strip: Vec<i32> = plan.strip.iter().copied().collect();
    strip.sort();
    assert_eq!(strip, vec![10, 11, 21, 30, 40, 45, 50, 80, 81]);
    let unlink: Vec<i32> = plan.unlink.iter().copied().collect();
    assert_eq!(unlink, vec![20]);
}

#[test]
fn clean_unlinks_leader_zones_and_drops_player() {
    let mut root = airfield();
    let facts = nearby(&root);
    let report = clean_airfield(&mut root, WESTERN_PLANE_COALITIONS, &facts).unwrap();
    assert_eq!(report.stripped, 9);
    assert_eq!(report.unlinked_checkzones, 1);
    assert_eq!(report.plane_coalitions, "[2]");

    assert_eq!(all_indexes(&root), vec![1, 20, 41, 60, 70, 90]);
    assert!(root.find_by_name("CZ_PLAYER_OUT").is_none());
    assert!(root.find_by_name("YOU_ARE_KILLED").is_none());
    assert!(root.find_by_name("Take off").is_none());
    assert!(root.find_by_name("AutoRemove").is_none());
    assert!(root.find_by_name("Mission Objective Subtitle").is_some());

    let leader = root.find_by_name("CZ_LEADER_PLAYER_OUT").unwrap();
    assert!(leader.objects.is_empty());
    assert_eq!(leader.property("Objects"), Some("[]"));
    assert_eq!(leader.property("PlaneCoalitions"), Some("[2]"));

    let convoy = root.find_by_name("Convoy").unwrap();
    assert_eq!(convoy.targets, vec![60]);
    assert_eq!(convoy.property("Targets"), Some("[60]"));

    let watcher = root.find_by_name("Watcher").unwrap();
    let events = &watcher.children[0];
    assert_eq!(events.children.len(), 1);
    assert_eq!(events.children[0].property("TarId"), Some("70"));
}

#[test]
fn already_clean_file_is_a_no_op() {
    let mut root = airfield();
    let facts = nearby(&root);
    clean_airfield(&mut root, WESTERN_PLANE_COALITIONS, &facts).unwrap();
    assert!(collect_player_planes(&root).is_empty());
    let before = root.clone();
    let facts = nearby(&root);
    let report = clean_airfield(&mut root, WESTERN_PLANE_COALITIONS, &facts).unwrap();
    assert_eq!(report.stripped, 0);
    assert_eq!(report.unlinked_checkzones, 0);
    assert_eq!(root, before);
}

#[test]
fn big_zones_only_lose_the_player_link() {
    let mut root = airfield();
    let facts: Vec<Nearby> = nearby(&root).iter().map(|_| Nearby { small_zone: false, near_player: false }).collect();
    let report = clean_airfield(&mut root, EASTERN_PLANE_COALITIONS, &facts).unwrap();
    // the bubble stays as a zone now, so Take off and what hangs off it stay too
    assert_eq!(report.unlinked_checkzones, 2);
    assert!(root.find_by_name("Take off").is_some());
    assert!(root.find_by_name("Objective").is_some());
    let bubble = root.find_by_name("CZ_PLAYER_OUT").unwrap();
    assert!(bubble.objects.is_empty());
    assert_eq!(bubble.property("PlaneCoalitions"), Some("[1]"));
}

#[test]
fn player_planes_are_named_by_script() {
    let root = airfield();
    let planes = collect_player_planes(&root);
    assert_eq!(planes.len(), 1);
    assert_eq!(planes[0].country, 601);
    // the raw `Script` value keeps its closing quote, as the file writes it
    assert_eq!(planes[0].name, "f80a.txt\"");
    assert!(planes[0].name.to_lowercase().contains("f80"));

    let mut bare = Il2Entity::new("Plane");
    bare.set_property("AILevel", "0");
    bare.set_property("Script", "LuaScripts/WorldObjects/Planes/yak9.txt");
    let mut group = Il2Entity::new("Group");
    group.children.push(bare);
    assert_eq!(collect_player_planes(&group)[0].name, "yak9");

    let mut plain = Il2Entity::new("Plane");
    plain.set_property("AILevel", "0");
    plain.set_name("Lead");
    let mut group = Il2Entity::new("Group");
    group.children.push(plain);
    let planes = collect_player_planes(&group);
    assert_eq!(planes[0].name, "Lead");
    assert_eq!(planes[0].country, 0);
}

#[test]
fn nothing_to_clean_leaves_auto_remove_without_indexes() {
    let mut root = Il2Entity::new("Group");
    root.children.push(Il2Entity::new("MCU_Timer"));
    let mut auto = Il2Entity::new("Group");
    auto.set_name("AutoRemove");
    root.children.push(auto);
    let before = root.clone();
    let facts = nearby(&root);
    let report = clean_airfield(&mut root, WESTERN_PLANE_COALITIONS, &facts).unwrap();
    assert_eq!(report.stripped, 0);
    assert_eq!(root, before);
}

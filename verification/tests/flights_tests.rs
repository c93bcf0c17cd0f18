use il2_groups::ast::Il2Entity;
use il2_groups::flights::ends::{flight_of_seat, install_plane_ends};
use il2_groups::flights::pack_logic::install_pack_logic;
use il2_groups::flights::edits::{split_flights, unit_entity_ids};

fn mcu(block: &str, index: i32, name: &str) -> Il2Entity {
    let mut e = Il2Entity::new(block);
    e.index = Some(index);
    e.set_property("Index", &index.to_string());
    e.set_name(name);
    e.set_targets(vec![]);
    e.set_objects(vec![]);
    e
}

fn group_one(with_waypoints: bool) -> Il2Entity {
    let mut g = mcu("Group", 1, "Group 1");
    let mut logic = mcu("Group", 2, "Logic");
    let mut c1 = mcu("MCU_CheckZone", 3, "Mission Complete 1");
    c1.set_targets(vec![9]);
    let mut c2 = mcu("MCU_CheckZone", 4, "Mission Complete 2");
    c2.set_targets(vec![9, 5]);
    let mut c9 = mcu("MCU_CheckZone", 6, "Mission Complete 9");
    c9.set_targets(vec![9]);
    logic.children = vec![c1, c2, c9, mcu("MCU_Timer", 9, "MISSION END")];
    g.children = vec![logic];
    if with_waypoints {
        g.children.push(mcu("Group", 7, "Waypoints"));
    }
    g
}

#[test]
fn seats_map_to_flights() {
    assert_eq!(flight_of_seat(&[2, 1], 0), Some(0));
    assert_eq!(flight_of_seat(&[2, 1], 1), Some(0));
    assert_eq!(flight_of_seat(&[2, 1], 2), Some(1));
    assert_eq!(flight_of_seat(&[2, 1], 3), None);
    assert_eq!(flight_of_seat(&[], 0), None);
}

#[test]
fn plane_ends_wire_cleanup_per_plane() {
    let mut g = group_one(false);
    let force = mcu("MCU_CMD_ForceComplete", 50, "Force Complete - High");
    let timer = mcu("MCU_Timer", 51, "ENABLE / PULSE IN");
    let deact = mcu("MCU_Deactivate", 52, "Deactivate Units");
    let rtb = mcu("MCU_Waypoint", 53, "RTB - 1");
    let mut next = 100;
    install_plane_ends(&mut g, &[20, 21], &[1, 1], &[70, 71], &force, &timer, &deact, &rtb, 9, "30", &mut next)
        .unwrap();
    // two planes, six blocks each, then the new Waypoints group
    assert_eq!(next, 113);
    let logic = g.find_by_name("Logic").unwrap();
    assert_eq!(logic.children.len(), 4 + 10);
    let cleanup1 = logic.find_by_name("CLEANUP 1").unwrap();
    assert_eq!(cleanup1.index, Some(105));
    assert_eq!(cleanup1.targets, vec![100, 102, 104]);
    assert_eq!(cleanup1.property("Time"), Some("0.1"));
    let force1 = logic.find_by_name("Force Complete 1").unwrap();
    assert_eq!(force1.objects, vec![20]);
    let delay1 = logic.find_by_name("Delay Delete 1").unwrap();
    assert_eq!(delay1.property("Time"), Some("30"));
    assert_eq!(delay1.targets, vec![103, 70]);
    let delay2 = logic.find_by_name("Delay Delete 2").unwrap();
    assert_eq!(delay2.targets, vec![109, 71]);
    let rtb_delay = logic.find_by_name("RTB DELAY 2").unwrap();
    assert_eq!(rtb_delay.targets, vec![107]);
    assert_eq!(g.find_by_name("Mission Complete 1").unwrap().targets, vec![105]);
    assert_eq!(g.find_by_name("Mission Complete 2").unwrap().targets, vec![111, 5]);
    assert_eq!(g.find_by_name("Mission Complete 2").unwrap().property("Targets"), Some("[111,5]"));
    assert_eq!(g.find_by_name("Mission Complete 9").unwrap().targets, vec![9]);
    let wps = g.find_by_name("Waypoints").unwrap();
    assert_eq!(wps.index, Some(112));
    assert_eq!(wps.children.len(), 2);
    assert_eq!(wps.children[0].name(), Some("RTB Plane 1"));
    assert_eq!(wps.children[0].objects, vec![20]);
    assert!(wps.children[0].targets.is_empty());
}

#[test]
fn plane_ends_join_existing_waypoints_and_report_missing_index() {
    let mut g = group_one(true);
    let force = mcu("MCU_CMD_ForceComplete", 50, "Force");
    let timer = mcu("MCU_Timer", 51, "Timer");
    let deact = mcu("MCU_Deactivate", 52, "Deact");
    let rtb = mcu("MCU_Waypoint", 53, "RTB - 1");
    let mut next = 100;
    install_plane_ends(&mut g, &[20], &[1], &[], &force, &timer, &deact, &rtb, 9, "30", &mut next).unwrap();
    assert_eq!(next, 106);
    assert_eq!(g.find_by_name("Waypoints").unwrap().children.len(), 1);
    assert_eq!(g.find_by_name("Delay Delete 1").unwrap().targets, vec![103]);

    let mut h = group_one(false);
    let mut bad = mcu("MCU_Waypoint", 53, "RTB - 1");
    bad.index = None;
    let mut next = 100;
    let err = install_plane_ends(&mut h, &[20], &[1], &[70], &force, &timer, &deact, &bad, 9, "30", &mut next)
        .unwrap_err();
    assert_eq!(err, "RTB Plane missing Index");
    assert_eq!(next, 101);
    assert_eq!(h.find_by_name("Logic").unwrap().children.len(), 4);
}

fn plane(index: i32, old_death: &str, old_spawn: &str) -> Il2Entity {
    let mut p = mcu("MCU_TR_Entity", index, "Plane entity");
    let mut ev = Il2Entity::new("OnEvent");
    ev.set_property("TarId", old_death);
    let mut rep = Il2Entity::new("OnReport");
    rep.set_property("CmdId", old_spawn);
    p.children = vec![ev, rep];
    p
}

fn pack_group() -> Il2Entity {
    let mut g = mcu("Group", 1, "Group 1");
    let mut units = mcu("Group", 2, "Units");
    units.children = vec![plane(10, "31", "30"), plane(11, "31", "30")];
    let mut logic = mcu("Group", 3, "Logic");
    logic.children = vec![
        mcu("MCU_Timer", 20, "ENABLE / PULSE IN"),
        mcu("MCU_Deactivate", 21, "Deact"),
        mcu("MCU_Activate", 22, "Act"),
        mcu("MCU_Spawner", 30, "Trigger Spawner"),
        mcu("MCU_Counter", 31, "DeathCount"),
        mcu("MCU_Counter", 32, "SpawnCount"),
        mcu("MCU_CMD_ForceComplete", 23, "Force Complete - High"),
        mcu("MCU_Timer", 24, "MISSION END"),
        mcu("MCU_CheckZone", 25, "Zone IN"),
        mcu("MCU_CheckZone", 26, "Zone Out"),
        mcu("MCU_Timer", 27, "COOLDOWN"),
        mcu("MCU_Timer", 28, "DELAYED END ORDERS"),
        mcu("MCU_Timer", 29, "SPAWN UNITS"),
        mcu("MCU_Activate", 33, "DeathCount ReActivate"),
        mcu("MCU_Deactivate", 34, "DeathCount Deactivate"),
        mcu("MCU_Timer", 35, "Modifier Set Value"),
        mcu("MCU_CMD_Cover", 36, "cover a"),
        mcu("MCU_CMD_Cover", 37, "cover b"),
    ];
    g.children = vec![units, logic];
    g
}

fn nested_prop(e: &Il2Entity, block: &str, key: &str) -> Option<String> {
    e.children.iter().find(|c| c.block_type == block).and_then(|c| c.property(key).map(|s| s.to_string()))
}

#[test]
fn pack_logic_wires_two_single_ship_flights() {
    let mut g = pack_group();
    let rtb = mcu("MCU_Waypoint", 5, "RTB");
    install_pack_logic(&mut g, &[1, 1], "300", "30", &rtb).unwrap();
    assert!(g.find_by_name("Zone Out").is_none());
    assert!(g.find_by_name("Zone OUT").is_some());
    assert_eq!(g.find_by_name("Delay Delete").unwrap().property("Time"), Some("30"));
    let cool = g.find_by_name("COOLDOWN").unwrap();
    assert_eq!(cool.property("Time"), Some("300"));
    assert_eq!(cool.targets, vec![42]);
    assert_eq!(g.find_by_name("Cover Wing 1").unwrap().index, Some(36));
    assert_eq!(g.find_by_name("Cover Wing 2").unwrap().index, Some(37));
    assert_eq!(g.find_by_name("SPAWN UNITS").unwrap().targets, vec![42]);
    assert_eq!(g.find_by_name("DeathCount ReActivate").unwrap().targets, vec![39, 41]);
    assert_eq!(g.find_by_name("DeathCount Deactivate").unwrap().targets, vec![39, 41]);
    assert_eq!(g.find_by_name("Modifier Set Value").unwrap().targets, vec![39, 41]);

    let logic = g.find_by_name("Logic").unwrap();
    assert!(logic.find_by_name("Trigger Spawner").is_none());
    assert!(logic.find_by_name("SpawnCount").is_none());
    let death = logic.find_by_name("DeathCount").unwrap();
    assert_eq!(death.index, Some(39));
    assert_eq!(death.property("Counter"), Some("1"));
    assert_eq!(death.property("Dropcount"), Some("1"));
    assert_eq!(death.targets, vec![27]);
    let enable = logic.find_by_name("Enable Spawner").unwrap();
    assert_eq!(enable.index, Some(64));
    assert_eq!(enable.block_type, "MCU_Activate");
    assert_eq!(enable.targets, vec![25]);
    assert!(enable.objects.is_empty());
    assert_eq!(logic.find_by_name("Disable Spawner").unwrap().index, Some(65));
    let del = logic.find_by_name("Delete Orders").unwrap();
    assert_eq!(del.index, Some(66));
    assert_eq!(del.property("Time"), Some("0.02"));
    assert_eq!(del.targets, vec![24]);

    let units = g.find_by_name("Units").unwrap();
    assert_eq!(nested_prop(&units.children[0], "OnEvent", "TarId").as_deref(), Some("39"));
    assert_eq!(nested_prop(&units.children[0], "OnReport", "CmdId").as_deref(), Some("38"));
    assert_eq!(nested_prop(&units.children[1], "OnEvent", "TarId").as_deref(), Some("41"));
    assert_eq!(nested_prop(&units.children[1], "OnReport", "CmdId").as_deref(), Some("40"));

    assert_eq!(g.find_by_name("Waypoints").unwrap().index, Some(63));
    let rnd = g.children.last().unwrap();
    assert_eq!(rnd.name(), Some("Randomizer"));
    assert_eq!(rnd.index, Some(67));
    assert_eq!(rnd.children[0].name(), Some("Randomizer:INPUT"));
    assert_eq!(rnd.children[0].index, Some(42));
    assert_eq!(rnd.children[0].targets, vec![45, 43, 46, 49]);
    let r1 = rnd.find_by_name("Random 1:50% 500ms").unwrap();
    assert_eq!(r1.property("Random"), Some("50"));
    assert_eq!(r1.property("Time"), Some("0.5"));
    let spawn1 = rnd.find_by_name("Spawn 1").unwrap();
    assert_eq!(spawn1.index, Some(38));
    assert_eq!(spawn1.objects, vec![10]);
    assert_eq!(rnd.find_by_name("Out 2").unwrap().targets, vec![40]);
}

#[test]
fn pack_logic_reports_missing_blocks_and_plane_count() {
    let mut g = pack_group();
    let rtb = mcu("MCU_Waypoint", 5, "RTB");
    assert_eq!(install_pack_logic(&mut g, &[2, 1], "300", "30", &rtb), Err("template placed 2 units, expected 3".to_string()));
    // the renames were made before the failure
    assert!(g.find_by_name("Zone OUT").is_some());
    assert!(g.find_by_name("Trigger Spawner").is_some());

    let mut g = pack_group();
    g.children[1].children.retain(|c| c.name() != Some("Zone IN"));
    assert_eq!(install_pack_logic(&mut g, &[1, 1], "300", "30", &rtb), Err("missing Zone IN".to_string()));

    let mut g = pack_group();
    g.children[1].children.retain(|c| c.name() != Some("DeathCount"));
    assert_eq!(
        install_pack_logic(&mut g, &[1, 1], "300", "30", &rtb),
        Err("missing `DeathCount` prototype".to_string())
    );

    let mut g = pack_group();
    let mut no_index = Il2Entity::new("MCU_Waypoint");
    no_index.set_name("RTB");
    assert_eq!(install_pack_logic(&mut g, &[1, 1], "300", "30", &no_index), Err("RTB Plane missing Index".to_string()));
    // the planes were relinked before the plane ends failed
    let units = g.find_by_name("Units").unwrap();
    assert_eq!(nested_prop(&units.children[0], "OnEvent", "TarId").as_deref(), Some("39"));
}

#[test]
fn split_flights_cuts_planes_in_seat_order() {
    let fs = split_flights(&[10, 11, 12, 13, 14], &[3, 2]).unwrap();
    assert_eq!(fs.len(), 2);
    assert_eq!(fs[0].entity_ids, vec![10, 11, 12]);
    assert_eq!(fs[0].leads, vec![10, 12]);
    assert_eq!(fs[0].wings, vec![11]);
    assert_eq!(fs[1].entity_ids, vec![13, 14]);
    assert_eq!(fs[1].leads, vec![13]);
    assert_eq!(fs[1].wings, vec![14]);
    assert_eq!(
        split_flights(&[10, 11], &[2, 1]).err(),
        Some("template placed 2 units, expected 3".to_string())
    );
    assert_eq!(unit_entity_ids(&pack_group()), vec![10, 11]);
}

use il2_groups::ast::Il2Entity;
use il2_groups::bombers::link::link_fits_check;
use il2_groups::bombers::{
    cleanup_coverage_warning, extract_exclusive_plans, inspect_plan, link_bomber_plans,
    looks_like_exclusive_pack, trigger_zone_warning, BomberInput,
};

fn mcu(block: &str, index: i32, name: Option<&str>) -> Il2Entity {
    let mut e = Il2Entity::new(block);
    e.index = Some(index);
    e.set_property("Index", &index.to_string());
    if let Some(n) = name {
        e.set_name(n);
    }
    e
}

#[test]
fn inspect_trigger_zone_flags_closer_coalitions_and_activate_path() {
    let mut plane = mcu("Plane", 10, None);
    plane.set_property("LinkTrId", "11");
    plane.set_name("Lead");

    let mut bad = mcu("MCU_CheckZone", 1, Some("Zone IN"));
    bad.set_property("Closer", "0");

    let timer = mcu("MCU_Timer", 2, Some("END"));

    let mut root = Il2Entity::new("Group");
    root.set_name("Bad Zone");
    root.children = vec![bad, plane.clone(), timer.clone()];
    let info = inspect_plan(&root).unwrap();
    let msg = info.trigger_warnings.get(&1).expect("bad zone");
    assert!(msg.contains("Closer"), "{msg}");
    assert!(msg.contains("coalitions"), "{msg}");
    assert!(msg.contains("Activate") || msg.contains("Spawner"), "{msg}");

    let mut good = mcu("MCU_CheckZone", 1, Some("Zone IN"));
    good.set_property("Closer", "1");
    good.set_property("PlaneCoalitions", "[2]");
    good.set_targets(vec![3]);
    let mut act = mcu("MCU_Activate", 3, Some("Activate Units"));
    act.set_objects(vec![11]);
    let mut root = Il2Entity::new("Group");
    root.set_name("Good Zone");
    root.children = vec![good, plane, act, timer];
    let info = inspect_plan(&root).unwrap();
    assert!(
        info.trigger_warnings.get(&1).is_none(),
        "got {:?}",
        info.trigger_warnings.get(&1)
    );
}

#[test]
fn unnamed_template_has_no_suggestions() {
    let zone = mcu("MCU_CheckZone", 1, Some("Alpha"));
    let timer = mcu("MCU_Timer", 2, Some("Done"));
    let mut root = Il2Entity::new("Group");
    root.set_name("Odd Plan");
    root.children = vec![zone, timer];
    let info = inspect_plan(&root).unwrap();
    assert!(info.suggested_triggers.is_empty());
    assert!(info.suggested_completion.is_none());
    assert_eq!(info.checkzones.len(), 1);
    assert_eq!(info.timers.len(), 1);
}

#[test]
fn inspect_prefers_mission_end_timer() {
    let zone = mcu("MCU_CheckZone", 1, Some("Zone IN"));
    let plane = mcu("Plane", 2, None);
    let mut dump = mcu("MCU_Delete", 3, None);
    dump.set_objects(vec![2]);
    let mut end = mcu("MCU_Timer", 4, Some("MISSION END"));
    end.set_targets(vec![3]);
    let mut other = mcu("MCU_Timer", 5, Some("Delay Delete"));
    other.set_targets(vec![3]);
    let mut root = Il2Entity::new("Group");
    root.set_name("End Named");
    root.children = vec![zone, plane, dump, end, other];
    let info = inspect_plan(&root).unwrap();
    assert_eq!(info.suggested_completion, Some(4));
}

#[test]
fn inspect_end_timer_that_deletes_units() {
    let zone = mcu("MCU_CheckZone", 1, Some("Zone IN"));
    let vehicle = mcu("Vehicle", 10, None);
    let mut deact = mcu("MCU_Deactivate", 11, Some("Park"));
    deact.set_objects(vec![10]);
    let mut end = mcu("MCU_Timer", 12, Some("Wrap up"));
    end.set_targets(vec![11]);
    let mut root = Il2Entity::new("Group");
    root.set_name("Structural End");
    root.children = vec![zone, vehicle, deact, end];
    let info = inspect_plan(&root).unwrap();
    assert_eq!(info.suggested_completion, Some(12));
    assert_eq!(info.unit_count, 1);
}

#[test]
fn inspect_refuses_a_group_without_checkzones() {
    let timer = mcu("MCU_Timer", 2, Some("END"));
    let mut root = Il2Entity::new("Group");
    root.set_name("No Zones");
    root.children = vec![timer];
    assert!(inspect_plan(&root).is_err());
}

#[test]
fn cleanup_warning_names_units_left_behind() {
    let a = mcu("Vehicle", 10, None);
    let b = mcu("Vehicle", 11, None);
    let mut deact = mcu("MCU_Deactivate", 12, Some("Park"));
    deact.set_objects(vec![10]);
    let mut end = mcu("MCU_Timer", 13, Some("END"));
    end.set_targets(vec![12]);
    let mut root = Il2Entity::new("Group");
    root.children = vec![a, b, deact, end];
    let warn = cleanup_coverage_warning(&root, 13).expect("partial cleanup");
    assert!(warn.contains("unit"), "{warn}");

    let mut both = mcu("MCU_Deactivate", 12, Some("Park"));
    both.set_objects(vec![10, 11]);
    let mut end = mcu("MCU_Timer", 13, Some("END"));
    end.set_targets(vec![12]);
    let mut root = Il2Entity::new("Group");
    root.children = vec![mcu("Vehicle", 10, None), mcu("Vehicle", 11, None), both, end];
    assert!(cleanup_coverage_warning(&root, 13).is_none());
}

#[test]
fn trigger_warning_is_none_for_missing_zone() {
    let mut root = Il2Entity::new("Group");
    root.children = vec![mcu("MCU_Timer", 2, Some("END"))];
    assert!(trigger_zone_warning(&root, 99).is_none());
}

fn sample_pack(name: &str) -> Il2Entity {
    let mut gate = mcu("MCU_Activate", 100, Some("Gate 1"));
    gate.set_targets(vec![101]);
    let gate_b = mcu("MCU_Deactivate", 101, Some("Gate 2"));
    let mut gates = Il2Entity::new("Group");
    gates.set_name("NodeGates");
    gates.children = vec![gate, gate_b];

    let mut zone_a = mcu("MCU_CheckZone", 1, Some("Zone IN"));
    zone_a.set_targets(vec![100, 2]);
    let mut end_a = mcu("MCU_Timer", 2, Some("END"));
    end_a.set_objects(vec![101]);
    let mut plan_a = Il2Entity::new("Group");
    plan_a.set_name("Plan A [1]");
    plan_a.children = vec![zone_a, end_a];

    let mut zone_b = mcu("MCU_CheckZone", 3, Some("Zone IN"));
    zone_b.set_targets(vec![4]);
    let end_b = mcu("MCU_Timer", 4, Some("END"));
    let mut plan_b = Il2Entity::new("Group");
    plan_b.set_name("Plan B *2*");
    plan_b.children = vec![zone_b, end_b];

    let mut pack = Il2Entity::new("Group");
    pack.set_name(name);
    pack.children = vec![gates, plan_a, plan_b];
    pack
}

#[test]
fn looks_like_pack_and_extract_strips_gates() {
    let pack = sample_pack("Pack");
    assert!(looks_like_exclusive_pack(&pack));
    let plans = extract_exclusive_plans(&pack).unwrap();
    assert_eq!(plans.len(), 2);
    assert_eq!(plans[0].name(), Some("Plan A"));
    assert_eq!(plans[1].name(), Some("Plan B"));
    let zone = plans[0].find_by_name("Zone IN").unwrap();
    assert_eq!(zone.targets, vec![2]);
    assert_eq!(zone.property("Targets"), Some("[2]"));
    let end = plans[0].find_by_name("END").unwrap();
    assert!(end.objects.is_empty());
    let untouched = plans[1].find_by_name("Zone IN").unwrap();
    assert_eq!(untouched.targets, vec![4]);
    assert_eq!(untouched.property("Targets"), Some("[4]"));

    let mut wrapped = Il2Entity::new("Group");
    wrapped.set_name("Mission");
    wrapped.children.push(pack.clone());
    assert!(looks_like_exclusive_pack(&wrapped));
    assert_eq!(extract_exclusive_plans(&wrapped).unwrap().len(), 2);
}

#[test]
fn plain_template_is_not_a_pack() {
    let zone = mcu("MCU_CheckZone", 1, Some("Zone IN"));
    let mut root = Il2Entity::new("Group");
    root.set_name("DPRK Bombers");
    root.children = vec![zone];
    assert!(!looks_like_exclusive_pack(&root));
    let err = extract_exclusive_plans(&root).unwrap_err();
    assert!(err.starts_with("not an Exclusive Activation pack"));
}

#[test]
fn named_pack_without_plans_is_refused() {
    let mut root = Il2Entity::new("Group");
    root.set_name("Exclusive Activation");
    assert!(looks_like_exclusive_pack(&root));
    let err = extract_exclusive_plans(&root).unwrap_err();
    assert_eq!(err, "that Exclusive Activation file has no plan groups");
}

fn plan(label: &str, name: &str, zone: i32, end: i32, activate: Option<i32>) -> BomberInput {
    let mut root = Il2Entity::new("Group");
    root.set_name(name);
    let mut kids = vec![mcu("MCU_CheckZone", zone, Some("Zone IN")), mcu("MCU_Timer", end, Some("END"))];
    if let Some(a) = activate {
        kids.push(mcu("MCU_Activate", a, Some("Act")));
    }
    root.children = kids;
    BomberInput {
        label: label.to_string(),
        source_key: label.to_string(),
        root,
        trigger_zone_ids: vec![zone],
        completion_timer_id: end,
    }
}

#[test]
fn linking_two_plans_builds_a_mutex() {
    let plans = vec![plan("a", "Plan A", 1, 2, Some(3)), plan("b", "Plan B", 10, 11, None)];
    let out = link_bomber_plans(&plans).unwrap();
    assert_eq!(out.name(), Some("Exclusive Activation"));
    assert_eq!(out.index, Some(33));
    assert_eq!(out.children.len(), 3);
    let a = &out.children[0];
    let b = &out.children[1];
    assert_eq!(a.name(), Some("Plan A [1]"));
    assert_eq!(b.name(), Some("Plan B [2]"));
    let mut ids = Vec::new();
    out.collect_indexes(&mut ids);
    let mut sorted = ids.clone();
    sorted.sort();
    sorted.dedup();
    assert_eq!(sorted.len(), ids.len());
    // trigger zone fires OUT - DISABLE, end timer fires OUT - ENABLE
    assert_eq!(a.children[0].index, Some(12));
    assert_eq!(a.children[0].targets, vec![20]);
    assert_eq!(a.children[1].targets, vec![19]);
    assert_eq!(b.children[0].targets, vec![28]);
    assert_eq!(b.children[1].targets, vec![27]);
    let gates = &out.children[2];
    assert_eq!(gates.name(), Some("NodeGates"));
    assert_eq!(gates.index, Some(34));
    assert_eq!(gates.children.len(), 16);
    let names: Vec<&str> = gates.children[..8].iter().map(|c| c.name().unwrap()).collect();
    assert_eq!(
        names,
        vec!["1IN - DISABLE", "1OUT - DISABLE", "1IN - ENABLE", "1OUT - ENABLE", "1", "1", "1 Open Zones", "1 Close Zones"]
    );
    let in_enable = &gates.children[2];
    assert_eq!(in_enable.index, Some(17));
    assert_eq!(in_enable.targets, vec![23]);
    assert_eq!(in_enable.property("Time"), Some("0"));
    assert_eq!(in_enable.property("Random"), Some("100"));
    let fanout_enable = &gates.children[4];
    assert_eq!(fanout_enable.targets, vec![25]);
    let fanout_disable = &gates.children[5];
    assert_eq!(fanout_disable.targets, vec![26]);
    let open = &gates.children[6];
    assert_eq!(open.block_type, "MCU_Activate");
    assert_eq!(open.targets, vec![12]);
    let close = &gates.children[7];
    assert_eq!(close.block_type, "MCU_Deactivate");
    assert_eq!(close.index, Some(24));
    assert_eq!(close.targets, vec![12]);
    assert_eq!(gates.children[12].targets, vec![17]);
}

#[test]
fn linking_reports_bad_plans() {
    assert_eq!(link_bomber_plans(&[]).unwrap_err(), "add at least one template");
    let mut no_zone = plan("a", "Plan A", 1, 2, None);
    no_zone.trigger_zone_ids.clear();
    assert_eq!(
        link_bomber_plans(&[no_zone]).unwrap_err(),
        "plan 1 needs at least one trigger checkzone"
    );
    let mut lost_end = plan("b", "Plan B", 1, 2, None);
    lost_end.completion_timer_id = 99;
    assert_eq!(
        link_bomber_plans(&[plan("a", "Plan A", 1, 2, None), lost_end]).unwrap_err(),
        "plan 2 end trigger timer was not found in the template"
    );
    let mut lost_zone = plan("a", "Plan A", 1, 2, None);
    lost_zone.trigger_zone_ids.push(-5);
    assert_eq!(
        link_bomber_plans(&[lost_zone]).unwrap_err(),
        "plan 1 checkzone -5 was not found in the template"
    );
    let mut no_timer = plan("a", "Plan A", 1, 2, None);
    no_timer.root.children[1].block_type = "MCU_Delete".to_string();
    assert_eq!(
        link_bomber_plans(&[no_timer]).unwrap_err(),
        "template has no MCU_Timer to clone for NodeGates"
    );
}

#[test]
fn link_fits_check_spots_index_overflow_and_missing_index() {
    let plans = vec![plan("a", "Plan A", 1, 2, Some(3)), plan("b", "Plan B", 10, 11, None)];
    assert!(link_fits_check(&plans));
    assert!(link_fits_check(&[]));
    // a template near the top of the Index range leaves no room for the copies
    let high = vec![plan("a", "Plan A", 1, i32::MAX - 2, None)];
    assert!(!link_fits_check(&high));
    // an activate prototype without an Index cannot be cloned
    let mut bare = plan("a", "Plan A", 1, 2, None);
    bare.root.children.push(Il2Entity::new("MCU_Activate"));
    assert!(!link_fits_check(&[bare]));
}

#[test]
fn linked_pack_is_recognised_and_extracts_back_to_its_plans() {
    let plans = vec![plan("a", "Plan A", 1, 2, Some(3)), plan("b", "Plan B", 10, 11, None)];
    let out = link_bomber_plans(&plans).unwrap();
    assert!(looks_like_exclusive_pack(&out));
    let mut wrapper = Il2Entity::new("Group");
    wrapper.set_name("Editor group");
    wrapper.children = vec![out.clone()];
    assert!(looks_like_exclusive_pack(&wrapper));
    let back = extract_exclusive_plans(&out).unwrap();
    assert_eq!(back.len(), 2);
    assert_eq!(back[0].name(), Some("Plan A"));
    assert_eq!(back[1].name(), Some("Plan B"));
    let plain = plan("c", "Plan C", 1, 2, None).root;
    assert!(!looks_like_exclusive_pack(&plain));
    assert!(extract_exclusive_plans(&plain).is_err());
}

use il2_groups::ast::Il2Entity;
use il2_groups::recon::{
    allocate_copies, allocate_mix, combine_placed_packs, copy_type_name, looks_like_placed_pack,
    generate_recon, partition_sizes, placed_copy_count, random_pct, restore_always_on, restore_start_choices,
    strip_randomizer, ReconInput,
    wanted_winners, RestoreKind, TypeMix,
};

#[test]
fn allocate_splits_by_weight() {
    assert_eq!(allocate_copies(&[1, 1, 1, 1, 1], 100), vec![20, 20, 20, 20, 20]);
    assert_eq!(allocate_copies(&[50, 30, 20], 10), vec![5, 3, 2]);
    assert_eq!(allocate_copies(&[1, 0], 8), vec![8, 0]);
    let mix = allocate_mix(&[50, 50], 10, 50);
    assert_eq!(
        mix,
        vec![TypeMix { copies: 5, activate: 3 }, TypeMix { copies: 5, activate: 3 }]
    );
    assert_eq!(mix.iter().map(|m| m.activate).sum::<usize>(), 6);
    assert_ne!(wanted_winners(10, 50), 6);
}

#[test]
fn wanted_and_waterfall_percents() {
    assert_eq!(wanted_winners(2, 50), 1);
    assert_eq!(wanted_winners(2, 100), 2);
    assert_eq!(wanted_winners(100, 20), 20);
    assert_eq!(wanted_winners(2, 20), 1);
    assert_eq!(random_pct(0, 1), 100);
    assert_eq!(random_pct(0, 2), 50);
    assert_eq!(random_pct(1, 2), 100);
    assert_eq!(random_pct(0, 4), 25);
    assert_eq!(random_pct(3, 4), 100);
    assert_eq!(partition_sizes(2, 1), vec![2]);
    assert_eq!(partition_sizes(2, 2), vec![1, 1]);
    assert_eq!(partition_sizes(10, 2), vec![5, 5]);
    assert_eq!(partition_sizes(3, 2), vec![2, 1]);
}

#[test]
fn copy_type_name_strips_generator_and_editor_suffixes() {
    assert_eq!(copy_type_name("DPRK Truck Run [1]"), "DPRK Truck Run");
    assert_eq!(copy_type_name("DPRK Truck Run *53*"), "DPRK Truck Run");
    assert_eq!(copy_type_name("DPRK Forces - Static Truck Line"), "DPRK Forces - Static Truck Line");
    assert_eq!(copy_type_name("Russian BM13 Artillery *10*"), "Russian BM13 Artillery");
}

#[test]
fn largest_remainders_break_ties_by_order() {
    assert_eq!(allocate_copies(&[1, 1, 1], 4), vec![2, 1, 1]);
    assert_eq!(allocate_copies(&[1, 2], 2), vec![1, 1]);
    assert_eq!(allocate_copies(&[0, 0], 5), vec![0, 0]);
    assert_eq!(allocate_copies(&[3, 7], 0), vec![0, 0]);
    assert!(allocate_copies(&[], 5).is_empty());
    let total: usize = allocate_copies(&[7, 11, 13, 17], 29).iter().sum();
    assert_eq!(total, 29);
}

#[test]
fn suffix_edge_cases() {
    assert_eq!(copy_type_name("  Tank Company [12]  "), "Tank Company");
    assert_eq!(copy_type_name("Odd []"), "Odd []");
    assert_eq!(copy_type_name("Star **"), "Star **");
    assert_eq!(copy_type_name("Mixed *3* [4]"), "Mixed *3*");
    assert_eq!(copy_type_name("x[1]y"), "x[1]y");
    assert_eq!(wanted_winners(0, 50), 0);
    assert_eq!(wanted_winners(3, 0), 1);
    assert!(partition_sizes(0, 3).is_empty());
    assert_eq!(partition_sizes(2, 5), vec![1, 1]);
}

fn copy_group(name: &str, group_index: i32, vehicle: i32) -> Il2Entity {
    let mut v = Il2Entity::new("Vehicle");
    v.index = Some(vehicle);
    v.set_property("Index", &vehicle.to_string());
    let mut t = Il2Entity::new("MCU_Timer");
    t.index = Some(vehicle + 1);
    t.set_property("Index", &(vehicle + 1).to_string());
    t.set_targets(vec![vehicle]);
    let mut g = Il2Entity::new("Group");
    g.index = Some(group_index);
    g.set_property("Index", &group_index.to_string());
    g.set_name(name);
    g.children = vec![v, t];
    g
}

fn placed_sample() -> Il2Entity {
    let mut randomizer = Il2Entity::new("Group");
    randomizer.set_name("Recon Randomizer");
    let mut root = Il2Entity::new("Group");
    root.set_name("Random Ground Units 3");
    root.children = vec![
        copy_group("Truck Run [1]", 5, 10),
        copy_group("Truck Run [2]", 6, 20),
        copy_group("Tank Line *5*", 7, 30),
        randomizer,
    ];
    root
}

#[test]
fn placed_pack_is_recognised_and_counted() {
    let pack = placed_sample();
    assert!(looks_like_placed_pack(&pack));
    assert_eq!(placed_copy_count(&pack), 3);
    let mut wrapped = Il2Entity::new("Group");
    wrapped.set_name("Mission");
    wrapped.children.push(pack);
    assert!(looks_like_placed_pack(&wrapped));
    assert_eq!(placed_copy_count(&wrapped), 3);
}

#[test]
fn two_copies_of_one_template_make_a_pack() {
    let mut root = Il2Entity::new("Group");
    root.set_name("Export");
    root.children = vec![copy_group("Convoy", 1, 10), copy_group("Convoy ", 2, 20)];
    assert!(looks_like_placed_pack(&root));
    let mut single = Il2Entity::new("Group");
    single.set_name("Export");
    single.children = vec![copy_group("Convoy", 1, 10), copy_group("Tanks", 2, 20)];
    assert!(!looks_like_placed_pack(&single));
    assert_eq!(placed_copy_count(&single), 2);
}

#[test]
fn combine_keeps_chosen_types_with_fresh_indexes() {
    let out = combine_placed_packs(&[placed_sample()], &["Truck Run".to_string()]).unwrap();
    assert_eq!(out.children.len(), 2);
    assert_eq!(out.name(), Some("Random Ground Units 2"));
    assert_eq!(out.index, Some(7));
    assert_eq!(out.property("Index"), Some("7"));
    assert_eq!(out.property("Desc"), Some("\"\""));
    let mut ids = Vec::new();
    out.collect_indexes(&mut ids);
    assert_eq!(ids, vec![7, 1, 2, 3, 4, 5, 6]);
    let timer = &out.children[1].children[1];
    assert_eq!(timer.targets, vec![5]);
    assert_eq!(out.children[0].name(), Some("Truck Run [1]"));
}

#[test]
fn combine_reports_empty_inputs() {
    assert_eq!(
        combine_placed_packs(&[], &["Truck Run".to_string()]).unwrap_err(),
        "load at least one placed pack"
    );
    assert_eq!(
        combine_placed_packs(&[placed_sample()], &["Nothing".to_string()]).unwrap_err(),
        "no unit groups to keep from the loaded packs"
    );
}

fn named_mcu(block: &str, index: i32, name: &str) -> Il2Entity {
    let mut e = Il2Entity::new(block);
    e.index = Some(index);
    e.set_property("Index", &index.to_string());
    e.set_name(name);
    e
}

#[test]
fn restore_choices_put_recommended_timers_first() {
    let mut pulse = named_mcu("MCU_Timer", 1, "Enable / Pulse IN");
    pulse.set_targets(vec![3]);
    let other = named_mcu("MCU_Timer", 2, "Other");
    let mut zone = named_mcu("MCU_CheckZone", 3, "Zone IN");
    zone.set_property("Closer", "1");
    let mut far = named_mcu("MCU_CheckZone", 4, "Far");
    far.set_property("Closer", "0");
    let dup = named_mcu("MCU_Timer", 5, "Other");
    let mut alpha = named_mcu("MCU_Timer", 6, "Alpha");
    alpha.set_targets(vec![3]);
    let blank = named_mcu("MCU_Timer", 7, "  ");
    let mut root = Il2Entity::new("Group");
    root.set_name("Copy");
    root.children = vec![pulse, other, zone, far, dup, alpha, blank];
    let choices = restore_start_choices(&root);
    let names: Vec<&str> = choices.iter().map(|c| c.name.as_str()).collect();
    assert_eq!(names, vec!["Alpha", "Enable / Pulse IN", "Other", "Far", "Zone IN"]);
    assert!(choices[0].recommended && choices[1].recommended);
    assert!(!choices[2].recommended && !choices[3].recommended && !choices[4].recommended);
    assert_eq!(choices[0].hint, "timer targets Closer checkzone \"Zone IN\"");
    assert_eq!(choices[1].hint, "usual start — timer targets Closer checkzone \"Zone IN\"");
    assert_eq!(choices[2].hint, "timer");
    assert_eq!(choices[3].hint, "checkzone (not Closer)");
    assert_eq!(choices[4].hint, "Closer checkzone — prefer a timer that targets this zone");
    assert_eq!(choices[0].kind, RestoreKind::Timer);
    assert_eq!(choices[4].kind, RestoreKind::CheckZone);
}

#[test]
fn pulse_timer_without_closer_zone_is_still_recommended() {
    let pulse = named_mcu("MCU_Timer", 1, "ENABLE / PULSE IN");
    let mut root = Il2Entity::new("Group");
    root.children = vec![pulse];
    let choices = restore_start_choices(&root);
    assert_eq!(choices.len(), 1);
    assert!(choices[0].recommended);
    assert_eq!(choices[0].hint, "usual start timer (ENABLE / PULSE IN)");
}

#[test]
fn strip_randomizer_removes_nested_selectors() {
    let mut pack = placed_sample();
    let mut inner = Il2Entity::new("Group");
    inner.set_name("Recon Randomizer");
    pack.children[0].children.push(inner);
    let removed = strip_randomizer(&mut pack);
    assert_eq!(removed, 2);
    assert_eq!(pack.children.len(), 3);
    assert_eq!(pack.children[0].children.len(), 2);
    assert_eq!(strip_randomizer(&mut pack), 0);
}

fn truck_copy(name: &str, base: i32, silenced_begin: bool) -> Il2Entity {
    let mut g = Il2Entity::new("Group");
    g.index = Some(base);
    g.set_property("Index", &base.to_string());
    g.set_name(name);
    let pulse = named_mcu("MCU_Timer", base + 1, "ENABLE / PULSE IN");
    let mut v = named_mcu("Vehicle", base + 2, "Truck");
    v.set_property("XPos", "100.000");
    g.children = vec![pulse, v];
    if silenced_begin {
        let mut begin = named_mcu("MCU_TR_MissionBegin", base + 3, "Mission Begin");
        begin.set_property("Enabled", "0");
        begin.set_targets(vec![]);
        g.children.push(begin);
    }
    g
}

fn truck_pack() -> Il2Entity {
    let mut randomizer = Il2Entity::new("Group");
    randomizer.set_name("Recon Randomizer");
    randomizer.children.push(named_mcu("MCU_TR_MissionBegin", 90, "Recon: Mission Begin"));
    let mut root = Il2Entity::new("Group");
    root.set_name("Random Ground Units 2");
    root.children = vec![
        truck_copy("DPRK Truck Run [1]", 10, true),
        truck_copy("DPRK Truck Run [2]", 20, true),
        randomizer,
    ];
    root
}

fn begins_of<'a>(e: &'a Il2Entity, out: &mut Vec<&'a Il2Entity>) {
    if e.block_type == "MCU_TR_MissionBegin" {
        out.push(e);
    }
    for c in &e.children {
        begins_of(c, out);
    }
}

#[test]
fn restore_always_on_reconnects_silenced_mission_begin() {
    let mut pack = truck_pack();
    let n = restore_always_on(
        &mut pack,
        &[("DPRK Truck Run".into(), "ENABLE / PULSE IN".into())],
    )
    .unwrap();
    assert_eq!(n, 2);
    assert!(pack.find_by_name("Recon Randomizer").is_none());
    assert_eq!(pack.name(), Some("Ground Units 2"));
    let copy = pack.find_by_name("DPRK Truck Run [1]").unwrap();
    let pulse = copy.find_by_name("ENABLE / PULSE IN").unwrap().index.unwrap();
    let mut begins = Vec::new();
    begins_of(copy, &mut begins);
    assert!(!begins.is_empty());
    for b in &begins {
        assert_eq!(b.property("Enabled"), Some("1"));
        assert_eq!(b.targets, vec![pulse]);
        assert_eq!(b.property("Targets"), Some(format!("[{pulse}]").as_str()));
    }
}

#[test]
fn restore_adds_mission_begin_above_highest_index() {
    let mut root = Il2Entity::new("Group");
    root.set_name("Random Ground Units 2");
    root.children = vec![truck_copy("Convoy [1]", 10, false), truck_copy("Convoy [2]", 20, true)];
    let mut wrapper = Il2Entity::new("Group");
    wrapper.set_name("Mission");
    wrapper.children.push(root);
    let n = restore_always_on(&mut wrapper, &[("Convoy".into(), "ENABLE / PULSE IN".into())]).unwrap();
    assert_eq!(n, 2);
    let pack = &wrapper.children[0];
    assert_eq!(pack.name(), Some("Ground Units 2"));
    let first = &pack.children[0];
    assert_eq!(first.children.len(), 3);
    let added = &first.children[2];
    assert_eq!(added.block_type, "MCU_TR_MissionBegin");
    assert_eq!(added.index, Some(24));
    assert_eq!(added.property("Index"), Some("24"));
    assert_eq!(added.name(), Some("Translator Mission Begin"));
    assert_eq!(added.property("Enabled"), Some("1"));
    assert_eq!(added.targets, vec![11]);
    let second = &pack.children[1];
    assert_eq!(second.children.len(), 3);
    assert_eq!(second.children[2].targets, vec![21]);
    assert_eq!(second.children[2].index, Some(23));
}

#[test]
fn restore_reports_missing_starts() {
    let mut pack = truck_pack();
    let err = restore_always_on(&mut pack, &[]).unwrap_err();
    assert_eq!(
        err,
        "DPRK Truck Run has no start MCU selected; DPRK Truck Run has no start MCU selected"
    );
    assert_eq!(pack.name(), Some("Random Ground Units 2"));
    assert!(pack.find_by_name("Recon Randomizer").is_none());

    let mut pack = truck_pack();
    let err = restore_always_on(&mut pack, &[("DPRK Truck Run".into(), "Nope".into())]).unwrap_err();
    assert_eq!(
        err,
        "DPRK Truck Run [1] has no MCU named \"Nope\"; DPRK Truck Run [2] has no MCU named \"Nope\""
    );

    let mut mixed = truck_pack();
    mixed.children[1].set_name("Tank Line [1]");
    let err = restore_always_on(&mut mixed, &[("DPRK Truck Run".into(), "ENABLE / PULSE IN".into())])
        .unwrap_err();
    assert_eq!(err, "restored 1 copies, but some failed: Tank Line has no start MCU selected");
    assert_eq!(mixed.name(), Some("Ground Units 1"));

    let mut empty = Il2Entity::new("Group");
    empty.set_name("Random Ground Units 0");
    assert_eq!(restore_always_on(&mut empty, &[]).unwrap_err(), "no unit groups to restore");
}

fn truck_template() -> Il2Entity {
    let mut g = Il2Entity::new("Group");
    g.index = Some(1);
    g.set_property("Index", "1");
    g.set_name("DPRK Truck Run");
    let mut zone = named_mcu("MCU_CheckZone", 2, "Zone IN");
    zone.set_property("Closer", "1");
    let mut pulse = named_mcu("MCU_Timer", 3, "ENABLE / PULSE IN");
    pulse.set_targets(vec![2]);
    let mut begin = named_mcu("MCU_TR_MissionBegin", 4, "Mission Begin");
    begin.set_property("Enabled", "1");
    begin.set_targets(vec![3]);
    let truck = named_mcu("Vehicle", 5, "Truck");
    let entity = named_mcu("MCU_TR_Entity", 6, "Truck entity");
    let deact = named_mcu("MCU_Deactivate", 7, "Stop");
    let delete = named_mcu("MCU_Delete", 8, "Remove");
    g.children = vec![zone, pulse, begin, truck, entity, deact, delete];
    g
}

fn recon_input(copies: usize) -> ReconInput {
    ReconInput { label: "truck".to_string(), root: truck_template(), trigger_zone_ids: vec![2], copies }
}

#[test]
fn recon_two_copies_fifty_percent_waterfall() {
    let out = generate_recon(&[recon_input(2)], 50).unwrap();
    assert_eq!(out.name(), Some("Random Ground Units 2"));
    let rnd = out.find_by_name("Recon Randomizer").unwrap();
    let begin = rnd.find_by_name("Recon: Mission Begin").unwrap();
    let input = rnd.find_by_name("Randomizer:INPUT").unwrap();
    assert_eq!(begin.property("Enabled"), Some("1"));
    assert_eq!(begin.targets, vec![input.index.unwrap()]);
    let r1 = rnd.find_by_name("Random 1:50% 500ms").unwrap();
    let r2 = rnd.find_by_name("Random 2:100% 1000ms").unwrap();
    let out1 = rnd.find_by_name("Out 1").unwrap();
    let out2 = rnd.find_by_name("Out 2").unwrap();
    assert_eq!(r1.property("Random"), Some("50"));
    assert_eq!(r1.property("Time"), Some("0.5"));
    assert_eq!(r2.property("Random"), Some("100"));
    assert_eq!(r2.property("Time"), Some("1"));
    assert!(input.targets.contains(&r1.index.unwrap()));
    assert!(input.targets.contains(&r2.index.unwrap()));
    assert_eq!(r2.targets, vec![out2.index.unwrap()]);
    let closer = rnd.find_by_name("Close_Remaining_Output(s)").unwrap();
    assert_eq!(closer.block_type, "MCU_Deactivate");
    assert_eq!(r1.targets, vec![out1.index.unwrap(), closer.index.unwrap()]);
    assert_eq!(closer.targets, vec![out2.index.unwrap()]);
    let keep = rnd.find_by_name("Keep 1").unwrap().index.unwrap();
    let copy1 = out.find_by_name("DPRK Truck Run [1]").unwrap();
    let pulse = copy1.find_by_name("ENABLE / PULSE IN").unwrap().index.unwrap();
    assert_eq!(out1.targets, vec![pulse, keep]);
    let silenced = copy1.find_by_name("Mission Begin").unwrap();
    assert_eq!(silenced.property("Enabled"), Some("0"));
    assert!(silenced.targets.is_empty());
    let del = rnd.find_by_name("Delete unused 1").unwrap();
    assert_eq!(del.property("Time"), Some("1.5"));
    let dump = rnd.find_by_name("Dump unused 1").unwrap();
    assert_eq!(del.targets, vec![dump.index.unwrap()]);
    let truck = copy1.find_by_name("Truck").unwrap().index.unwrap();
    let entity = copy1.find_by_name("Truck entity").unwrap().index.unwrap();
    assert_eq!(dump.objects, vec![truck, entity]);
}

#[test]
fn recon_indexes_are_unique_and_fresh() {
    let mut second = recon_input(3);
    second.label = "arty".to_string();
    second.root.set_name("Arty");
    let out = generate_recon(&[recon_input(2), second], 20).unwrap();
    assert!(out.find_by_name("DPRK Truck Run [1]").is_some());
    assert!(out.find_by_name("Arty [5]").is_some());
    assert!(out.find_by_name("Randomizer:INPUT 1").is_some());
    let delay = out.find_by_name("Randomizer:DELAY 2").unwrap();
    assert_eq!(delay.property("Time"), Some("0.5"));
    let mut ids = Vec::new();
    out.collect_indexes(&mut ids);
    let mut sorted = ids.clone();
    sorted.sort();
    sorted.dedup();
    assert_eq!(sorted.len(), ids.len());
    assert!(ids.iter().all(|&id| id > 8));
}

#[test]
fn recon_reports_bad_inputs() {
    assert_eq!(generate_recon(&[], 50).unwrap_err(), "add at least one ground-unit template");
    assert_eq!(generate_recon(&[recon_input(0)], 50).unwrap_err(), "set influence so at least one copy is created");
    let mut no_zone = recon_input(1);
    no_zone.trigger_zone_ids.clear();
    assert_eq!(generate_recon(&[no_zone], 50).unwrap_err(), "plan 1 needs a Zone IN selected");
    let mut lost = recon_input(1);
    lost.trigger_zone_ids = vec![99];
    assert_eq!(generate_recon(&[lost], 50).unwrap_err(), "plan 1 checkzone 99 was not found");
    let mut bare = recon_input(1);
    bare.root.children.retain(|c| c.block_type != "MCU_Timer");
    assert_eq!(generate_recon(&[bare], 50).unwrap_err(), "template has no MCU_Timer");
}

#[test]
fn recon_ten_copies_twenty_percent_make_two_groups() {
    let out = generate_recon(&[recon_input(10)], 20).unwrap();
    assert_eq!(out.name(), Some("Random Ground Units 10"));
    let rnd = out.find_by_name("Recon Randomizer").unwrap();
    let begin = rnd.find_by_name("Recon: Mission Begin").unwrap();
    assert_eq!(begin.targets.len(), 1);
    let r1 = rnd.find_by_name("Random 1:20% 500ms").unwrap();
    assert_eq!(r1.property("Random"), Some("20"));
    let last = rnd.find_by_name("Random 5:100% 2500ms").unwrap();
    let out5 = rnd.find_by_name("Out 5").unwrap().index.unwrap();
    assert_eq!(last.targets, vec![out5]);
    assert!(rnd.find_by_name("Random 6:20% 500ms").is_some());
    assert!(rnd.find_by_name("Random 10:100% 2500ms").is_some());
    let enders = rnd
        .children
        .iter()
        .filter(|c| c.name().is_some_and(|n| n.starts_with("Random ") && n.contains(":100% ")))
        .count();
    assert_eq!(enders, 2);
    let closers = rnd.children.iter().filter(|c| c.name() == Some("Close_Remaining_Output(s)")).count();
    assert_eq!(closers, 8);
    assert_eq!(rnd.find_by_name("Delete unused 1").unwrap().property("Time"), Some("3"));
}

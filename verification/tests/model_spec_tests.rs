use il2_groups::model_spec::{class_for, classes_in, model_ids, script_id, ModelClass};

#[test]
fn script_id_strips_path_and_extension() {
    assert_eq!(script_id(r"LuaScripts\WorldObjects\Planes\mig15bis.txt"), "mig15bis");
    assert_eq!(script_id("\"f51d.txt\""), "f51d");
}

#[test]
fn known_types_match_examples() {
    assert_eq!(class_for(r"Planes\mig15bis.txt"), ModelClass::Fighter);
    assert_eq!(class_for(r"Planes\b29.txt"), ModelClass::Bomber);
    assert_eq!(class_for(r"Planes\il10.txt"), ModelClass::Attack);
    assert_eq!(class_for(r"vehicles\t34-85.txt"), ModelClass::Armor);
    assert_eq!(class_for(r"fixedobjects\boforsl60.txt"), ModelClass::LightFlak);
    assert_eq!(class_for(r"fixedobjects\ks19.txt"), ModelClass::HeavyFlak);
    assert_eq!(class_for("unknown-thing.txt"), ModelClass::Unknown);
}

#[test]
fn spec_ids_are_unique() {
    let mut seen = std::collections::HashSet::new();
    for id in model_ids() {
        assert!(seen.insert(id), "duplicate spec id {}", id);
    }
}

#[test]
fn classes_in_keeps_display_order() {
    let classes = classes_in(&["b29.txt", "mig15bis.txt", "c47b.txt"]);
    assert_eq!(classes, vec![ModelClass::Fighter, ModelClass::Bomber, ModelClass::Transport]);
}

#[test]
fn script_id_lowercases_and_keeps_last_segment() {
    assert_eq!(script_id("\"LuaScripts/WorldObjects/Vehicles/T34-85.TXT\""), "t34-85.txt");
    assert_eq!(script_id("a/b\\C.txt.txt"), "c");
    assert_eq!(ModelClass::TankDestroyer.label(), "Tank destroyer");
}

#[test]
fn classes_in_dedups_and_puts_unknown_last() {
    let classes = classes_in(&["zzz.txt", "b29.txt", "simpleb29.txt"]);
    assert_eq!(classes, vec![ModelClass::Bomber, ModelClass::Unknown]);
    assert!(classes_in(&[]).is_empty());
}

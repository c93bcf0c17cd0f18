use std::collections::HashMap;

use il2_groups::ast::Il2Entity;
use il2_groups::duplicate::{apply_overrides, duplicate_template, generate_groups, reallocate_ids, reconnect_pointers};
use il2_groups::parser::parse_entity;

fn sample_linked_group() -> Il2Entity {
    let src = r#"Group
{
  Name = "Pair";
  Index = 10;
  Vehicle
  {
    Name = "car";
    Index = 20;
    LinkTrId = 21;
    Country = 503;
  }
  MCU_TR_Entity
  {
    Index = 21;
    Name = "car entity";
    Targets = [20];
    Objects = [21];
    MisObjID = 20;
    OnEvents
    {
      OnEvent
      {
        Type = 4;
        TarId = 10;
      }
    }
  }
}"#;
    parse_entity(src).expect("sample").1
}

#[test]
fn reallocate_assigns_sequential_indexes() {
    let template = sample_linked_group();
    let mut next_id = 100;
    let (clone, map) = reallocate_ids(&template, &mut next_id);

    assert_eq!(clone.index, Some(100));
    assert_eq!(clone.children[0].index, Some(101));
    assert_eq!(clone.children[1].index, Some(102));
    assert_eq!(next_id, 103);

    assert_eq!(map.get(&10), Some(&100));
    assert_eq!(map.get(&20), Some(&101));
    assert_eq!(map.get(&21), Some(&102));
    assert_eq!(map.len(), 3);
}

#[test]
fn reallocate_does_not_mutate_template() {
    let template = sample_linked_group();
    let mut next_id = 100;
    let _ = reallocate_ids(&template, &mut next_id);
    assert_eq!(template.index, Some(10));
    assert_eq!(template.children[0].index, Some(20));
}

#[test]
fn reconnect_rewrites_targets_and_objects() {
    let template = sample_linked_group();
    let mut next_id = 100;
    let (mut clone, map) = reallocate_ids(&template, &mut next_id);
    reconnect_pointers(&mut clone, &map);

    let entity = &clone.children[1];
    assert_eq!(entity.targets, vec![101]);
    assert_eq!(entity.objects, vec![102]);
    assert_eq!(entity.property("Targets"), Some("[101]"));
    assert_eq!(entity.property("Objects"), Some("[102]"));
}

#[test]
fn reconnect_rewrites_link_properties() {
    let template = sample_linked_group();
    let mut next_id = 100;
    let (clone, _) = duplicate_template(&template, &mut next_id);

    assert_eq!(clone.children[0].property("LinkTrId"), Some("102"));
    assert_eq!(clone.children[1].property("MisObjID"), Some("101"));
    assert_eq!(
        clone.children[1].children[0].children[0].property("TarId"),
        Some("100")
    );
}

#[test]
fn reconnect_leaves_unknown_ids_untouched() {
    let src = r#"MCU_Timer
{
  Index = 5;
  Targets = [5, 999];
  Objects = [];
}"#;
    let template = parse_entity(src).unwrap().1;
    let mut next_id = 50;
    let (clone, _) = duplicate_template(&template, &mut next_id);
    assert_eq!(clone.targets, vec![50, 999]);
}

#[test]
fn generate_groups_single_keeps_original_ids() {
    let template = sample_linked_group();
    let out = generate_groups(&template, 1);
    assert_eq!(out.index, Some(10));
    assert_eq!(out.children[0].index, Some(20));
}

#[test]
fn generate_groups_wraps_multiple_copies() {
    let template = sample_linked_group();
    let out = generate_groups(&template, 3);
    assert_eq!(out.block_type, "Group");
    assert_eq!(out.children.len(), 3);
    assert_eq!(out.children[0].index, Some(10));
    assert_eq!(out.children[1].index, Some(22));
    assert_eq!(out.children[2].index, Some(25));
    let mut seen = HashMap::new();
    fn collect(e: &Il2Entity, seen: &mut HashMap<i32, usize>) {
        if let Some(id) = e.index {
            *seen.entry(id).or_insert(0) += 1;
        }
        for c in &e.children {
            collect(c, seen);
        }
    }
    collect(&out, &mut seen);
    assert!(seen.values().all(|&n| n == 1), "Indexes must be unique: {seen:?}");
}

#[test]
fn apply_overrides_sets_country_and_aircraft() {
    let mut template = sample_linked_group();
    apply_overrides(&mut template, "mig15bis", 501);
    assert_eq!(template.children[0].property("Country"), Some("501"));
    // Vehicle is not a Plane, Script stays unset
    assert!(template.children[0].property("Script").is_none());

    let src = r#"Plane
{
  Index = 1;
  Country = 503;
  Script = "LuaScripts\WorldObjects\Planes\la11.txt";
  Model = "graphics\planes\la11\la11.mgm";
}"#;
    let mut plane = parse_entity(src).unwrap().1;
    apply_overrides(&mut plane, "mig15bis", 501);
    assert_eq!(plane.property("Country"), Some("501"));
    assert_eq!(
        plane.property("Script"),
        Some("\"LuaScripts\\WorldObjects\\Planes\\mig15bis.txt\"")
    );
    assert_eq!(
        plane.property("Model"),
        Some("\"graphics\\planes\\mig15bis\\mig15bis.mgm\"")
    );
}

use il2_groups::duplicate::duplicate_template;
use il2_groups::parser::{parse_entity, parse_group_file};
use il2_groups::serialize::serialize_group;

#[test]
fn serialize_simple_group_formatting() {
    let src = "Group\r\n{\r\n  Name = \"Truck Run\";\r\n  Index = 43322;\r\n  Desc = \"\";\r\n}\r\n";
    let entity = parse_group_file(src).expect("parse");
    let out = serialize_group(&entity);
    assert_eq!(out, src);
}

#[test]
fn serialize_mcu_link_arrays() {
    let src = r#"MCU_Timer
{
  Index = 43594;
  Name = "1s";
  Targets = [43590,43591];
  Objects = [];
  Time = 1;
}"#;
    let entity = parse_entity(src).unwrap().1;
    let out = serialize_group(&entity);
    assert!(out.contains("Targets = [43590,43591];"));
    assert!(out.contains("Objects = [];"));
    assert!(out.contains("Index = 43594;"));
    assert!(out.contains("\r\n"));
}

#[test]
fn serialize_quoted_list_item() {
    let src = "Trailers\r\n{\r\n  \"luascripts\\worldobjects\\vehicles\\trailers\\zpuvz53-trailer.txt\";\r\n}\r\n";
    let entity = parse_group_file(src).expect("parse");
    let out = serialize_group(&entity);
    assert_eq!(out, src);
}

#[test]
fn round_trip_nested_ast() {
    let src = r#"Group
{
  Name = "Root";
  Index = 1;
  Vehicle
  {
    Name = "car";
    Index = 2;
    LinkTrId = 3;
  }
  MCU_TR_Entity
  {
    Index = 3;
    Targets = [2];
    Objects = [];
    MisObjID = 2;
  }
}"#;
    let original = parse_entity(src).unwrap().1;
    let text = serialize_group(&original);
    let reparsed = parse_group_file(&text).expect("reparse serialized");
    assert_eq!(original, reparsed);
}

#[test]
fn serialize_after_duplication_uses_new_ids() {
    let src = r#"MCU_Timer
{
  Index = 5;
  Targets = [5];
  Objects = [];
}"#;
    let template = parse_entity(src).unwrap().1;
    let mut next_id = 80;
    let (clone, _) = duplicate_template(&template, &mut next_id);
    let out = serialize_group(&clone);
    assert!(out.contains("Index = 80;"));
    assert!(out.contains("Targets = [80];"));
    assert!(!out.contains("Index = 5;"));
}


#[test]
fn written_text_reads_back_with_vertices_and_numeric_keys() {
    let src = "MCU_TR_InfluenceArea\r\n{\r\n  Index = 7;\r\n  Name = \"Area\";\r\n  Targets = [1,2];\r\n  Objects = [];\r\n  Time = 12:30;\r\n  Boundary\r\n  {\r\n    -10.5, 20;\r\n    30, -40.25;\r\n  }\r\n\r\n  Damaged\r\n  {\r\n    0 = 1;\r\n    -3 = 0;\r\n    \"quoted item\";\r\n  }\r\n\r\n}\r\n";
    let first = parse_group_file(src).expect("parse");
    let text = serialize_group(&first);
    let again = parse_group_file(&text).expect("reparse");
    assert_eq!(first, again);
    assert_eq!(serialize_group(&again), text);
}

#[test]
fn spaced_link_arrays_are_rewritten_compactly() {
    let src = "MCU_Timer\r\n{\r\n  Index = 3;\r\n  Targets = [1, 2];\r\n}\r\n";
    let first = parse_group_file(src).expect("parse");
    let text = serialize_group(&first);
    assert!(text.contains("Targets = [1,2];"));
    let again = parse_group_file(&text).expect("reparse");
    assert_eq!(again.targets, first.targets);
}

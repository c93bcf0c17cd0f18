use il2_groups::parser::{
    parse_entity, parse_float, parse_group_file, parse_identifier, parse_il2_document, parse_integer,
    parse_integer_array,
};

#[test]
fn identifier_simple() {
    assert_eq!(parse_identifier("Group"), Ok(("", "Group")));
    assert_eq!(parse_identifier("Plane"), Ok(("", "Plane")));
    assert_eq!(parse_identifier("XPos"), Ok(("", "XPos")));
}

#[test]
fn identifier_mcu_types() {
    assert_eq!(parse_identifier("MCU_TR_Entity"), Ok(("", "MCU_TR_Entity")));
    assert_eq!(
        parse_identifier("MCU_CMD_AttackArea {"),
        Ok((" {", "MCU_CMD_AttackArea"))
    );
    assert_eq!(parse_identifier("OnEvents"), Ok(("", "OnEvents")));
}

#[test]
fn identifier_rejects_leading_digit() {
    assert!(parse_identifier("1Group").is_err());
}

#[test]
fn float_integer_form() {
    assert_eq!(parse_float("0"), Ok(("", "0")));
    assert_eq!(parse_float("-1"), Ok(("", "-1")));
    assert_eq!(parse_float("600;"), Ok((";", "600")));
}

#[test]
fn float_decimal_forms() {
    assert_eq!(parse_float("147404.380"), Ok(("", "147404.380")));
    assert_eq!(parse_float("1000.000"), Ok(("", "1000.000")));
    assert_eq!(parse_float("2.730138"), Ok(("", "2.730138")));
    assert_eq!(parse_float("358.7"), Ok(("", "358.7")));
    assert_eq!(parse_float("359.9538,"), Ok((",", "359.9538")));
}

#[test]
fn integer_array_empty() {
    assert_eq!(parse_integer_array("[]"), Ok(("", vec![])));
    assert_eq!(parse_integer_array("[ ]"), Ok(("", vec![])));
}

#[test]
fn integer_array_single() {
    assert_eq!(parse_integer_array("[43311]"), Ok(("", vec![43311])));
}

#[test]
fn integer_array_compact() {
    assert_eq!(
        parse_integer_array("[43590,43591]"),
        Ok(("", vec![43590, 43591]))
    );
}

#[test]
fn integer_array_spaced() {
    assert_eq!(parse_integer_array("[1, 2]"), Ok(("", vec![1, 2])));
    assert_eq!(parse_integer_array("[0, 1, 2]"), Ok(("", vec![0, 1, 2])));
}

#[test]
fn block_simple_group() {
    let src = r#"Group
{
  Name = "Truck Run";
  Index = 43322;
  Desc = "";
}"#;
    let (_, entity) = parse_entity(src).expect("parse");
    assert_eq!(entity.block_type, "Group");
    assert_eq!(entity.index, Some(43322));
    assert_eq!(entity.property("Name"), Some("\"Truck Run\""));
    assert_eq!(entity.property("Desc"), Some("\"\""));
    assert!(entity.children.is_empty());
}

#[test]
fn block_mcu_with_link_arrays() {
    let src = r#"MCU_Timer
{
  Index = 43594;
  Name = "1s";
  Targets = [43593];
  Objects = [];
  Time = 1;
}"#;
    let (_, entity) = parse_entity(src).expect("parse");
    assert_eq!(entity.block_type, "MCU_Timer");
    assert_eq!(entity.index, Some(43594));
    assert_eq!(entity.targets, vec![43593]);
    assert_eq!(entity.objects, vec![]);
    assert_eq!(entity.property("Time"), Some("1"));
}

#[test]
fn property_keeps_clock_time_and_dotted_date() {
    let src = r#"MCU_DateTime
{
  Index = 1;
  Time = 13:0:0;
  Date = 1.6.1951;
}"#;
    let (_, entity) = parse_entity(src).expect("parse");
    assert_eq!(entity.property("Time"), Some("13:0:0"));
    assert_eq!(entity.property("Date"), Some("1.6.1951"));
}

#[test]
fn block_nested_children() {
    let src = r#"Group
{
  Name = "Root";
  Index = 1;
  Vehicle
  {
    Name = "car";
    Index = 2;
    LinkTrId = 3;
  }
  MCU_TR_Entity
  {
    Index = 3;
    Targets = [];
    Objects = [];
    MisObjID = 2;
  }
}"#;
    let (_, entity) = parse_entity(src).expect("parse");
    assert_eq!(entity.children.len(), 2);
    assert_eq!(entity.children[0].block_type, "Vehicle");
    assert_eq!(entity.children[0].index, Some(2));
    assert_eq!(entity.children[1].block_type, "MCU_TR_Entity");
    assert_eq!(entity.children[1].index, Some(3));
    assert_eq!(entity.max_index(), 3);
}

#[test]
fn damaged_table_numeric_keys() {
    let src = r#"Block
{
  Name = "Block";
  Damaged
  {
    -1 = 1;
    0 = 1;
    2 = 1;
  }
}"#;
    let (_, entity) = parse_entity(src).expect("Damaged numeric keys");
    assert_eq!(entity.children.len(), 1);
    let damaged = &entity.children[0];
    assert_eq!(damaged.block_type, "Damaged");
    assert_eq!(damaged.property("-1"), Some("1"));
    assert_eq!(damaged.property("0"), Some("1"));
    assert_eq!(damaged.property("2"), Some("1"));
}

#[test]
fn block_unrecognized_keys_are_kept() {
    let src = r#"FooBar
{
  MysteryKey = "abc";
  AlsoUnknown = 42;
  NestedUnknown
  {
    Qux = 1.5;
  }
}"#;
    let (_, entity) = parse_entity(src).expect("unrecognized keys must not fail");
    assert_eq!(entity.block_type, "FooBar");
    assert_eq!(entity.property("MysteryKey"), Some("\"abc\""));
    assert_eq!(entity.property("AlsoUnknown"), Some("42"));
    assert_eq!(entity.children.len(), 1);
    assert_eq!(entity.children[0].block_type, "NestedUnknown");
    assert_eq!(entity.children[0].property("Qux"), Some("1.5"));
}

#[test]
fn block_quoted_list_items() {
    let src = r#"Trailers
{
  "luascripts\worldobjects\vehicles\trailers\zpuvz53-trailer.txt";
}"#;
    let (_, entity) = parse_entity(src).expect("parse trailers");
    assert_eq!(entity.block_type, "Trailers");
    assert_eq!(
        entity.properties,
        vec![(
            String::new(),
            "\"luascripts\\worldobjects\\vehicles\\trailers\\zpuvz53-trailer.txt\"".to_string()
        )]
    );
}

#[test]
fn influence_area_boundary_coord_pairs() {
    let src = r#"MCU_TR_InfluenceArea
{
  Index = 1;
  Name = "USA Influence Area";
  Country = 601;
  Boundary
  {
    118275, 217644;
    133427, 218780;
  }
}"#;
    let (_, entity) = parse_entity(src).expect("parse influence area");
    assert_eq!(entity.block_type, "MCU_TR_InfluenceArea");
    assert_eq!(entity.name(), Some("USA Influence Area"));
    assert_eq!(entity.property("Country"), Some("601"));
    assert_eq!(entity.children.len(), 1);
    assert_eq!(entity.children[0].block_type, "Boundary");
    assert_eq!(
        entity.children[0].properties,
        vec![
            (String::new(), "118275, 217644".to_string()),
            (String::new(), "133427, 218780".to_string()),
        ]
    );
}

#[test]
fn block_on_events_and_reports() {
    let src = r#"MCU_TR_Entity
{
  Index = 12;
  Targets = [];
  Objects = [];
  MisObjID = 23;
  OnEvents
  {
    OnEvent
    {
      Type = 4;
      TarId = 25;
    }
  }
  OnReports
  {
    OnReport
    {
      Type = 0;
      CmdId = 26;
      TarId = 27;
    }
  }
}"#;
    let (_, entity) = parse_entity(src).expect("parse events");
    assert_eq!(entity.children.len(), 2);
    let event = &entity.children[0].children[0];
    assert_eq!(event.block_type, "OnEvent");
    assert_eq!(event.property("TarId"), Some("25"));
    let report = &entity.children[1].children[0];
    assert_eq!(report.property("CmdId"), Some("26"));
}

#[test]
fn parse_group_file_rejects_trailing_garbage() {
    let err = parse_group_file("Group { Index = 1; } leftover").unwrap_err();
    assert!(err.contains("trailing"));
}

#[test]
fn parse_il2_document_wraps_root_level_blocks() {
    let src = "MCU_Timer\n{\n  Index = 1;\n  Name = \"A\";\n}\n\nMCU_Timer\n{\n  Index = 2;\n  Name = \"B\";\n}\n";
    let root = parse_il2_document(src).expect("forest");
    assert_eq!(root.block_type, "Group");
    assert_eq!(root.name(), Some("Airfield"));
    assert_eq!(root.children.len(), 2);
    assert_eq!(root.children[0].name(), Some("A"));
    assert_eq!(root.children[1].name(), Some("B"));
    let one = parse_il2_document("Group { Index = 9; Name = \"Solo\"; }").unwrap();
    assert_eq!(one.name(), Some("Solo"));
    assert_eq!(one.index, Some(9));
}

#[test]
fn integer_and_rest() {
    assert_eq!(parse_integer("-42;"), Ok((";", -42)));
    assert!(parse_integer("abc").is_err());
    assert!(parse_integer("99999999999").is_err());
}

#[test]
fn group_file_accepts_bom_and_reports_errors() {
    let g = parse_group_file("\u{feff}Group\r\n{\r\n  Index = 4;\r\n}\r\n").unwrap();
    assert_eq!(g.index, Some(4));
    assert!(parse_group_file("{").is_err());
}

#[test]
fn find_by_name_mut_edits_the_first_match_in_place() {
    let mut root = il2_groups::ast::Il2Entity::new("Group");
    root.set_name("Root");
    let mut a = il2_groups::ast::Il2Entity::new("MCU_Timer");
    a.set_name("Target");
    a.set_property("Time", "1");
    let mut b = il2_groups::ast::Il2Entity::new("MCU_Timer");
    b.set_name("Target");
    b.set_property("Time", "2");
    let mut inner = il2_groups::ast::Il2Entity::new("Group");
    inner.set_name("Inner");
    inner.children = vec![a];
    root.children = vec![inner, b];
    root.find_by_name_mut("Target").unwrap().set_property("Time", "9");
    assert_eq!(root.children[0].children[0].property("Time"), Some("9"));
    assert_eq!(root.children[1].property("Time"), Some("2"));
    assert!(root.find_by_name_mut("Missing").is_none());
}

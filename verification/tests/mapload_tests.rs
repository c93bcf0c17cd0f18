use il2_groups::ast::Il2Entity;
use il2_groups::mapload::{catalog_marks, kind_for_parent, PointKind};

fn named(kind: &str, name: &str) -> Il2Entity {
    let mut e = Il2Entity::new(kind);
    e.set_name(name);
    e
}

fn section(name: &str, children: Vec<Il2Entity>) -> Il2Entity {
    let mut g = named("Group", name);
    g.children = children;
    g
}

#[test]
fn sections_give_point_kinds() {
    assert_eq!(kind_for_parent(Some("AIRFIELDS")), Some(PointKind::Airfield));
    assert_eq!(kind_for_parent(Some("CITIES")), Some(PointKind::Building));
    assert_eq!(kind_for_parent(Some("RW_STATIONS")), Some(PointKind::Building));
    assert_eq!(kind_for_parent(Some("MILITARY_CAMP")), Some(PointKind::Building));
    assert_eq!(kind_for_parent(Some("INDUSTRIAL")), Some(PointKind::Building));
    assert_eq!(kind_for_parent(Some("MARKS")), None);
    assert_eq!(kind_for_parent(None), None);
}

#[test]
fn marks_list_catalog_waypoints_in_order() {
    let marks = section(
        "MARKS",
        vec![
            named("MCU_Waypoint", "loose"),
            section("AIRFIELDS", vec![named("MCU_Waypoint", "K-14 Kimpo"), named("MCU_Timer", "not a point")]),
            section("CITIES", vec![section("Seoul area", vec![named("MCU_Waypoint", "Seoul")])]),
            section("INDUSTRIAL zones and ports", vec![named("MCU_Waypoint", "Inchon port")]),
        ],
    );
    let found = catalog_marks(&marks);
    let names: Vec<(&str, PointKind)> = found.iter().map(|(e, k)| (e.name().unwrap(), *k)).collect();
    assert_eq!(
        names,
        vec![
            ("K-14 Kimpo", PointKind::Airfield),
            ("Seoul", PointKind::Building),
            ("Inchon port", PointKind::Building),
        ]
    );
}

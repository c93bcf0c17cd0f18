use il2_groups::aircraft::{encode_tcode, flight_number, pair_skills, plane_coalitions_for_country, plane_display_name};

#[test]
fn tcode_matches_template_honcho_119() {
    assert_eq!(encode_tcode(119), "%20%22%22%2a");
}

#[test]
fn tcode_matches_template_red_12() {
    assert_eq!(encode_tcode(12), "%22%23");
}

#[test]
fn tcode_matches_template_white_21() {
    assert_eq!(encode_tcode(21), "%23%22");
}

#[test]
fn four_ship_numbers() {
    assert_eq!(flight_number(0, 0), 11);
    assert_eq!(flight_number(0, 3), 14);
    assert_eq!(flight_number(1, 0), 21);
    assert_eq!(plane_display_name(0, 1), "Red 12");
}

#[test]
fn lead_skill_is_never_below_wingman() {
    for rec in 0..=4 {
        for f in 0..6 {
            let (lead, wing) = pair_skills(rec, f, 0);
            assert!(lead >= wing, "rec={rec} flight={f}: lead {lead} < wing {wing}");
            assert!((0..=4).contains(&lead));
            assert!((0..=4).contains(&wing));
        }
    }
}

#[test]
fn coalitions_split_east_west() {
    assert_eq!(plane_coalitions_for_country(501), "[2]");
    assert_eq!(plane_coalitions_for_country(502), "[2]");
    assert_eq!(plane_coalitions_for_country(503), "[2]");
    assert_eq!(plane_coalitions_for_country(601), "[1]");
}

use il2_groups::flights::{flight_sizes, random_pct};
use il2_groups::frontlines::timeline::{mark_for_battle, timeline_dates, timeline_index};
use il2_groups::frontlines::{snapshot_label, snapshot_note, suggested_aircraft, Season};
use il2_groups::help::{extract_section, section_for, HelpTopic};
use il2_groups::mapfighters::country_for_coalition;
use il2_groups::mapground::GroundKind;
use il2_groups::placement::{grid_side, hashed_pick, mix_index};

#[test]
fn random_pct_is_equal_waterfall() {
    assert_eq!(random_pct(0, 1), 100);
    assert_eq!(random_pct(0, 2), 50);
    assert_eq!(random_pct(1, 2), 100);
    assert_eq!(random_pct(0, 4), 25);
    assert_eq!(random_pct(1, 4), 33);
    assert_eq!(random_pct(2, 4), 50);
    assert_eq!(random_pct(3, 4), 100);
}

#[test]
fn early_war_is_finer_than_stalemate() {
    let marks = timeline_dates();
    let weeks_1950: usize = marks.iter().filter(|m| m.0 == 1950).count();
    let marks_1952: usize = marks.iter().filter(|m| m.0 == 1952).count();
    assert!(weeks_1950 >= 12, "1950 should be week/month scale, got {weeks_1950}");
    assert!(marks_1952 <= 5, "1952 should stay coarse, got {marks_1952}");
}

#[test]
fn country_split_is_semi_automatic() {
    assert_eq!(country_for_coalition(true, 502), 502);
    assert_eq!(country_for_coalition(true, 601), 501);
    assert_eq!(country_for_coalition(false, 501), 601);
    assert_eq!(country_for_coalition(false, 601), 601);
}

#[test]
fn square_side_for_typical_counts() {
    assert_eq!(grid_side(1), 1);
    assert_eq!(grid_side(2), 2);
    assert_eq!(grid_side(4), 2);
    assert_eq!(grid_side(9), 3);
    assert_eq!(grid_side(10), 4);
    assert_eq!(grid_side(93), 10);
}

#[test]
fn summer_1950_has_no_sabre_or_mig() {
    let ids: Vec<_> = suggested_aircraft(1950, Season::Summer).iter().map(|a| a.id).collect();
    assert!(ids.contains(&"f80c10"));
    assert!(ids.contains(&"yak9p"));
    assert!(!ids.contains(&"f86a5"));
    assert!(!ids.contains(&"mig15bis"));
}

#[test]
fn winter_1950_unlocks_sabre_and_mig() {
    let ids: Vec<_> = suggested_aircraft(1950, Season::Winter).iter().map(|a| a.id).collect();
    assert!(ids.contains(&"f86a5"));
    assert!(ids.contains(&"mig15bis"));
    assert!(ids.contains(&"f80c10"));
}

#[test]
fn grid_side_zero_counts_as_one() {
    assert_eq!(grid_side(0), 1);
    assert_eq!(grid_side(100), 10);
    assert_eq!(grid_side(101), 11);
}

#[test]
fn flight_sizes_cycle_down_from_max() {
    assert_eq!(flight_sizes(6, 4), vec![4, 3, 2, 1, 4, 3]);
    assert_eq!(flight_sizes(3, 0), vec![1, 1, 1]);
    assert!(flight_sizes(0, 4).is_empty());
}

#[test]
fn random_pct_past_the_end_is_certain() {
    assert_eq!(random_pct(5, 4), 100);
    assert_eq!(random_pct(0, 3), 33);
    assert_eq!(random_pct(0, 300), 1);
}

#[test]
fn mix_index_is_deterministic_and_spreads() {
    assert_eq!(mix_index(1, 2), mix_index(1, 2));
    assert_ne!(mix_index(1, 2), mix_index(1, 3));
    assert_ne!(mix_index(1, 2), mix_index(2, 2));
    assert_eq!(mix_index(0, 0), 0);
}

#[test]
fn hashed_pick_stays_in_range() {
    let items = [10, 20, 30];
    let empty: [i32; 0] = [];
    assert!(hashed_pick(&empty, 1, 2).is_none());
    let h = mix_index(7, 9);
    assert_eq!(hashed_pick(&items, 7, 9), Some(&items[(h % 3) as usize]));
}

#[test]
fn snapshot_titles_and_fallback() {
    assert_eq!(snapshot_label(1952, Season::Fall), "Fall 1952 — Triangle Hill");
    assert_eq!(snapshot_note(1950, Season::Summer), "UN is pinned on the Pusan Perimeter, south of this map.");
    assert_eq!(snapshot_label(1960, Season::Fall), "Spring 1950 — uneasy 38th Parallel");
    assert_eq!(Season::EarlySpring.label(), "Early spring");
}

#[test]
fn timeline_lookups() {
    assert_eq!(timeline_index(1950, Season::LateSpring), 0);
    assert_eq!(timeline_index(1950, Season::Summer), 1);
    assert_eq!(timeline_index(1999, Season::Summer), 0);
    let marks = timeline_dates();
    let chosin = mark_for_battle("chosin");
    assert_eq!((marks[chosin].1, marks[chosin].2), (11, 27));
    let bloody = mark_for_battle("bloody");
    assert_eq!((marks[bloody].0, marks[bloody].1, marks[bloody].2), (1951, 9, 1));
    let unknown = mark_for_battle("nowhere");
    assert_eq!((marks[unknown].0, marks[unknown].1), (1951, 6));
}

#[test]
fn ground_labels() {
    assert_eq!(GroundKind::Artillery.label(), "Artillery");
    assert_eq!(GroundKind::Train.label(), "Train");
}

#[test]
fn manual_sections_are_cut_at_the_next_heading() {
    let md = "# Manual\n\n## Overview\nIntro text.\n\n## Map\nMap text\nmore\n\n## Troubleshooting\nFix it.\n";
    assert_eq!(section_for(md, HelpTopic::Front), "## Map\nMap text\nmore");
    assert_eq!(section_for(md, HelpTopic::Troubleshooting), "## Troubleshooting\nFix it.");
    assert_eq!(extract_section(md, "Nothing"), md);
    assert_eq!(HelpTopic::Recon.title(), "Army Generator");
}

use samrewritten::sidebar::{
    checkbox_state, collection_label, collection_position, drop_counts_dependent_settings, filters,
    selection_step, set_collections, sort_modes, sort_needs_counts, toggled_value, unsupported_tooltip,
    CollectionEntry, SelectionStep,
};
use samrewritten::steam_collections::{CollectionModel, UnsupportedReason};

fn model(id: &str, name: &str, unsupported: Option<UnsupportedReason>) -> CollectionModel {
    CollectionModel {
        id: id.to_string(),
        name: name.to_string(),
        app_ids: Vec::new(),
        unsupported,
    }
}

fn entry(id: &str, unsupported: Option<UnsupportedReason>) -> CollectionEntry {
    CollectionEntry {
        id: id.to_string(),
        unsupported,
    }
}

#[test]
fn only_the_achievement_sorts_need_the_counts() {
    assert!(sort_needs_counts("completion"));
    assert!(sort_needs_counts("remaining"));
    for value in ["app_id", "alphabetical", "last_played", "playtime", "", "Completion"] {
        assert!(!sort_needs_counts(value), "{value}");
    }
    let needing: Vec<&str> = sort_modes().iter().filter(|m| m.needs_counts).map(|m| m.value).collect();
    assert_eq!(needing, vec!["completion", "remaining"]);
}

#[test]
fn only_the_junk_box_is_negated() {
    let table = filters();
    assert_eq!(table.len(), 7);
    let inverted: Vec<&str> = table.iter().filter(|f| f.invert).map(|f| f.key).collect();
    assert_eq!(inverted, vec!["filter-junk"]);
    let counted: Vec<&str> = table.iter().filter(|f| f.needs_counts).map(|f| f.key).collect();
    assert_eq!(
        counted,
        vec!["filter-hide-without-achievements", "filter-hide-fully-unlocked", "filter-hide-no-unlocked"]
    );
}

#[test]
fn dropping_the_counts_resets_what_needs_them() {
    let changes = drop_counts_dependent_settings("completion", &vec![true, false, true, true, true, true, true]);
    assert_eq!(changes.sort, Some("alphabetical"));
    assert_eq!(changes.cleared, vec!["filter-hide-without-achievements", "filter-hide-no-unlocked"]);
    let nothing = drop_counts_dependent_settings("playtime", &vec![false, false, false, true, true, true, true]);
    assert_eq!(nothing.sort, None);
    assert!(nothing.cleared.is_empty());
}

#[test]
fn the_picker_lists_all_games_then_every_collection_but_the_hidden_one() {
    let models = vec![
        model("favorite", "Favoris", None),
        model("hidden", "Hidden", None),
        model("uc-1", "", Some(UnsupportedReason::SearchText)),
        model("uc-2", "Farm", None),
    ];
    let list = set_collections(&models, "uc-2", "All games", "Favorites");
    let ids: Vec<&str> = list.entries.iter().map(|e| e.id.as_str()).collect();
    assert_eq!(ids, vec!["", "favorite", "uc-1", "uc-2"]);
    assert_eq!(list.labels, vec!["All games", "Favorites", "uc-1", "Farm"]);
    assert_eq!(list.entries[2].unsupported, Some(UnsupportedReason::SearchText));
    assert_eq!(list.selected, 3);
    let gone = set_collections(&models, "uc-9", "All games", "Favorites");
    assert_eq!(gone.selected, 0);
    let hidden = set_collections(&models, "hidden", "All games", "Favorites");
    assert_eq!(hidden.selected, 0);
}

#[test]
fn a_collection_label_prefers_its_name() {
    assert_eq!(collection_label(&model("favorite", "Favoris", None), "Favorites"), "Favorites");
    assert_eq!(collection_label(&model("uc-1", "", None), "Favorites"), "uc-1");
    assert_eq!(collection_label(&model("uc-1", "Farm", None), "Favorites"), "Farm");
}

#[test]
fn picking_an_unusable_collection_goes_back_to_the_last_usable_one() {
    let entries = vec![
        entry("", None),
        entry("uc-1", Some(UnsupportedReason::Offline)),
        entry("uc-2", None),
    ];
    match selection_step(&entries, 1, "uc-2", false) {
        SelectionStep::Revert(back) => assert_eq!(back, 2),
        _ => panic!("an unusable pick must be reverted"),
    }
    match selection_step(&entries, 1, "uc-1", false) {
        SelectionStep::Revert(back) => assert_eq!(back, 0),
        _ => panic!("an unusable pick must be reverted"),
    }
    match selection_step(&entries, 2, "", true) {
        SelectionStep::Accept { id, notify } => {
            assert_eq!(id, "uc-2");
            assert!(!notify, "no notice while the rows are rebuilt");
        }
        _ => panic!("a usable pick is taken"),
    }
    match selection_step(&entries, 0, "uc-2", false) {
        SelectionStep::Accept { id, notify } => {
            assert_eq!(id, "");
            assert!(notify);
        }
        _ => panic!("a usable pick is taken"),
    }
    assert!(matches!(selection_step(&entries, 3, "", false), SelectionStep::Ignore));
}

#[test]
fn each_reason_has_its_own_tooltip() {
    let reasons = [
        UnsupportedReason::SearchText,
        UnsupportedReason::UnknownFilter,
        UnsupportedReason::Unavailable,
        UnsupportedReason::Offline,
    ];
    let texts: Vec<&str> = reasons.iter().map(|r| unsupported_tooltip(*r)).collect();
    assert_eq!(texts[3], "Needs your friends' games, which Steam can only tell us when it is online.");
    for (i, a) in texts.iter().enumerate() {
        for b in &texts[i + 1..] {
            assert_ne!(a, b);
        }
    }
}

#[test]
fn the_junk_box_shows_the_key_negated() {
    let table = filters();
    let junk = table.iter().find(|f| f.key == "filter-junk").unwrap();
    let plain = &table[0];
    assert!(checkbox_state(junk, false));
    assert!(!checkbox_state(junk, true));
    assert!(checkbox_state(plain, true));
    assert_eq!(toggled_value(junk, true, true), Some(false));
    assert_eq!(toggled_value(junk, false, true), None);
    assert_eq!(toggled_value(plain, true, false), Some(true));
    assert_eq!(toggled_value(plain, true, true), None);
}

#[test]
fn a_stored_collection_selects_its_row() {
    let entries = vec![entry("", None), entry("uc-1", None), entry("uc-1", None)];
    assert_eq!(collection_position(&entries, "uc-1"), 1);
    assert_eq!(collection_position(&entries, ""), 0);
    assert_eq!(collection_position(&entries, "gone"), 0);
}

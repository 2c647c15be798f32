use samrewritten::app_info::AppInfo;
use samrewritten::steam_collections::{
    installed_app_ids, parse_entries, resolve, AppPlaytime, CloudEntry, Collection, CollectionModel,
    FilterGroup, FilterSpec, LibraryFacts, PlaytimeMap, RawCollection, UnsupportedReason, FAVORITE_ID,
    GROUP_LANGUAGES,
};
use serde_json::Value;
use std::collections::{HashMap, HashSet};

const FIXTURE: &str = r#"[
  ["GameReleased", {"key":"GameReleased","timestamp":1,"value":"{}","version":"1"}],
  ["user-collections.favorite", {"key":"user-collections.favorite","timestamp":2,
    "value":"{\"id\":\"favorite\",\"name\":\"Favoris\",\"added\":[240,730,99999],\"removed\":[]}"}],
  ["user-collections.uc-gone", {"key":"user-collections.uc-gone","timestamp":3,
    "is_deleted":true,"version":"5"}],
  ["user-collections.uc-farm", {"key":"user-collections.uc-farm","timestamp":4,
    "value":"{\"id\":\"uc-farm\",\"name\":\"Farm\",\"added\":[555],\"removed\":[240],\"filterSpec\":{\"nFormatVersion\":2,\"strSearchText\":\"\",\"filterGroups\":[{\"rgOptions\":[],\"bAcceptUnion\":true},{\"rgOptions\":[4],\"bAcceptUnion\":false},{\"rgOptions\":[4],\"bAcceptUnion\":false},{\"rgOptions\":[],\"bAcceptUnion\":false},{\"rgOptions\":[],\"bAcceptUnion\":false},{\"rgOptions\":[],\"bAcceptUnion\":false},{\"rgOptions\":[],\"bAcceptUnion\":false}]}}"}],
  ["user-collections.uc-friend", {"key":"user-collections.uc-friend","timestamp":5,
    "value":"{\"id\":\"uc-friend\",\"name\":\"Squad\",\"added\":[],\"removed\":[],\"filterSpec\":{\"nFormatVersion\":2,\"strSearchText\":\"\",\"filterGroups\":[{\"rgOptions\":[],\"bAcceptUnion\":true},{\"rgOptions\":[],\"bAcceptUnion\":false},{\"rgOptions\":[],\"bAcceptUnion\":false},{\"rgOptions\":[],\"bAcceptUnion\":false},{\"rgOptions\":[],\"bAcceptUnion\":false},{\"rgOptions\":[],\"bAcceptUnion\":false},{\"rgOptions\":[12345],\"bAcceptUnion\":true},{\"rgOptions\":[],\"bAcceptUnion\":false},{\"rgOptions\":[],\"bAcceptUnion\":false}]}}"}],
  ["user-collections.uc-vr", {"key":"user-collections.uc-vr","timestamp":6,
    "value":"{\"id\":\"uc-vr\",\"name\":\"VR\",\"added\":[],\"removed\":[],\"filterSpec\":{\"nFormatVersion\":2,\"strSearchText\":\"\",\"filterGroups\":[{\"rgOptions\":[],\"bAcceptUnion\":true},{\"rgOptions\":[],\"bAcceptUnion\":false},{\"rgOptions\":[3],\"bAcceptUnion\":false},{\"rgOptions\":[],\"bAcceptUnion\":false},{\"rgOptions\":[],\"bAcceptUnion\":false},{\"rgOptions\":[],\"bAcceptUnion\":false},{\"rgOptions\":[],\"bAcceptUnion\":false},{\"rgOptions\":[],\"bAcceptUnion\":false},{\"rgOptions\":[],\"bAcceptUnion\":false}]}}"}],
  ["user-collections.uc-search", {"key":"user-collections.uc-search","timestamp":7,
    "value":"{\"id\":\"uc-search\",\"name\":\"Search\",\"added\":[],\"removed\":[],\"filterSpec\":{\"nFormatVersion\":2,\"strSearchText\":\"portal\",\"filterGroups\":[]}}"}],
  ["user-collections.uc-noversion", {"key":"user-collections.uc-noversion","timestamp":9,
    "value":"{\"id\":\"uc-noversion\",\"name\":\"uc-noversion\",\"added\":[555],\"removed\":[],\"filterSpec\":{\"strSearchText\":\"\",\"filterGroups\":[{\"rgOptions\":[],\"bAcceptUnion\":false},{\"rgOptions\":[],\"bAcceptUnion\":false},{\"rgOptions\":[4],\"bAcceptUnion\":false},{\"rgOptions\":[],\"bAcceptUnion\":false},{\"rgOptions\":[],\"bAcceptUnion\":false},{\"rgOptions\":[],\"bAcceptUnion\":false},{\"rgOptions\":[],\"bAcceptUnion\":false},{\"rgOptions\":[],\"bAcceptUnion\":false},{\"rgOptions\":[],\"bAcceptUnion\":false}]}}"}],
  ["user-collections.uc-ignored", {"key":"user-collections.uc-ignored","timestamp":9,
    "value":"{\"id\":\"uc-ignored\",\"name\":\"uc-ignored\",\"added\":[],\"removed\":[],\"filterSpec\":{\"nFormatVersion\":2,\"strSearchText\":\"\",\"filterGroups\":[{\"rgOptions\":[1],\"bAcceptUnion\":false},{\"rgOptions\":[],\"bAcceptUnion\":false},{\"rgOptions\":[],\"bAcceptUnion\":false},{\"rgOptions\":[2],\"bAcceptUnion\":false},{\"rgOptions\":[],\"bAcceptUnion\":false},{\"rgOptions\":[],\"bAcceptUnion\":false},{\"rgOptions\":[],\"bAcceptUnion\":false},{\"rgOptions\":[],\"bAcceptUnion\":false},{\"rgOptions\":[],\"bAcceptUnion\":false}]}}"}],
  ["user-collections.uc-lang", {"key":"user-collections.uc-lang","timestamp":9,
    "value":"{\"id\":\"uc-lang\",\"name\":\"uc-lang\",\"added\":[],\"removed\":[],\"filterSpec\":{\"nFormatVersion\":2,\"strSearchText\":\"\",\"filterGroups\":[{\"rgOptions\":[],\"bAcceptUnion\":false},{\"rgOptions\":[],\"bAcceptUnion\":false},{\"rgOptions\":[],\"bAcceptUnion\":false},{\"rgOptions\":[],\"bAcceptUnion\":false},{\"rgOptions\":[],\"bAcceptUnion\":false},{\"rgOptions\":[],\"bAcceptUnion\":false},{\"rgOptions\":[],\"bAcceptUnion\":false},{\"rgOptions\":[0],\"bAcceptUnion\":false},{\"rgOptions\":[],\"bAcceptUnion\":false}]}}"}],
  ["user-collections.uc-static", {"key":"user-collections.uc-static","timestamp":9,
    "value":"{\"id\":\"uc-static\",\"name\":\"uc-static\",\"added\":[240,730],\"removed\":[730]}"}],
  ["user-collections.uc-newformat", {"key":"user-collections.uc-newformat","timestamp":9,
    "value":"{\"id\":\"uc-newformat\",\"name\":\"uc-newformat\",\"added\":[240,777],\"removed\":[240],\"filterSpec\":{\"nFormatVersion\":3,\"strSearchText\":\"\",\"filterGroups\":[{\"rgOptions\":[],\"bAcceptUnion\":false},{\"rgOptions\":[],\"bAcceptUnion\":false},{\"rgOptions\":[4],\"bAcceptUnion\":false},{\"rgOptions\":[],\"bAcceptUnion\":false},{\"rgOptions\":[],\"bAcceptUnion\":false},{\"rgOptions\":[],\"bAcceptUnion\":false},{\"rgOptions\":[],\"bAcceptUnion\":false},{\"rgOptions\":[],\"bAcceptUnion\":false},{\"rgOptions\":[],\"bAcceptUnion\":false}]}}"}],
  ["user-collections.uc-blank", {"key":"user-collections.uc-blank","timestamp":9,
    "value":"{\"id\":\"uc-blank\",\"name\":\"Blank\",\"added\":[777],\"removed\":[],\"filterSpec\":{\"nFormatVersion\":2,\"strSearchText\":\"\",\"filterGroups\":[{\"rgOptions\":[],\"bAcceptUnion\":false},{\"rgOptions\":[],\"bAcceptUnion\":false},{\"rgOptions\":[],\"bAcceptUnion\":false},{\"rgOptions\":[],\"bAcceptUnion\":false},{\"rgOptions\":[],\"bAcceptUnion\":false},{\"rgOptions\":[],\"bAcceptUnion\":false},{\"rgOptions\":[],\"bAcceptUnion\":false},{\"rgOptions\":[],\"bAcceptUnion\":false},{\"rgOptions\":[],\"bAcceptUnion\":false}]}}"}],
  ["user-collections.uc-legacy", {"key":"user-collections.uc-legacy","timestamp":9,
    "value":"{\"id\":\"uc-legacy\",\"name\":\"Legacy\",\"added\":[777],\"removed\":[],\"filterSpec\":{\"nFormatVersion\":2,\"strSearchText\":\"\",\"filterGroups\":[{\"rgOptions\":[],\"bAcceptUnion\":false},{\"rgOptions\":[],\"bAcceptUnion\":false},{\"rgOptions\":[15],\"bAcceptUnion\":false},{\"rgOptions\":[],\"bAcceptUnion\":false},{\"rgOptions\":[],\"bAcceptUnion\":false},{\"rgOptions\":[],\"bAcceptUnion\":false},{\"rgOptions\":[],\"bAcceptUnion\":false},{\"rgOptions\":[],\"bAcceptUnion\":false},{\"rgOptions\":[],\"bAcceptUnion\":false}]}}"}],
  ["user-collections.uc-both", {"key":"user-collections.uc-both","timestamp":9,
    "value":"{\"id\":\"uc-both\",\"name\":\"Both\",\"added\":[555],\"removed\":[555],\"filterSpec\":{\"nFormatVersion\":2,\"strSearchText\":\"\",\"filterGroups\":[{\"rgOptions\":[],\"bAcceptUnion\":false},{\"rgOptions\":[],\"bAcceptUnion\":false},{\"rgOptions\":[4],\"bAcceptUnion\":false},{\"rgOptions\":[],\"bAcceptUnion\":false},{\"rgOptions\":[],\"bAcceptUnion\":false},{\"rgOptions\":[],\"bAcceptUnion\":false},{\"rgOptions\":[],\"bAcceptUnion\":false},{\"rgOptions\":[],\"bAcceptUnion\":false},{\"rgOptions\":[],\"bAcceptUnion\":false}]}}"}],
  ["user-collections.uc-installed", {"key":"user-collections.uc-installed","timestamp":9,
    "value":"{\"id\":\"uc-installed\",\"name\":\"Installed\",\"added\":[],\"removed\":[],\"filterSpec\":{\"nFormatVersion\":2,\"strSearchText\":\"\",\"filterGroups\":[{\"rgOptions\":[],\"bAcceptUnion\":false},{\"rgOptions\":[1],\"bAcceptUnion\":false},{\"rgOptions\":[],\"bAcceptUnion\":false},{\"rgOptions\":[],\"bAcceptUnion\":false},{\"rgOptions\":[],\"bAcceptUnion\":false},{\"rgOptions\":[],\"bAcceptUnion\":false},{\"rgOptions\":[],\"bAcceptUnion\":false},{\"rgOptions\":[],\"bAcceptUnion\":false},{\"rgOptions\":[],\"bAcceptUnion\":false}]}}"}],
  ["user-collections.uc-union", {"key":"user-collections.uc-union","timestamp":9,
    "value":"{\"id\":\"uc-union\",\"name\":\"Union\",\"added\":[],\"removed\":[],\"filterSpec\":{\"nFormatVersion\":2,\"strSearchText\":\"\",\"filterGroups\":[{\"rgOptions\":[],\"bAcceptUnion\":false},{\"rgOptions\":[],\"bAcceptUnion\":false},{\"rgOptions\":[4,6],\"bAcceptUnion\":true},{\"rgOptions\":[],\"bAcceptUnion\":false},{\"rgOptions\":[],\"bAcceptUnion\":false},{\"rgOptions\":[],\"bAcceptUnion\":false},{\"rgOptions\":[],\"bAcceptUnion\":false},{\"rgOptions\":[],\"bAcceptUnion\":false},{\"rgOptions\":[],\"bAcceptUnion\":false}]}}"}],
  ["user-collections.uc-all", {"key":"user-collections.uc-all","timestamp":9,
    "value":"{\"id\":\"uc-all\",\"name\":\"All of\",\"added\":[],\"removed\":[],\"filterSpec\":{\"nFormatVersion\":2,\"strSearchText\":\"\",\"filterGroups\":[{\"rgOptions\":[],\"bAcceptUnion\":false},{\"rgOptions\":[],\"bAcceptUnion\":false},{\"rgOptions\":[4,6],\"bAcceptUnion\":false},{\"rgOptions\":[],\"bAcceptUnion\":false},{\"rgOptions\":[],\"bAcceptUnion\":false},{\"rgOptions\":[],\"bAcceptUnion\":false},{\"rgOptions\":[],\"bAcceptUnion\":false},{\"rgOptions\":[],\"bAcceptUnion\":false},{\"rgOptions\":[],\"bAcceptUnion\":false}]}}"}],
  ["user-collections.uc-removed", {"key":"user-collections.uc-removed","timestamp":9,
    "value":"{\"id\":\"uc-removed\",\"name\":\"Removed\",\"added\":[],\"removed\":[730],\"filterSpec\":{\"nFormatVersion\":2,\"strSearchText\":\"\",\"filterGroups\":[{\"rgOptions\":[],\"bAcceptUnion\":false},{\"rgOptions\":[],\"bAcceptUnion\":false},{\"rgOptions\":[4],\"bAcceptUnion\":false},{\"rgOptions\":[],\"bAcceptUnion\":false},{\"rgOptions\":[],\"bAcceptUnion\":false},{\"rgOptions\":[],\"bAcceptUnion\":false},{\"rgOptions\":[],\"bAcceptUnion\":false},{\"rgOptions\":[],\"bAcceptUnion\":false},{\"rgOptions\":[],\"bAcceptUnion\":false}]}}"}],
  ["user-collections.uc-deck", {"key":"user-collections.uc-deck","timestamp":9,
    "value":"{\"id\":\"uc-deck\",\"name\":\"Deck\",\"added\":[],\"removed\":[],\"filterSpec\":{\"nFormatVersion\":2,\"strSearchText\":\"\",\"filterGroups\":[{\"rgOptions\":[],\"bAcceptUnion\":false},{\"rgOptions\":[],\"bAcceptUnion\":false},{\"rgOptions\":[15,4],\"bAcceptUnion\":false},{\"rgOptions\":[],\"bAcceptUnion\":false},{\"rgOptions\":[],\"bAcceptUnion\":false},{\"rgOptions\":[],\"bAcceptUnion\":false},{\"rgOptions\":[],\"bAcceptUnion\":false},{\"rgOptions\":[],\"bAcceptUnion\":false},{\"rgOptions\":[],\"bAcceptUnion\":false}]}}"}],
  ["user-collections.uc-future", {"key":"user-collections.uc-future","timestamp":9,
    "value":"{\"id\":\"uc-future\",\"name\":\"Future\",\"added\":[],\"removed\":[],\"filterSpec\":{\"nFormatVersion\":2,\"strSearchText\":\"\",\"filterGroups\":[{\"rgOptions\":[],\"bAcceptUnion\":false},{\"rgOptions\":[],\"bAcceptUnion\":false},{\"rgOptions\":[4],\"bAcceptUnion\":false},{\"rgOptions\":[],\"bAcceptUnion\":false},{\"rgOptions\":[],\"bAcceptUnion\":false},{\"rgOptions\":[],\"bAcceptUnion\":false},{\"rgOptions\":[],\"bAcceptUnion\":false},{\"rgOptions\":[],\"bAcceptUnion\":false},{\"rgOptions\":[],\"bAcceptUnion\":false},{\"rgOptions\":[1],\"bAcceptUnion\":false}]}}"}]
]"#;

fn ids_of(value: Option<&Value>) -> Option<Vec<u32>> {
    match value {
        None | Some(Value::Null) => Some(Vec::new()),
        Some(Value::Array(items)) => items
            .iter()
            .map(|v| v.as_u64().and_then(|n| u32::try_from(n).ok()))
            .collect(),
        Some(_) => None,
    }
}

fn text_of(value: Option<&Value>) -> Option<String> {
    match value {
        None => Some(String::new()),
        Some(Value::String(s)) => Some(s.clone()),
        Some(_) => None,
    }
}

fn group_of(value: &Value) -> Option<FilterGroup> {
    let object = value.as_object()?;
    let accept_union = match object.get("bAcceptUnion") {
        None => false,
        Some(v) => v.as_bool()?,
    };
    Some(FilterGroup {
        options: ids_of(object.get("rgOptions"))?,
        accept_union,
    })
}

fn spec_of(value: &Value) -> Option<Option<FilterSpec>> {
    if value.is_null() {
        return Some(None);
    }
    let object = value.as_object()?;
    let format_version = match object.get("nFormatVersion") {
        None | Some(Value::Null) => None,
        Some(v) => Some(u32::try_from(v.as_u64()?).ok()?),
    };
    let groups = match object.get("filterGroups") {
        None => Vec::new(),
        Some(v) => v.as_array()?.iter().map(group_of).collect::<Option<Vec<_>>>()?,
    };
    Some(Some(FilterSpec {
        format_version,
        search_text: text_of(object.get("strSearchText"))?,
        groups,
    }))
}

/// What the collection JSON of a cloud-storage value reads as, with the
/// defaults Steam's format leaves implicit.
fn collection_of(text: &str) -> Option<RawCollection> {
    let value: Value = serde_json::from_str(text).ok()?;
    let object = value.as_object()?;
    let filter_spec = match object.get("filterSpec") {
        None => None,
        Some(v) => spec_of(v)?,
    };
    Some(RawCollection {
        id: object.get("id")?.as_str()?.to_string(),
        name: text_of(object.get("name"))?,
        added: ids_of(object.get("added"))?,
        removed: ids_of(object.get("removed"))?,
        filter_spec,
    })
}

fn parse_str(contents: &str) -> Option<Vec<Collection>> {
    let entries: Vec<(String, Value)> = serde_json::from_str(contents).ok()?;
    let entries = entries
        .into_iter()
        .map(|(key, entry)| {
            let collection = entry
                .get("value")
                .and_then(Value::as_str)
                .and_then(collection_of);
            CloudEntry { key, collection }
        })
        .collect();
    Some(parse_entries(entries))
}

fn card_game() -> AppInfo {
    AppInfo {
        categories: HashSet::from([29]),
        ..AppInfo::default()
    }
}

fn english_card_game() -> AppInfo {
    AppInfo {
        languages: HashSet::from([0]),
        ..card_game()
    }
}

fn parsed() -> Vec<Collection> {
    parse_str(FIXTURE).expect("fixture should parse")
}

fn by_id(models: Vec<CollectionModel>) -> HashMap<String, CollectionModel> {
    models.into_iter().map(|c| (c.id.clone(), c)).collect()
}

fn resolved() -> HashMap<String, CollectionModel> {
    let library = [240, 730, 555, 777, 999];
    let playtimes = PlaytimeMap::from([(
        240,
        AppPlaytime {
            playtime_minutes: Some(10),
            last_played: Some(1_600_000_000),
        },
    )]);
    let app_info = HashMap::from([(730, english_card_game()), (999, card_game())]);
    let installed = HashSet::new();
    let friends_owned = HashMap::from([(12345, HashSet::from([730, 777]))]);
    let facts = LibraryFacts {
        playtimes: &playtimes,
        app_info: &app_info,
        installed: &installed,
        have_app_info: true,
        have_playtimes: true,
        have_installed: true,
        friends_owned: &friends_owned,
        online: true,
    };
    by_id(resolve(parsed(), &library, &facts))
}

#[test]
fn non_collection_keys_and_tombstones_are_skipped() {
    let ids: Vec<String> = parsed().into_iter().map(|c| c.raw.id).collect();
    assert!(
        !ids.iter().any(|id| id == "uc-gone"),
        "tombstone kept: {ids:?}"
    );
    assert!(!ids.iter().any(|id| id == "GameReleased"));
    assert_eq!(ids.len(), 19);
}

#[test]
fn a_static_collection_is_its_added_list_intersected_with_the_library() {
    let models = resolved();
    let favorite = &models[FAVORITE_ID];
    assert_eq!(favorite.unsupported, None);
    assert_eq!(favorite.app_ids, vec![240, 730]);
}

#[test]
fn a_dynamic_collection_matches_then_adds_manually() {
    let models = resolved();
    let farm = &models["uc-farm"];
    assert_eq!(farm.unsupported, None);
    assert_eq!(farm.app_ids, vec![730, 555, 999]);
}

#[test]
fn a_short_group_list_is_treated_as_empty_trailing_groups() {
    assert!(
        parsed()
            .iter()
            .any(|c| c.raw.id == "uc-farm" && c.unsupported.is_none())
    );
}

/// The keys of each library folder's `apps` table in `libraryfolders.vdf`.
fn app_keys(vdf: &str) -> Vec<Vec<String>> {
    let folders: HashMap<String, HashMap<String, Value>> =
        keyvalues_serde::from_str(vdf).expect("fixture should parse");
    folders
        .values()
        .map(|folder| {
            folder
                .get("apps")
                .and_then(Value::as_object)
                .map(|apps| apps.keys().cloned().collect())
                .unwrap_or_default()
        })
        .collect()
}

#[test]
fn installed_apps_are_collected_across_every_library_folder() {
    let vdf = "\"libraryfolders\"\n{\n\t\"0\"\n\t{\n\t\t\"path\"\t\t\"/games\"\n\t\t\"apps\"\n\t\t{\n\t\t\t\"240\"\t\t\"1\"\n\t\t}\n\t}\n\t\"1\"\n\t{\n\t\t\"path\"\t\t\"/more\"\n\t\t\"apps\"\n\t\t{\n\t\t\t\"730\"\t\t\"2\"\n\t\t}\n\t}\n}\n";
    let installed = installed_app_ids(&app_keys(vdf));
    assert_eq!(installed, HashSet::from([240, 730]));
}

#[test]
fn keys_that_are_no_app_ids_are_skipped() {
    let folders = vec![
        vec!["240".to_string(), "abc".to_string(), "".to_string(), "+7".to_string()],
        vec![],
        vec!["4294967296".to_string(), "-1".to_string(), "4294967295".to_string()],
    ];
    assert_eq!(installed_app_ids(&folders), HashSet::from([240, 7, u32::MAX]));
    assert_eq!(installed_app_ids(&Vec::new()), HashSet::new());
}

#[test]
fn a_spec_with_nothing_set_matches_nothing_rather_than_everything() {
    let models = resolved();
    assert_eq!(models["uc-blank"].unsupported, None);
    assert_eq!(models["uc-blank"].app_ids, vec![777]);
    assert_eq!(models["uc-legacy"].app_ids, vec![777]);
}

#[test]
fn the_positions_steam_never_tests_are_ignored_rather_than_refused() {
    let models = resolved();
    assert_eq!(models["uc-ignored"].unsupported, None);
    assert_eq!(models["uc-ignored"].app_ids, vec![240, 730, 555, 777, 999]);
}

#[test]
fn a_language_filter_reads_the_languages_appinfo_lists() {
    let models = resolved();
    assert_eq!(models["uc-lang"].unsupported, None);
    assert_eq!(models["uc-lang"].app_ids, vec![730]);
}

#[test]
fn a_language_past_the_ones_we_know_is_refused() {
    let spec = format!(
        "{{\"id\":\"x\",\"name\":\"x\",\"added\":[],\"removed\":[],\"filterSpec\":             {{\"nFormatVersion\":2,\"strSearchText\":\"\",\"filterGroups\":[{}]}}}}",
        (0..9)
            .map(|i| if i == GROUP_LANGUAGES {
                "{\"rgOptions\":[99],\"bAcceptUnion\":false}"
            } else {
                "{\"rgOptions\":[],\"bAcceptUnion\":false}"
            })
            .collect::<Vec<_>>()
            .join(",")
    );
    let json = format!(
        "[[\"user-collections.x\",{{\"key\":\"user-collections.x\",\"value\":{}}}]]",
        serde_json::to_string(&spec).expect("string should serialise")
    );
    let parsed = parse_str(&json).expect("fixture should parse");
    assert_eq!(
        parsed[0].unsupported,
        Some(UnsupportedReason::UnknownFilter)
    );
}

#[test]
fn a_static_collection_ignores_its_removed_list() {
    assert_eq!(resolved()["uc-static"].app_ids, vec![240, 730]);
}

#[test]
fn a_spec_in_an_unknown_format_version_is_treated_as_no_filter() {
    let models = resolved();
    assert_eq!(models["uc-newformat"].unsupported, None);
    assert_eq!(models["uc-newformat"].app_ids, vec![240, 777]);
    assert_eq!(models["uc-noversion"].app_ids, vec![555]);
}

#[test]
fn a_removal_beats_an_addition_of_the_same_game() {
    assert_eq!(resolved()["uc-both"].app_ids, vec![730, 999]);
}

#[test]
fn a_collection_is_refused_when_the_files_behind_it_could_not_be_read() {
    let library = [240, 730];
    let playtimes = PlaytimeMap::new();
    let app_info = HashMap::new();
    let installed = HashSet::new();
    let friends_owned = HashMap::new();
    let facts = LibraryFacts {
        playtimes: &playtimes,
        app_info: &app_info,
        installed: &installed,
        have_app_info: false,
        have_playtimes: false,
        have_installed: false,
        friends_owned: &friends_owned,
        online: true,
    };
    let models = by_id(resolve(parsed(), &library, &facts));
    assert_eq!(
        models["uc-union"].unsupported,
        Some(UnsupportedReason::Unavailable),
        "needs appinfo.vdf"
    );
    assert_eq!(
        models["uc-installed"].unsupported,
        Some(UnsupportedReason::Unavailable),
        "needs the play state files"
    );
    assert_eq!(models[FAVORITE_ID].unsupported, None);
    assert_eq!(models["uc-blank"].unsupported, None);
}

#[test]
fn only_the_collections_that_needed_the_missing_file_are_refused() {
    let starve = |playtimes: bool, installed: bool| {
        let times = PlaytimeMap::new();
        let app_info = HashMap::from([(730, card_game()), (999, card_game())]);
        let apps = HashSet::new();
        let friends = HashMap::new();
        let facts = LibraryFacts {
            playtimes: &times,
            app_info: &app_info,
            installed: &apps,
            have_app_info: true,
            have_playtimes: playtimes,
            have_installed: installed,
            friends_owned: &friends,
            online: true,
        };
        resolve(parsed(), &[240, 730], &facts)
            .into_iter()
            .map(|c| (c.id.clone(), c.unsupported))
            .collect::<HashMap<String, Option<UnsupportedReason>>>()
    };

    let no_playtimes = starve(false, true);
    assert_eq!(
        no_playtimes["uc-farm"],
        Some(UnsupportedReason::Unavailable)
    );
    assert_eq!(no_playtimes["uc-installed"], None);

    let no_installed = starve(true, false);
    assert_eq!(no_installed["uc-farm"], None);
    assert_eq!(
        no_installed["uc-installed"],
        Some(UnsupportedReason::Unavailable)
    );
}

#[test]
fn a_group_is_a_union_or_an_intersection_of_its_options() {
    let models = resolved();
    assert_eq!(models["uc-union"].app_ids, vec![730, 999]);
    assert!(models["uc-all"].app_ids.is_empty());
}

#[test]
fn a_removal_takes_a_game_back_out_of_a_filters_own_matches() {
    assert_eq!(resolved()["uc-removed"].app_ids, vec![999]);
}

#[test]
fn the_option_steam_ignores_is_dropped_rather_than_failed() {
    let models = resolved();
    assert_eq!(models["uc-deck"].unsupported, None);
    assert_eq!(models["uc-deck"].app_ids, vec![730, 999]);
}

#[test]
fn a_group_added_after_this_evaluator_makes_a_collection_unsupported() {
    assert_eq!(
        resolved()["uc-future"].unsupported,
        Some(UnsupportedReason::UnknownFilter)
    );
}

#[test]
fn filters_we_cannot_reproduce_are_refused_rather_than_guessed() {
    let models = resolved();
    assert_eq!(
        models["uc-vr"].unsupported,
        Some(UnsupportedReason::UnknownFilter)
    );
    assert_eq!(
        models["uc-search"].unsupported,
        Some(UnsupportedReason::SearchText)
    );
    for id in ["uc-vr", "uc-search"] {
        assert!(
            models[id].app_ids.is_empty(),
            "{id} should resolve to nothing"
        );
    }
}

#[test]
fn a_friend_filter_keeps_the_games_that_friend_owns() {
    let models = resolved();
    assert_eq!(models["uc-friend"].unsupported, None);
    assert_eq!(models["uc-friend"].app_ids, vec![730, 777]);
}

#[test]
fn a_friend_whose_library_could_not_be_read_refuses_the_collection() {
    let library = [240, 730];
    let playtimes = PlaytimeMap::new();
    let app_info = HashMap::new();
    let installed = HashSet::new();
    let friends_owned = HashMap::new();
    let facts = LibraryFacts {
        playtimes: &playtimes,
        app_info: &app_info,
        installed: &installed,
        have_app_info: true,
        have_playtimes: true,
        have_installed: true,
        friends_owned: &friends_owned,
        online: true,
    };
    let models = by_id(resolve(parsed(), &library, &facts));
    assert_eq!(
        models["uc-friend"].unsupported,
        Some(UnsupportedReason::Unavailable)
    );
    assert!(models["uc-friend"].app_ids.is_empty());
}

#[test]
fn a_missing_friend_while_offline_is_reported_as_offline() {
    let library = [240, 730];
    let playtimes = PlaytimeMap::new();
    let app_info = HashMap::new();
    let installed = HashSet::new();
    let friends_owned = HashMap::new();
    let facts = LibraryFacts {
        playtimes: &playtimes,
        app_info: &app_info,
        installed: &installed,
        have_app_info: true,
        have_playtimes: true,
        have_installed: true,
        friends_owned: &friends_owned,
        online: false,
    };
    let models = by_id(resolve(parsed(), &library, &facts));
    assert_eq!(models["uc-friend"].unsupported, Some(UnsupportedReason::Offline));
    assert!(models["uc-friend"].app_ids.is_empty());
    assert_eq!(models[FAVORITE_ID].app_ids, vec![240, 730]);
}

#[test]
fn a_collection_names_the_facts_it_needs() {
    let models = resolved();
    let collections = parsed();
    assert!(collections.iter().any(|c| c.raw.id == "uc-installed" && c.needs_installed()));
    assert!(collections.iter().any(|c| c.raw.id == "uc-farm" && c.needs_playtimes()));
    assert!(collections.iter().any(|c| c.raw.id == "uc-union" && c.needs_app_info()));
    assert!(collections.iter().any(|c| c.raw.id == "uc-friend" && c.friend_ids() == vec![12345]));
    assert!(models["uc-installed"].app_ids.is_empty());
}

fn dynamic(id: &str, group: usize, options: Vec<u32>) -> Collection {
    let mut groups: Vec<FilterGroup> = (0..9)
        .map(|_| FilterGroup {
            options: Vec::new(),
            accept_union: false,
        })
        .collect();
    groups[group].options = options;
    Collection::from_raw(RawCollection {
        id: id.to_string(),
        name: id.to_string(),
        added: Vec::new(),
        removed: Vec::new(),
        filter_spec: Some(FilterSpec {
            format_version: Some(2),
            search_text: String::new(),
            groups,
        }),
    })
}

#[test]
fn a_verified_deck_game_is_also_playable() {
    let verified = AppInfo {
        deck_compat: 3,
        ..AppInfo::default()
    };
    let playable = AppInfo {
        deck_compat: 2,
        ..AppInfo::default()
    };
    let playtimes = PlaytimeMap::new();
    let app_info = HashMap::from([(1, verified), (2, playable)]);
    let installed = HashSet::new();
    let friends_owned = HashMap::new();
    let facts = LibraryFacts {
        playtimes: &playtimes,
        app_info: &app_info,
        installed: &installed,
        have_app_info: true,
        have_playtimes: true,
        have_installed: true,
        friends_owned: &friends_owned,
        online: true,
    };
    let collections = vec![
        dynamic("verified", 2, vec![12]),
        dynamic("playable", 2, vec![13]),
        dynamic("supported", 2, vec![14]),
    ];
    let models = by_id(resolve(collections, &[1, 2, 3], &facts));
    assert_eq!(models["verified"].app_ids, vec![1]);
    assert_eq!(models["playable"].app_ids, vec![1, 2]);
    assert_eq!(models["supported"].app_ids, vec![1, 2, 3]);
}

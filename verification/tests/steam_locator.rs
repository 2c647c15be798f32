use samrewritten::sam_error::SamError;
use samrewritten::steam_locator::{RootCandidate, SteamLocator};
use std::collections::HashSet;

fn disk(paths: &[&str]) -> impl Fn(&str) -> bool {
    let paths: HashSet<String> = paths.iter().map(|p| p.to_string()).collect();
    move |p: &str| paths.contains(p)
}

fn roots(paths: &[&str]) -> Vec<String> {
    paths.iter().map(|p| p.to_string()).collect()
}

fn candidate(path: &str, is_dir: bool, canonical: &str) -> RootCandidate {
    RootCandidate {
        path: path.to_string(),
        is_dir,
        canonical: canonical.to_string(),
    }
}

#[test]
fn the_local_config_comes_from_the_first_install_that_holds_it() {
    let is_there = disk(&["/b/userdata/7/config/localconfig.vdf", "/c/userdata/7/config/localconfig.vdf"]);
    let all = roots(&["/a", "/b", "/c"]);
    assert_eq!(
        SteamLocator::get_local_config_path(7, &all, &is_there),
        Some("/b/userdata/7/config/localconfig.vdf".to_string())
    );
    assert_eq!(SteamLocator::get_local_config_path(8, &all, &is_there), None);
}

#[test]
fn the_collections_file_is_found_by_account() {
    let file = "/a/userdata/42/config/cloudstorage/cloud-storage-namespace-1.json";
    let is_there = disk(&[file]);
    let all = roots(&["/a/"]);
    assert_eq!(SteamLocator::get_collections_path(42, &all, &is_there), Some(file.to_string()));
    assert_eq!(SteamLocator::get_collections_path(43, &all, &is_there), None);
}

#[test]
fn files_behind_collections_come_from_the_install_the_collections_came_from() {
    let is_there = disk(&[
        "/old/appcache/appinfo.vdf",
        "/old/steamapps/libraryfolders.vdf",
        "/old/userdata/5/config/localconfig.vdf",
        "/new/userdata/5/config/cloudstorage/cloud-storage-namespace-1.json",
        "/new/steamapps/libraryfolders.vdf",
        "/new/userdata/5/config/localconfig.vdf",
    ]);
    let all = roots(&["/old", "/new"]);
    assert_eq!(
        SteamLocator::get_app_info_path(5, &all, &is_there),
        None,
        "a stale install's appinfo is a wrong answer"
    );
    assert_eq!(
        SteamLocator::get_library_folders_path(5, &all, &is_there),
        Some("/new/steamapps/libraryfolders.vdf".to_string())
    );
    assert_eq!(
        SteamLocator::get_collections_local_config_path(5, &all, &is_there),
        Some("/new/userdata/5/config/localconfig.vdf".to_string())
    );
    assert_eq!(SteamLocator::get_library_folders_path(6, &all, &is_there), None);
}

#[test]
fn no_root_means_no_prefix() {
    assert_eq!(SteamLocator::get_user_game_stats_schema_prefix(&Vec::new()), None);
    assert_eq!(SteamLocator::get_local_app_banner_file_prefix(&Vec::new()), None);
    let all = roots(&["/home/u/.steam/steam", "/other"]);
    assert_eq!(
        SteamLocator::get_user_game_stats_schema_prefix(&all),
        Some("/home/u/.steam/steam/appcache/stats/UserGameStatsSchema_".to_string())
    );
    assert_eq!(
        SteamLocator::get_local_app_banner_file_prefix(&all),
        Some("/home/u/.steam/steam/appcache/librarycache/".to_string())
    );
}

#[test]
fn a_schema_path_is_the_cached_prefix_the_app_and_bin() {
    let mut locator = SteamLocator::new();
    let path = locator.get_user_game_stats_schema(&730, || Some("/s/UserGameStatsSchema_".to_string()));
    assert_eq!(path, Ok("/s/UserGameStatsSchema_730.bin".to_string()));
    let again = locator.get_user_game_stats_schema(&480, || panic!("the prefix is cached"));
    assert_eq!(again, Ok("/s/UserGameStatsSchema_480.bin".to_string()));
}

#[test]
fn without_a_schema_prefix_the_path_is_an_error_and_stays_one() {
    let mut locator = SteamLocator::new();
    assert_eq!(locator.get_user_game_stats_schema(&730, || None), Err(SamError::UnknownError));
    assert_eq!(
        locator.get_user_game_stats_schema(&730, || Some("/late/".to_string())),
        Err(SamError::UnknownError)
    );
}

#[test]
fn the_library_path_and_banner_prefix_are_probed_once() {
    let mut locator = SteamLocator::new();
    assert_eq!(locator.get_lib_path(|| Some("/lib.so".to_string())), Some("/lib.so".to_string()));
    assert_eq!(locator.get_lib_path(|| panic!("the path is cached")), Some("/lib.so".to_string()));
    assert_eq!(locator.get_local_app_banner_file_prefix_cached(|| None), None);
    assert_eq!(locator.get_local_app_banner_file_prefix_cached(|| Some("/x/".to_string())), None);
}

#[test]
fn install_roots_are_looked_for_in_order_of_preference() {
    assert_eq!(
        SteamLocator::install_root_candidates("/home/u"),
        roots(&[
            "/home/u/.var/app/com.valvesoftware.Steam/.local/share/Steam",
            "/home/u/snap/steam/common/.local/share/Steam",
            "/home/u/.local/share/Steam",
            "/home/u/.steam/steam",
            "/home/u/.steam/debian-installation",
            "/home/u/.steam/root",
        ])
    );
}

#[test]
fn install_roots_are_directories_each_place_once() {
    let found = SteamLocator::get_local_steam_install_root_folders(
        None,
        vec![
            candidate("/h/.var/app/Steam", false, "/h/.var/app/Steam"),
            candidate("/h/.local/share/Steam", true, "/h/.local/share/Steam"),
            candidate("/h/.steam/steam", true, "/h/.local/share/Steam"),
            candidate("/h/.steam/debian-installation", true, "/h/.steam/debian-installation"),
            candidate("/h/.steam/root", true, "/h/.local/share/Steam"),
        ],
    );
    assert_eq!(found, roots(&["/h/.local/share/Steam", "/h/.steam/debian-installation"]));
}

#[test]
fn an_explicit_install_root_wins_over_everything() {
    let found = SteamLocator::get_local_steam_install_root_folders(
        Some("/opt/steam".to_string()),
        vec![candidate("/h/.steam/steam", true, "/h/.steam/steam")],
    );
    assert_eq!(found, roots(&["/opt/steam"]));
    assert!(SteamLocator::get_local_steam_install_root_folders(None, Vec::new()).is_empty());
}

#[test]
fn the_steamclient_library_comes_from_the_first_install_holding_one() {
    let is_there = disk(&["/b/linux64/steamclient.so", "/c/linux64/steamclient.so"]);
    let all = roots(&["/a", "/b", "/c"]);
    let loud = SteamLocator::get_steamclient_lib_path(false, None, &all, &is_there);
    assert_eq!(loud.path, Some("/b/linux64/steamclient.so".to_string()));
    assert_eq!(loud.report, roots(&["/b/linux64/steamclient.so", "/c/linux64/steamclient.so"]));
    let quiet = SteamLocator::get_steamclient_lib_path(true, None, &all, &is_there);
    assert_eq!(quiet.path, Some("/b/linux64/steamclient.so".to_string()));
    assert!(quiet.report.is_empty());
}

#[test]
fn one_steamclient_library_is_no_warning_and_none_is_no_path() {
    let all = roots(&["/a", "/b"]);
    let one = SteamLocator::get_steamclient_lib_path(false, None, &all, &disk(&["/a/linux64/steamclient.so"]));
    assert_eq!(one.path, Some("/a/linux64/steamclient.so".to_string()));
    assert!(one.report.is_empty());
    let none = SteamLocator::get_steamclient_lib_path(false, None, &all, &disk(&[]));
    assert_eq!(none.path, None);
    assert!(none.report.is_empty());
}

#[test]
fn an_explicit_steamclient_path_is_taken_as_given() {
    let all = roots(&["/a"]);
    let chosen = SteamLocator::get_steamclient_lib_path(
        false,
        Some("/custom/steamclient.so".to_string()),
        &all,
        &disk(&["/a/linux64/steamclient.so"]),
    );
    assert_eq!(chosen.path, Some("/custom/steamclient.so".to_string()));
    assert!(chosen.report.is_empty());
}

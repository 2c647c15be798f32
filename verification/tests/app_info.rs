use samrewritten::app_info::{language_index, read_apps, read_from_bytes, AppInfo, APP_HEADER_LEN, MAGIC_V29, MAX_DEPTH};
use samrewritten::sam_error::SamError;
use std::collections::{HashMap, HashSet};

struct Builder {
    strings: Vec<String>,
    body: Vec<u8>,
}

impl Builder {
    fn new() -> Self {
        Self {
            strings: Vec::new(),
            body: Vec::new(),
        }
    }

    fn key(&mut self, name: &str) -> u32 {
        if let Some(i) = self.strings.iter().position(|s| s == name) {
            return i as u32;
        }
        self.strings.push(name.to_string());
        self.strings.len() as u32 - 1
    }

    fn open(&mut self, name: &str) -> &mut Self {
        let index = self.key(name);
        self.body.push(0);
        self.body.extend_from_slice(&index.to_le_bytes());
        self
    }

    fn close(&mut self) -> &mut Self {
        self.body.push(8);
        self
    }

    fn integer(&mut self, name: &str, value: i32) -> &mut Self {
        let index = self.key(name);
        self.body.push(2);
        self.body.extend_from_slice(&index.to_le_bytes());
        self.body.extend_from_slice(&value.to_le_bytes());
        self
    }

    fn string(&mut self, name: &str, value: &str) -> &mut Self {
        let index = self.key(name);
        self.body.push(1);
        self.body.extend_from_slice(&index.to_le_bytes());
        self.body.extend_from_slice(value.as_bytes());
        self.body.push(0);
        self
    }

    fn uint64(&mut self, name: &str, value: u64) -> &mut Self {
        let index = self.key(name);
        self.body.push(7);
        self.body.extend_from_slice(&index.to_le_bytes());
        self.body.extend_from_slice(&value.to_le_bytes());
        self
    }

    fn finish(&self, app_ids: &[u32]) -> Vec<u8> {
        let mut out = Vec::new();
        out.extend_from_slice(&MAGIC_V29.to_le_bytes());
        out.extend_from_slice(&1u32.to_le_bytes());
        let offset_at = out.len();
        out.extend_from_slice(&0i64.to_le_bytes());
        for app_id in app_ids {
            out.extend_from_slice(&app_id.to_le_bytes());
            let size = APP_HEADER_LEN + self.body.len() + 1;
            out.extend_from_slice(&(size as u32).to_le_bytes());
            out.extend(std::iter::repeat_n(0u8, APP_HEADER_LEN));
            out.extend_from_slice(&self.body);
            out.push(8);
        }
        out.extend_from_slice(&0u32.to_le_bytes());

        let table = out.len() as i64;
        out[offset_at..offset_at + 8].copy_from_slice(&table.to_le_bytes());
        out.extend_from_slice(&(self.strings.len() as u32).to_le_bytes());
        for s in &self.strings {
            out.extend_from_slice(s.as_bytes());
            out.push(0);
        }
        out
    }
}

fn sample() -> Vec<u8> {
    let mut b = Builder::new();
    b.open("appinfo");
    b.open("common");
    b.string("controller_support", "full");
    b.integer("mastersubs_granting_app", 1_289_670);
    b.open("store_tags").integer("0", 19).integer("1", 492).close();
    b.open("category")
        .integer("category_22", 1)
        .integer("category_29", 1)
        .close();
    b.open("steam_deck_compatibility")
        .integer("category", 3)
        .integer("steamos_compatibility", 2)
        .close();
    b.close();
    b.open("extended").string("developer", "irrelevant").close();
    b.close();
    b.finish(&[240, 730])
}

fn read_bytes(bytes: &[u8], wanted: &[u32]) -> Result<HashMap<u32, AppInfo>, SamError> {
    let wanted: HashSet<u32> = wanted.iter().copied().collect();
    read_from_bytes(bytes, &wanted)
}

#[test]
fn common_fields_are_read_and_other_apps_skipped_whole() {
    let apps = read_bytes(&sample(), &[730]).expect("fixture should parse");
    assert_eq!(apps.len(), 1, "only the wanted app is kept");
    let info = &apps[&730];
    assert_eq!(info.controller_support, "full");
    assert_eq!(info.mastersub_appid, 1_289_670);
    assert!(info.has_store_tag(19) && info.has_store_tag(492));
    assert!(info.has_category(22) && info.has_category(29));
    assert!(!info.has_category(1));
    assert_eq!(info.deck_compat, 3);
    assert_eq!(info.steamos_compat, 2);
    assert_eq!(info.steam_machine_compat, 0);
}

#[test]
fn a_truncated_file_fails_instead_of_returning_half_an_app() {
    let full = sample();
    let cut = read_bytes(&full[..full.len() / 2], &[240]);
    assert!(cut.is_err(), "a truncated string table has to be an error");
}

#[test]
fn a_wrong_magic_is_refused() {
    let mut bytes = sample();
    bytes[0] ^= 0xff;
    assert!(read_bytes(&bytes, &[240]).is_err());
}

#[test]
fn an_absurd_string_table_count_is_refused_rather_than_allocated() {
    let mut bytes = sample();
    bytes[8..16].copy_from_slice(&0i64.to_le_bytes());
    assert!(read_bytes(&bytes, &[240]).is_err());
}

#[test]
fn runaway_nesting_is_refused_rather_than_followed() {
    let mut b = Builder::new();
    let index = b.key("nested");
    b.open("appinfo");
    for _ in 0..(MAX_DEPTH as usize + 200) {
        b.body.push(0);
        b.body.extend_from_slice(&index.to_le_bytes());
    }
    let bytes = b.finish(&[240]);
    let apps = read_bytes(&bytes, &[240]).expect("the walk itself must not fail");
    assert!(apps.is_empty(), "the malformed app is dropped, not parsed");
}

#[test]
fn both_wanted_apps_are_read_and_unwanted_ones_left_out() {
    let apps = read_bytes(&sample(), &[240, 730, 999]).expect("fixture should parse");
    let ids: HashSet<u32> = apps.keys().copied().collect();
    assert_eq!(ids, HashSet::from([240, 730]));
    let none = read_bytes(&sample(), &[]).expect("fixture should parse");
    assert!(none.is_empty());
}

#[test]
fn common_may_stand_at_the_top_level() {
    let mut b = Builder::new();
    b.open("common");
    b.string("controller_support", "partial");
    b.close();
    let apps = read_bytes(&b.finish(&[10]), &[10]).expect("fixture should parse");
    assert_eq!(apps[&10].controller_support, "partial");
}

#[test]
fn an_appinfo_root_is_entered_only_once() {
    let mut b = Builder::new();
    b.open("appinfo");
    b.open("appinfo");
    b.open("common");
    b.string("controller_support", "full");
    b.close();
    b.close();
    b.close();
    let apps = read_bytes(&b.finish(&[10]), &[10]).expect("fixture should parse");
    assert_eq!(apps[&10].controller_support, "", "a nested appinfo is skipped whole");
}

#[test]
fn supported_languages_are_read_in_either_form() {
    let mut b = Builder::new();
    b.open("common");
    b.open("supported_languages");
    b.open("english").string("supported", "true").close();
    b.open("german").string("supported", "false").close();
    b.open("korean").integer("supported", 1).close();
    b.open("klingon").integer("supported", 1).close();
    b.open("french").integer("full_audio", 1).close();
    b.close();
    b.close();
    let apps = read_bytes(&b.finish(&[10]), &[10]).expect("fixture should parse");
    let info = &apps[&10];
    assert_eq!(info.languages, HashSet::from([0, 4]));
    assert!(info.has_language(0) && info.has_language(4));
    assert!(!info.has_language(1) && !info.has_language(2));
}

#[test]
fn store_tags_take_the_low_bits_of_wide_values() {
    let mut b = Builder::new();
    b.open("common");
    b.open("store_tags").integer("0", -1).uint64("1", 0x1_0000_0007).close();
    b.close();
    let apps = read_bytes(&b.finish(&[10]), &[10]).expect("fixture should parse");
    assert_eq!(apps[&10].store_tags, HashSet::from([u32::MAX, 7]));
}

#[test]
fn only_numbered_category_keys_count() {
    let mut b = Builder::new();
    b.open("common");
    b.open("category")
        .integer("category_2", 1)
        .integer("category_x", 1)
        .integer("flavour_5", 1)
        .string("category_41", "1")
        .close();
    b.close();
    let apps = read_bytes(&b.finish(&[10]), &[10]).expect("fixture should parse");
    assert_eq!(apps[&10].categories, HashSet::from([2, 41]));
}

#[test]
fn the_steam_machine_rating_is_read_too() {
    let mut b = Builder::new();
    b.open("common");
    b.open("steam_deck_compatibility")
        .integer("steam_machine_compatibility", 2)
        .string("category", "3")
        .close();
    b.close();
    let apps = read_bytes(&b.finish(&[10]), &[10]).expect("fixture should parse");
    assert_eq!(apps[&10].steam_machine_compat, 2);
    assert_eq!(apps[&10].deck_compat, 0, "a rating must be an integer");
}

#[test]
fn a_file_shorter_than_its_header_is_refused() {
    assert!(read_bytes(&[0x29, 0x44, 0x56], &[10]).is_err());
    assert!(read_bytes(&[], &[10]).is_err());
}

#[test]
fn a_key_past_the_string_table_drops_the_app() {
    let mut b = Builder::new();
    b.open("common");
    b.body.push(1);
    b.body.extend_from_slice(&99u32.to_le_bytes());
    b.body.extend_from_slice(b"x\0");
    b.close();
    let apps = read_bytes(&b.finish(&[10]), &[10]).expect("the walk itself must not fail");
    assert!(apps.is_empty());
}

#[test]
fn language_names_follow_steams_order() {
    assert_eq!(language_index("english"), Some(0));
    assert_eq!(language_index("koreana"), Some(4));
    assert_eq!(language_index("korean"), Some(4));
    assert_eq!(language_index("malay"), Some(31));
    assert_eq!(language_index("klingon"), None);
}

#[test]
fn a_default_app_has_nothing() {
    let info = AppInfo::default();
    assert!(!info.has_category(0) && !info.has_store_tag(0) && !info.has_language(0));
    assert_eq!(info.deck_compat, 0);
    assert_eq!(info.controller_support, "");
}

#[test]
fn the_app_walk_reads_with_a_table_already_read() {
    let mut b = Builder::new();
    b.open("common");
    b.string("controller_support", "full");
    b.close();
    let bytes = b.finish(&[10, 20]);
    let wanted: HashSet<u32> = HashSet::from([20]);
    let apps = read_apps(&bytes, &b.strings, &wanted, 16);
    assert_eq!(apps.keys().copied().collect::<Vec<u32>>(), vec![20]);
    assert_eq!(apps[&20].controller_support, "full");
    assert!(read_apps(&bytes, &b.strings, &wanted, bytes.len() + 3).is_empty());
    let no_table: Vec<String> = Vec::new();
    assert!(read_apps(&bytes, &no_table, &wanted, 16).is_empty(), "a key past the table drops the app");
}

#[test]
fn common_reads_alike_at_the_top_and_under_an_appinfo_root() {
    let fill = |b: &mut Builder| {
        b.open("common");
        b.string("controller_support", "partial");
        b.integer("mastersubs_granting_app", 7);
        b.open("supported_languages").open("greek").integer("supported", 1).close().close();
        b.close();
    };
    let mut top = Builder::new();
    fill(&mut top);
    let mut under = Builder::new();
    under.open("appinfo");
    fill(&mut under);
    under.close();
    let a = &read_bytes(&top.finish(&[10]), &[10]).unwrap()[&10];
    let b = &read_bytes(&under.finish(&[10]), &[10]).unwrap()[&10];
    assert_eq!(a.controller_support, b.controller_support);
    assert_eq!(a.mastersub_appid, b.mastersub_appid);
    assert_eq!(a.languages, b.languages);
    assert_eq!(a.languages, HashSet::from([24]));
}

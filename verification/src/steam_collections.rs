//! Steam's user collections: which of the library's games a collection holds,
//! its dynamic filter evaluated the way Steam's own matcher does.

use crate::app_info::{blank_info, AppInfo, AppInfoView};
use crate::text::{has_prefix, parse_u32_from, parsed_u32, str_eq};
use std::collections::{HashMap, HashSet};
use vstd::prelude::*;
use vstd::std_specs::iter::IteratorSpec;

verus! {

broadcast use vstd::std_specs::hash::group_hash_axioms;

pub const KEY_PREFIX: &'static str = "user-collections.";
pub const FAVORITE_ID: &'static str = "favorite";
pub const HIDDEN_ID: &'static str = "hidden";

// Positions 0 and 3 exist in the format; Valve's matcher tests neither.
pub const GROUP_STATE: usize = 1;
pub const GROUP_FEATURES: usize = 2;
pub const GROUP_STORE_TAGS: usize = 4;
pub const GROUP_SUBSCRIPTION: usize = 5;
pub const GROUP_FRIENDS: usize = 6;
pub const GROUP_LANGUAGES: usize = 7;
pub const GROUP_CATEGORIES: usize = 8;
pub const LANGUAGE_COUNT: u32 = 32;
pub const KNOWN_GROUP_COUNT: usize = 9;

pub const COMPAT_UNSUPPORTED: i32 = 1;
pub const COMPAT_PLAYABLE: i32 = 2;
pub const COMPAT_VERIFIED: i32 = 3;
pub const STEAMOS_UNSUPPORTED: i32 = 1;
pub const STEAMOS_COMPATIBLE: i32 = 2;

pub const OPTION_DECK_UNSUPPORTED: u32 = 15;
pub const OPTION_INSTALLED: u32 = 1;
pub const OPTION_PLAYED: u32 = 3;
pub const OPTION_UNPLAYED: u32 = 4;
pub const OPTION_EA_SUBSCRIPTION: u32 = 4000;
pub const EA_PLAY_APP_ID: u32 = 1_289_670;

/// The only filter-spec format this evaluator reads.
pub const SPEC_FORMAT_VERSION: u32 = 2;

/// Why a collection is shown without members.
#[derive(Debug, Clone, Copy, PartialEq, Eq, Structural)]
pub enum UnsupportedReason {
    SearchText,
    UnknownFilter,
    Unavailable,
    Offline,
}

/// A collection as the frontend shows it.
pub struct CollectionModel {
    pub id: String,
    pub name: String,
    pub app_ids: Vec<u32>,
    pub unsupported: Option<UnsupportedReason>,
}

/// One group of a dynamic collection's filter: a game passes if it has any
/// (union) or all of the options.
pub struct FilterGroup {
    pub options: Vec<u32>,
    pub accept_union: bool,
}

/// A dynamic collection's filter.
pub struct FilterSpec {
    /// An unknown version -- absent included -- builds no filter: the
    /// collection is then static.
    pub format_version: Option<u32>,
    pub search_text: String,
    pub groups: Vec<FilterGroup>,
}

/// A collection as Steam stores it.
pub struct RawCollection {
    pub id: String,
    pub name: String,
    pub added: Vec<u32>,
    pub removed: Vec<u32>,
    pub filter_spec: Option<FilterSpec>,
}

/// One entry of Steam's cloud-storage namespace: its key, and the collection
/// its value holds where it holds one (a deleted entry, or a value that is no
/// collection, holds none).
pub struct CloudEntry {
    pub key: String,
    pub collection: Option<RawCollection>,
}

/// A collection read from Steam, with the reason it cannot be evaluated, if
/// there is one.
pub struct Collection {
    pub raw: RawCollection,
    pub unsupported: Option<UnsupportedReason>,
}

/// When and how long an app was played.
pub struct AppPlaytime {
    pub playtime_minutes: Option<u32>,
    pub last_played: Option<u32>,
}

pub type PlaytimeMap = HashMap<u32, AppPlaytime>;

/// What is known of the user's library while collections are resolved.
pub struct LibraryFacts<'a> {
    pub playtimes: &'a PlaytimeMap,
    pub app_info: &'a HashMap<u32, AppInfo>,
    pub installed: &'a HashSet<u32>,
    /// Answering from facts that failed to load would empty a collection while
    /// still presenting it as an answer.
    pub have_app_info: bool,
    pub have_playtimes: bool,
    pub have_installed: bool,
    pub friends_owned: &'a HashMap<u32, HashSet<u32>>,
    pub online: bool,
}

/// The elements of `s` that `keep` holds of, in order.
pub open spec fn kept(s: Seq<u32>, keep: spec_fn(u32) -> bool) -> Seq<u32>
    decreases s.len(),
{
    if s.len() == 0 {
        seq![]
    } else if keep(s.last()) {
        kept(s.drop_last(), keep).push(s.last())
    } else {
        kept(s.drop_last(), keep)
    }
}

/// The group at `index` where it has options: an empty group filters nothing.
pub open spec fn group_at(spec: FilterSpec, index: int) -> Option<FilterGroup> {
    if 0 <= index < spec.groups@.len() && spec.groups@[index].options@.len() > 0 {
        Some(spec.groups@[index])
    } else {
        None
    }
}

/// A spec with no search text and no option set anywhere.
pub open spec fn spec_is_blank(spec: FilterSpec) -> bool {
    spec.search_text@.len() == 0 && forall|i: int|
        0 <= i < spec.groups@.len() ==> (#[trigger] spec.groups@[i]).options@.len() == 0
}

/// A group passes a game when any (union) or every option holds of it.
pub open spec fn group_holds(options: Seq<u32>, accept_union: bool, holds: spec_fn(u32) -> bool) -> bool {
    if accept_union {
        exists|i: int| 0 <= i < options.len() && holds(#[trigger] options[i])
    } else {
        forall|i: int| 0 <= i < options.len() ==> holds(#[trigger] options[i])
    }
}

/// What a play-state option says of a game; `None` for an option this
/// evaluator does not know.
pub open spec fn state_holds(option: u32, played: bool, installed: bool) -> Option<bool> {
    if option == OPTION_INSTALLED {
        Some(installed)
    } else if option == OPTION_PLAYED {
        Some(played)
    } else if option == OPTION_UNPLAYED {
        Some(!played)
    } else {
        None
    }
}

/// What a feature option says of an app's overview; `None` for an option
/// this evaluator cannot reproduce.
pub open spec fn feature_holds(option: u32, info: AppInfoView) -> Option<bool> {
    let full = info.controller_support == "full"@;
    let partial = info.controller_support == "partial"@;
    let c = info.categories;
    if option == 1 {
        Some(full || c.contains(28))
    } else if option == 2 {
        Some(full || partial || c.contains(28) || c.contains(18))
    } else if option == 3 || option == 26 {
        None
    } else if option == 4 {
        Some(c.contains(29))
    } else if option == 5 {
        Some(c.contains(30))
    } else if option == 6 {
        Some(c.contains(22))
    } else if option == 7 {
        Some(c.contains(2))
    } else if option == 8 {
        Some(c.contains(1) || c.contains(36) || c.contains(37) || c.contains(27) || c.contains(20) || c.contains(24))
    } else if option == 9 {
        Some(c.contains(9) || c.contains(38) || c.contains(39))
    } else if option == 10 {
        Some(c.contains(23))
    } else if option == 11 {
        Some(c.contains(44))
    } else if option == 12 {
        Some(info.deck_compat >= COMPAT_VERIFIED)
    } else if option == 13 {
        Some(info.deck_compat >= COMPAT_PLAYABLE)
    } else if option == 14 {
        Some(info.deck_compat != COMPAT_UNSUPPORTED)
    } else if option == 16 {
        Some(c.contains(55) || c.contains(56))
    } else if option == 17 {
        Some(c.contains(56))
    } else if option == 18 {
        Some(c.contains(57) || c.contains(58))
    } else if option == 19 {
        Some(c.contains(58))
    } else if option == 20 {
        Some(c.contains(59))
    } else if option == 21 {
        Some(c.contains(60))
    } else if option == 22 {
        Some(c.contains(61))
    } else if option == 23 {
        Some(c.contains(62))
    } else if option == 24 {
        Some(info.steamos_compat >= STEAMOS_COMPATIBLE)
    } else if option == 25 {
        Some(info.steamos_compat != STEAMOS_UNSUPPORTED)
    } else if option == 27 {
        Some(c.contains(39) || c.contains(37) || c.contains(24))
    } else if option == 28 {
        Some(false)
    } else if option == 29 {
        Some(info.steam_machine_compat >= COMPAT_VERIFIED)
    } else if option == 30 {
        Some(info.steam_machine_compat >= COMPAT_PLAYABLE)
    } else if option == 31 {
        Some(info.steam_machine_compat != COMPAT_UNSUPPORTED)
    } else {
        None
    }
}

pub open spec fn state_pred(played: bool, installed: bool) -> spec_fn(u32) -> bool {
    |o: u32| state_holds(o, played, installed) == Some(true)
}

pub open spec fn feature_pred(info: AppInfoView) -> spec_fn(u32) -> bool {
    |o: u32| feature_holds(o, info) == Some(true)
}

pub open spec fn store_tag_pred(info: AppInfoView) -> spec_fn(u32) -> bool {
    |o: u32| info.store_tags.contains(o)
}

pub open spec fn subscription_pred(info: AppInfoView) -> spec_fn(u32) -> bool {
    |o: u32| o == OPTION_EA_SUBSCRIPTION && info.mastersub_appid == EA_PLAY_APP_ID
}

pub open spec fn friend_pred(friends: Map<u32, HashSet<u32>>, app_id: u32) -> spec_fn(u32) -> bool {
    |o: u32| friends.contains_key(o) && friends[o]@.contains(app_id)
}

pub open spec fn language_pred(info: AppInfoView) -> spec_fn(u32) -> bool {
    |o: u32| info.languages.contains(o)
}

pub open spec fn category_pred(info: AppInfoView) -> spec_fn(u32) -> bool {
    |o: u32| info.categories.contains(o)
}

/// Whether a group, where the spec sets it, passes the game.
pub open spec fn group_passes(spec: FilterSpec, index: int, holds: spec_fn(u32) -> bool) -> bool {
    match group_at(spec, index) {
        Some(g) => group_holds(g.options@, g.accept_union, holds),
        None => true,
    }
}

/// Whether the user played an app: a last-played time past zero.
pub open spec fn was_played(facts: LibraryFacts, app_id: u32) -> bool {
    facts.playtimes@.contains_key(app_id) && match facts.playtimes@[app_id].last_played {
        Some(last) => last > 0,
        None => false,
    }
}

/// The overview Steam evaluates for an app: a blank one where it has no metadata.
pub open spec fn overview(facts: LibraryFacts, app_id: u32) -> AppInfoView {
    if facts.app_info@.contains_key(app_id) {
        facts.app_info@[app_id]@
    } else {
        blank_info()
    }
}

/// Whether a game passes every group the spec sets.
pub open spec fn app_matches(spec: FilterSpec, app_id: u32, facts: LibraryFacts) -> bool {
    let info = overview(facts, app_id);
    &&& group_passes(spec, GROUP_STATE as int, state_pred(was_played(facts, app_id), facts.installed@.contains(app_id)))
    &&& group_passes(spec, GROUP_FEATURES as int, feature_pred(info))
    &&& group_passes(spec, GROUP_STORE_TAGS as int, store_tag_pred(info))
    &&& group_passes(spec, GROUP_SUBSCRIPTION as int, subscription_pred(info))
    &&& group_passes(spec, GROUP_FRIENDS as int, friend_pred(facts.friends_owned@, app_id))
    &&& group_passes(spec, GROUP_LANGUAGES as int, language_pred(info))
    &&& group_passes(spec, GROUP_CATEGORIES as int, category_pred(info))
}

pub open spec fn state_known() -> spec_fn(u32) -> bool {
    |o: u32| state_holds(o, false, false) is Some
}

pub open spec fn feature_known() -> spec_fn(u32) -> bool {
    |o: u32| feature_holds(o, blank_info()) is Some
}

pub open spec fn subscription_known() -> spec_fn(u32) -> bool {
    |o: u32| o == OPTION_EA_SUBSCRIPTION
}

pub open spec fn language_known() -> spec_fn(u32) -> bool {
    |o: u32| o < LANGUAGE_COUNT
}

/// Whether every option of a group, where the spec sets it, is one `known`
/// accepts.
pub open spec fn options_known(spec: FilterSpec, index: int, known: spec_fn(u32) -> bool) -> bool {
    match group_at(spec, index) {
        Some(g) => all_hold(g.options@, known),
        None => true,
    }
}

/// Whether `holds` holds of every element of `s`.
pub open spec fn all_hold(s: Seq<u32>, holds: spec_fn(u32) -> bool) -> bool {
    forall|i: int| 0 <= i < s.len() ==> holds(#[trigger] s[i])
}

/// Why a spec cannot be evaluated exactly: a search text, a group past the
/// ones Steam's matcher has today, or an option this evaluator does not know.
pub open spec fn unsupported_reason_of(spec: FilterSpec) -> Option<UnsupportedReason> {
    if spec.search_text@.len() > 0 {
        Some(UnsupportedReason::SearchText)
    } else if exists|i: int| KNOWN_GROUP_COUNT <= i < spec.groups@.len() && #[trigger] group_at(spec, i) is Some {
        Some(UnsupportedReason::UnknownFilter)
    } else if !(options_known(spec, GROUP_STATE as int, state_known())
        && options_known(spec, GROUP_FEATURES as int, feature_known())
        && options_known(spec, GROUP_SUBSCRIPTION as int, subscription_known())
        && options_known(spec, GROUP_LANGUAGES as int, language_known())) {
        Some(UnsupportedReason::UnknownFilter)
    } else {
        None
    }
}

pub open spec fn not_deck_unsupported() -> spec_fn(u32) -> bool {
    |o: u32| o != OPTION_DECK_UNSUPPORTED
}

/// `after` is `before` with the option Steam drops on load taken out of the
/// features group.
pub open spec fn stripped(before: FilterSpec, after: FilterSpec) -> bool {
    &&& after.format_version == before.format_version
    &&& after.search_text@ == before.search_text@
    &&& after.groups@.len() == before.groups@.len()
    &&& forall|i: int|
        0 <= i < after.groups@.len() ==> {
            &&& (#[trigger] after.groups@[i]).accept_union == before.groups@[i].accept_union
            &&& after.groups@[i].options@ == if i == GROUP_FEATURES {
                kept(before.groups@[i].options@, not_deck_unsupported())
            } else {
                before.groups@[i].options@
            }
        }
}

/// `c` is `raw` as this evaluator reads it: a spec in another format than
/// [`SPEC_FORMAT_VERSION`] is dropped (the collection is then static), the
/// option Steam ignores is taken out, and a spec this evaluator cannot
/// reproduce marks the collection unsupported.
pub open spec fn normalized(raw: RawCollection, c: Collection) -> bool {
    &&& c.raw.id@ == raw.id@
    &&& c.raw.name@ == raw.name@
    &&& c.raw.added@ == raw.added@
    &&& c.raw.removed@ == raw.removed@
    &&& match raw.filter_spec {
        Some(spec) => if spec.format_version == Some(SPEC_FORMAT_VERSION) {
            c.raw.filter_spec matches Some(kept_spec) && stripped(spec, kept_spec)
        } else {
            c.raw.filter_spec is None
        },
        None => c.raw.filter_spec is None,
    }
    &&& c.unsupported == match c.raw.filter_spec {
        Some(spec) => unsupported_reason_of(spec),
        None => None,
    }
}

fn group_matches<F: Fn(u32) -> bool>(group: &FilterGroup, predicate: F, Ghost(holds): Ghost<spec_fn(u32) -> bool>) -> (r: bool)
    requires
        forall|o: u32| #[trigger] predicate.requires((o,)),
        forall|o: u32, b: bool| predicate.ensures((o,), b) ==> b == holds(o),
    ensures
        r == group_holds(group.options@, group.accept_union, holds),
{
    let n = group.options.len();
    let mut i = 0usize;
    while i < n
        invariant
            n == group.options@.len(),
            i <= n,
            forall|o: u32| #[trigger] predicate.requires((o,)),
            forall|o: u32, b: bool| predicate.ensures((o,), b) ==> b == holds(o),
            group.accept_union ==> forall|j: int| 0 <= j < i ==> !holds(#[trigger] group.options@[j]),
            !group.accept_union ==> forall|j: int| 0 <= j < i ==> holds(#[trigger] group.options@[j]),
        decreases n - i,
    {
        let hit = predicate(group.options[i]);
        if group.accept_union && hit {
            return true;
        }
        if !group.accept_union && !hit {
            return false;
        }
        i = i + 1;
    }
    !group.accept_union
}

fn every_option<F: Fn(u32) -> bool>(group: &FilterGroup, predicate: F, Ghost(holds): Ghost<spec_fn(u32) -> bool>) -> (r: bool)
    requires
        forall|o: u32| #[trigger] predicate.requires((o,)),
        forall|o: u32, b: bool| predicate.ensures((o,), b) ==> b == holds(o),
    ensures
        r == all_hold(group.options@, holds),
{
    let n = group.options.len();
    let mut i = 0usize;
    while i < n
        invariant
            n == group.options@.len(),
            i <= n,
            forall|o: u32| #[trigger] predicate.requires((o,)),
            forall|o: u32, b: bool| predicate.ensures((o,), b) ==> b == holds(o),
            forall|j: int| 0 <= j < i ==> holds(#[trigger] group.options@[j]),
        decreases n - i,
    {
        if !predicate(group.options[i]) {
            return false;
        }
        i = i + 1;
    }
    true
}

fn state_matches(option: u32, played: bool, installed: bool) -> (r: Option<bool>)
    ensures
        r == state_holds(option, played, installed),
{
    if option == OPTION_INSTALLED {
        Some(installed)
    } else if option == OPTION_PLAYED {
        Some(played)
    } else if option == OPTION_UNPLAYED {
        Some(!played)
    } else {
        None
    }
}

fn feature_matches(option: u32, info: &AppInfo) -> (r: Option<bool>)
    ensures
        r == feature_holds(option, info@),
{
    let full = str_eq(info.controller_support.as_str(), "full");
    let partial = str_eq(info.controller_support.as_str(), "partial");
    if option == 1 {
        Some(full || info.has_category(28))
    } else if option == 2 {
        Some(full || partial || info.has_category(28) || info.has_category(18))
    } else if option == 3 || option == 26 {
        // VR tests live on the client's app overview, not in appinfo.vdf.
        None
    } else if option == 4 {
        Some(info.has_category(29))
    } else if option == 5 {
        Some(info.has_category(30))
    } else if option == 6 {
        Some(info.has_category(22))
    } else if option == 7 {
        Some(info.has_category(2))
    } else if option == 8 {
        Some(info.has_category(1) || info.has_category(36) || info.has_category(37)
            || info.has_category(27) || info.has_category(20) || info.has_category(24))
    } else if option == 9 {
        Some(info.has_category(9) || info.has_category(38) || info.has_category(39))
    } else if option == 10 {
        Some(info.has_category(23))
    } else if option == 11 {
        Some(info.has_category(44))
    } else if option == 12 {
        Some(info.deck_compat >= COMPAT_VERIFIED)
    } else if option == 13 {
        Some(info.deck_compat >= COMPAT_PLAYABLE)
    } else if option == 14 {
        Some(info.deck_compat != COMPAT_UNSUPPORTED)
    } else if option == 16 {
        Some(info.has_category(55) || info.has_category(56))
    } else if option == 17 {
        Some(info.has_category(56))
    } else if option == 18 {
        Some(info.has_category(57) || info.has_category(58))
    } else if option == 19 {
        Some(info.has_category(58))
    } else if option == 20 {
        Some(info.has_category(59))
    } else if option == 21 {
        Some(info.has_category(60))
    } else if option == 22 {
        Some(info.has_category(61))
    } else if option == 23 {
        Some(info.has_category(62))
    } else if option == 24 {
        Some(info.steamos_compat >= STEAMOS_COMPATIBLE)
    } else if option == 25 {
        Some(info.steamos_compat != STEAMOS_UNSUPPORTED)
    } else if option == 27 {
        Some(info.has_category(39) || info.has_category(37) || info.has_category(24))
    } else if option == 28 {
        // Valve's matcher has no AnyController branch, so it matches nothing there.
        Some(false)
    } else if option == 29 {
        Some(info.steam_machine_compat >= COMPAT_VERIFIED)
    } else if option == 30 {
        Some(info.steam_machine_compat >= COMPAT_PLAYABLE)
    } else if option == 31 {
        Some(info.steam_machine_compat != COMPAT_UNSUPPORTED)
    } else {
        None
    }
}

impl FilterSpec {
    fn group(&self, index: usize) -> (r: Option<&FilterGroup>)
        ensures
            r is Some == group_at(*self, index as int) is Some,
            r matches Some(g) ==> *g == self.groups@[index as int],
    {
        if index < self.groups.len() && self.groups[index].options.len() > 0 {
            Some(&self.groups[index])
        } else {
            None
        }
    }

    /// Steam matches *no* game for a spec with nothing set, not every game.
    fn is_empty(&self) -> (r: bool)
        ensures
            r == spec_is_blank(*self),
    {
        if self.search_text.as_str().unicode_len() != 0 {
            return false;
        }
        let n = self.groups.len();
        let mut i = 0usize;
        while i < n
            invariant
                n == self.groups@.len(),
                i <= n,
                forall|j: int| 0 <= j < i ==> (#[trigger] self.groups@[j]).options@.len() == 0,
            decreases n - i,
        {
            if self.groups[i].options.len() != 0 {
                return false;
            }
            i = i + 1;
        }
        true
    }

    /// Steam drops this option as it loads a spec, so a stored one means nothing.
    fn strip_ignored_options(&mut self)
        ensures
            stripped(*old(self), *final(self)),
    {
        if GROUP_FEATURES < self.groups.len() {
            let group = &mut self.groups[GROUP_FEATURES];
            let mut kept_options: Vec<u32> = Vec::new();
            let n = group.options.len();
            let mut i = 0usize;
            while i < n
                invariant
                    n == group.options@.len(),
                    i <= n,
                    kept_options@ == kept(group.options@.take(i as int), not_deck_unsupported()),
                decreases n - i,
            {
                assert(group.options@.take(i + 1).drop_last() =~= group.options@.take(i as int));
                if group.options[i] != OPTION_DECK_UNSUPPORTED {
                    kept_options.push(group.options[i]);
                }
                i = i + 1;
            }
            assert(group.options@.take(n as int) =~= group.options@);
            group.options = kept_options;
        }
    }
}

fn unsupported_reason(spec: &FilterSpec) -> (r: Option<UnsupportedReason>)
    ensures
        r == unsupported_reason_of(*spec),
{
    if spec.search_text.as_str().unicode_len() != 0 {
        return Some(UnsupportedReason::SearchText);
    }
    let n = spec.groups.len();
    let mut i = KNOWN_GROUP_COUNT;
    while i < n
        invariant
            n == spec.groups@.len(),
            KNOWN_GROUP_COUNT <= i,
            spec.search_text@.len() == 0,
            forall|j: int| KNOWN_GROUP_COUNT <= j < i ==> #[trigger] group_at(*spec, j) is None,
        decreases n - i,
    {
        if spec.group(i).is_some() {
            assert(group_at(*spec, i as int) is Some);
            return Some(UnsupportedReason::UnknownFilter);
        }
        i = i + 1;
    }
    let state_check = |o: u32| -> (b: bool)
        ensures
            b == state_known()(o),
    { state_matches(o, false, false).is_some() };
    let state_ok = match spec.group(GROUP_STATE) {
        Some(g) => every_option(g, state_check, Ghost(state_known())),
        None => true,
    };
    let probe = AppInfo::default();
    let feature_check = |o: u32| -> (b: bool)
        ensures
            b == feature_known()(o),
    { feature_matches(o, &probe).is_some() };
    let features_ok = match spec.group(GROUP_FEATURES) {
        Some(g) => every_option(g, feature_check, Ghost(feature_known())),
        None => true,
    };
    let subscription_check = |o: u32| -> (b: bool)
        ensures
            b == subscription_known()(o),
    { o == OPTION_EA_SUBSCRIPTION };
    let subscription_ok = match spec.group(GROUP_SUBSCRIPTION) {
        Some(g) => every_option(g, subscription_check, Ghost(subscription_known())),
        None => true,
    };
    let language_check = |o: u32| -> (b: bool)
        ensures
            b == language_known()(o),
    { o < LANGUAGE_COUNT };
    let languages_ok = match spec.group(GROUP_LANGUAGES) {
        Some(g) => every_option(g, language_check, Ghost(language_known())),
        None => true,
    };
    if state_ok && features_ok && subscription_ok && languages_ok {
        None
    } else {
        Some(UnsupportedReason::UnknownFilter)
    }
}

impl Collection {
    /// Reads a stored collection the way this evaluator takes it.
    pub fn from_raw(raw: RawCollection) -> (c: Collection)
        ensures
            normalized(raw, c),
    {
        let mut raw = raw;
        let ghost before = raw;
        let spec = raw.filter_spec.take();
        let spec = match spec {
            Some(spec) => if spec.format_version == Some(SPEC_FORMAT_VERSION) {
                let mut spec = spec;
                spec.strip_ignored_options();
                Some(spec)
            } else {
                None
            },
            None => None,
        };
        let unsupported = match &spec {
            Some(spec) => unsupported_reason(spec),
            None => None,
        };
        raw.filter_spec = spec;
        Collection { raw, unsupported }
    }
}

fn matches(spec: &FilterSpec, app_id: u32, facts: &LibraryFacts) -> (r: bool)
    ensures
        r == app_matches(*spec, app_id, *facts),
{
    if let Some(group) = spec.group(GROUP_STATE) {
        let played = match facts.playtimes.get(&app_id) {
            Some(p) => match p.last_played {
                Some(last) => last > 0,
                None => false,
            },
            None => false,
        };
        let installed = facts.installed.contains(&app_id);
        assert(played == was_played(*facts, app_id));
        let check = |o: u32| -> (b: bool)
            ensures
                b == state_pred(played, installed)(o),
        {
            match state_matches(o, played, installed) {
                Some(b) => b,
                None => false,
            }
        };
        if !group_matches(group, check, Ghost(state_pred(played, installed))) {
            return false;
        }
    }
    // Steam evaluates a blank overview for apps it has no metadata on.
    let missing = AppInfo::default();
    let info = match facts.app_info.get(&app_id) {
        Some(info) => info,
        None => &missing,
    };
    assert(info@ == overview(*facts, app_id));
    if let Some(group) = spec.group(GROUP_FEATURES) {
        let check = |o: u32| -> (b: bool)
            ensures
                b == feature_pred(info@)(o),
        {
            match feature_matches(o, info) {
                Some(b) => b,
                None => false,
            }
        };
        if !group_matches(group, check, Ghost(feature_pred(info@))) {
            return false;
        }
    }
    if let Some(group) = spec.group(GROUP_STORE_TAGS) {
        let check = |o: u32| -> (b: bool)
            ensures
                b == store_tag_pred(info@)(o),
        { info.has_store_tag(o) };
        if !group_matches(group, check, Ghost(store_tag_pred(info@))) {
            return false;
        }
    }
    if let Some(group) = spec.group(GROUP_SUBSCRIPTION) {
        let check = |o: u32| -> (b: bool)
            ensures
                b == subscription_pred(info@)(o),
        { o == OPTION_EA_SUBSCRIPTION && info.mastersub_appid == EA_PLAY_APP_ID };
        if !group_matches(group, check, Ghost(subscription_pred(info@))) {
            return false;
        }
    }
    // Valve also drops a game the filtered friend is the one lending, which
    // nothing we can read names.
    if let Some(group) = spec.group(GROUP_FRIENDS) {
        let check = |o: u32| -> (b: bool)
            ensures
                b == friend_pred(facts.friends_owned@, app_id)(o),
        {
            match facts.friends_owned.get(&o) {
                Some(owned) => owned.contains(&app_id),
                None => false,
            }
        };
        if !group_matches(group, check, Ghost(friend_pred(facts.friends_owned@, app_id))) {
            return false;
        }
    }
    if let Some(group) = spec.group(GROUP_LANGUAGES) {
        let check = |o: u32| -> (b: bool)
            ensures
                b == language_pred(info@)(o),
        { info.has_language(o) };
        if !group_matches(group, check, Ghost(language_pred(info@))) {
            return false;
        }
    }
    if let Some(group) = spec.group(GROUP_CATEGORIES) {
        let check = |o: u32| -> (b: bool)
            ensures
                b == category_pred(info@)(o),
        { info.has_category(o) };
        if !group_matches(group, check, Ghost(category_pred(info@))) {
            return false;
        }
    }
    true
}

/// The spec a collection is evaluated by: none where it is unsupported.
pub open spec fn usable(c: Collection) -> Option<FilterSpec> {
    if c.unsupported is Some {
        None
    } else {
        c.raw.filter_spec
    }
}

/// Whether evaluating the collection reads `appinfo.vdf`.
pub open spec fn needs_app_info_of(c: Collection) -> bool {
    match usable(c) {
        Some(spec) => group_at(spec, GROUP_FEATURES as int) is Some || group_at(spec, GROUP_STORE_TAGS as int) is Some
            || group_at(spec, GROUP_SUBSCRIPTION as int) is Some || group_at(spec, GROUP_LANGUAGES as int) is Some
            || group_at(spec, GROUP_CATEGORIES as int) is Some,
        None => false,
    }
}

/// Whether the play-state group asks for any of `wanted`.
pub open spec fn state_wants(c: Collection, wanted: Seq<u32>) -> bool {
    match usable(c) {
        Some(spec) => match group_at(spec, GROUP_STATE as int) {
            Some(g) => exists|i: int| 0 <= i < g.options@.len() && wanted.contains(#[trigger] g.options@[i]),
            None => false,
        },
        None => false,
    }
}

pub open spec fn needs_playtimes_of(c: Collection) -> bool {
    state_wants(c, seq![OPTION_PLAYED, OPTION_UNPLAYED])
}

pub open spec fn needs_installed_of(c: Collection) -> bool {
    state_wants(c, seq![OPTION_INSTALLED])
}

/// The friends whose libraries the collection filters on.
pub open spec fn friend_ids_of(c: Collection) -> Seq<u32> {
    match usable(c) {
        Some(spec) => match group_at(spec, GROUP_FRIENDS as int) {
            Some(g) => g.options@,
            None => seq![],
        },
        None => seq![],
    }
}

fn slice_has(values: &[u32], v: u32) -> (r: bool)
    ensures
        r == values@.contains(v),
{
    let mut i = 0usize;
    while i < values.len()
        invariant
            i <= values@.len(),
            forall|j: int| 0 <= j < i ==> values@[j] != v,
        decreases values@.len() - i,
    {
        if values[i] == v {
            return true;
        }
        i = i + 1;
    }
    false
}

impl Collection {
    fn usable_spec(&self) -> (r: Option<&FilterSpec>)
        ensures
            r is Some == usable(*self) is Some,
            r matches Some(spec) ==> usable(*self) == Some(*spec),
    {
        if self.unsupported.is_some() {
            return None;
        }
        self.raw.filter_spec.as_ref()
    }

    pub fn needs_app_info(&self) -> (r: bool)
        ensures
            r == needs_app_info_of(*self),
    {
        match self.usable_spec() {
            Some(spec) => spec.group(GROUP_FEATURES).is_some() || spec.group(GROUP_STORE_TAGS).is_some()
                || spec.group(GROUP_SUBSCRIPTION).is_some() || spec.group(GROUP_LANGUAGES).is_some()
                || spec.group(GROUP_CATEGORIES).is_some(),
            None => false,
        }
    }

    fn state_options(&self, wanted: &[u32]) -> (r: bool)
        ensures
            r == state_wants(*self, wanted@),
    {
        let spec = match self.usable_spec() {
            Some(spec) => spec,
            None => return false,
        };
        let group = match spec.group(GROUP_STATE) {
            Some(group) => group,
            None => return false,
        };
        assert(group_at(*spec, GROUP_STATE as int) == Some(*group));
        let n = group.options.len();
        let mut i = 0usize;
        while i < n
            invariant
                n == group.options@.len(),
                i <= n,
                usable(*self) == Some(*spec),
                group_at(*spec, GROUP_STATE as int) == Some(*group),
                forall|j: int| 0 <= j < i ==> !wanted@.contains(#[trigger] group.options@[j]),
            decreases n - i,
        {
            if slice_has(wanted, group.options[i]) {
                proof {
                    let g = group_at(usable(*self).unwrap(), GROUP_STATE as int).unwrap();
                    assert(g == *group);
                    assert(wanted@.contains(g.options@[i as int]));
                }
                return true;
            }
            i = i + 1;
        }
        false
    }

    pub fn needs_playtimes(&self) -> (r: bool)
        ensures
            r == needs_playtimes_of(*self),
    {
        let wanted = [OPTION_PLAYED, OPTION_UNPLAYED];
        let r = self.state_options(&wanted);
        assert(wanted@ =~= seq![OPTION_PLAYED, OPTION_UNPLAYED]);
        r
    }

    pub fn needs_installed(&self) -> (r: bool)
        ensures
            r == needs_installed_of(*self),
    {
        let wanted = [OPTION_INSTALLED];
        let r = self.state_options(&wanted);
        assert(wanted@ =~= seq![OPTION_INSTALLED]);
        r
    }

    pub fn friend_ids(&self) -> (ids: Vec<u32>)
        ensures
            ids@ == friend_ids_of(*self),
    {
        let mut ids: Vec<u32> = Vec::new();
        if let Some(spec) = self.usable_spec() {
            if let Some(group) = spec.group(GROUP_FRIENDS) {
                let n = group.options.len();
                let mut i = 0usize;
                while i < n
                    invariant
                        n == group.options@.len(),
                        i <= n,
                        ids@ == group.options@.take(i as int),
                    decreases n - i,
                {
                    ids.push(group.options[i]);
                    i = i + 1;
                    assert(ids@ =~= group.options@.take(i as int));
                }
                assert(group.options@.take(n as int) =~= group.options@);
            }
        }
        ids
    }
}

/// Whether a friend the collection filters on has no library in the facts.
pub open spec fn missing_friend(c: Collection, facts: LibraryFacts) -> bool {
    exists|i: int|
        0 <= i < friend_ids_of(c).len() && !facts.friends_owned@.contains_key(#[trigger] friend_ids_of(c)[i])
}

/// Why a collection resolves to nothing: its own reason, or the facts it
/// needs are missing -- a friend's library while offline, or a file that
/// could not be read.
pub open spec fn resolved_unsupported(c: Collection, facts: LibraryFacts) -> Option<UnsupportedReason> {
    match c.unsupported {
        Some(reason) => Some(reason),
        None => if missing_friend(c, facts) && !facts.online {
            Some(UnsupportedReason::Offline)
        } else if missing_friend(c, facts) || (needs_app_info_of(c) && !facts.have_app_info)
            || (needs_playtimes_of(c) && !facts.have_playtimes) || (needs_installed_of(c)
            && !facts.have_installed) {
            Some(UnsupportedReason::Unavailable)
        } else {
            None
        },
    }
}

/// Whether a game matches the collection's filter; a blank filter matches nothing.
pub open spec fn matched_pred(raw: RawCollection, facts: LibraryFacts) -> spec_fn(u32) -> bool {
    |id: u32| match raw.filter_spec {
        Some(spec) => !spec_is_blank(spec) && app_matches(spec, id, facts),
        None => false,
    }
}

/// Whether a game is in the collection: Steam's order is matches, then
/// additions, then removals (these for a dynamic collection only).
pub open spec fn member_pred(raw: RawCollection, facts: LibraryFacts) -> spec_fn(u32) -> bool {
    |id: u32|
        (matched_pred(raw, facts)(id) || raw.added@.contains(id)) && !(raw.filter_spec is Some
            && raw.removed@.contains(id))
}

/// `m` is what the collection `c` resolves to over `library`: its members in
/// the library's order, or nothing where it is unsupported.
pub open spec fn resolved_model(c: Collection, library: Seq<u32>, facts: LibraryFacts, m: CollectionModel) -> bool {
    &&& m.id@ == c.raw.id@
    &&& m.name@ == c.raw.name@
    &&& m.unsupported == resolved_unsupported(c, facts)
    &&& m.app_ids@ == if m.unsupported is None {
        kept(library, member_pred(c.raw, facts))
    } else {
        seq![]
    }
}

proof fn lemma_push_contains(s: Seq<u32>, v: u32, x: u32)
    ensures
        s.push(v).contains(x) <==> (s.contains(x) || x == v),
{
    if s.contains(x) {
        let k = choose|k: int| 0 <= k < s.len() && s[k] == x;
        assert(s.push(v)[k] == x);
    }
    if x == v {
        assert(s.push(v)[s.len() as int] == v);
    }
    if s.push(v).contains(x) {
        let k = choose|k: int| 0 <= k < s.push(v).len() && s.push(v)[k] == x;
        if k < s.len() {
            assert(s[k] == x);
        }
    }
}

fn resolve_one(collection: Collection, library: &[u32], facts: &LibraryFacts) -> (m: CollectionModel)
    ensures
        resolved_model(collection, library@, *facts, m),
{
    let ghost c = collection;
    let unsupported = match collection.unsupported {
        Some(reason) => Some(reason),
        None => {
            let friends = collection.friend_ids();
            let mut missing = false;
            let mut i = 0usize;
            while i < friends.len()
                invariant
                    i <= friends@.len(),
                    friends@ == friend_ids_of(c),
                    missing == exists|j: int| 0 <= j < i && !facts.friends_owned@.contains_key(#[trigger] friends@[j]),
                decreases friends@.len() - i,
            {
                if !facts.friends_owned.contains_key(&friends[i]) {
                    missing = true;
                }
                i = i + 1;
            }
            if missing && !facts.online {
                Some(UnsupportedReason::Offline)
            } else if missing || (collection.needs_app_info() && !facts.have_app_info) || (
            collection.needs_playtimes() && !facts.have_playtimes) || (collection.needs_installed()
                && !facts.have_installed) {
                Some(UnsupportedReason::Unavailable)
            } else {
                None
            }
        },
    };
    let raw = collection.raw;
    let mut app_ids: Vec<u32> = Vec::new();
    if unsupported.is_none() {
        let ghost matched = matched_pred(raw, *facts);
        let mut members: HashSet<u32> = HashSet::new();
        let n = library.len();
        if let Some(spec) = raw.filter_spec.as_ref() {
            if !spec.is_empty() {
                let mut i = 0usize;
                while i < n
                    invariant
                        n == library@.len(),
                        i <= n,
                        raw.filter_spec == Some(*spec),
                        !spec_is_blank(*spec),
                        matched == matched_pred(raw, *facts),
                        forall|id: u32| #[trigger] members@.contains(id) <==> (library@.take(i as int).contains(id) && matched(id)),
                    decreases n - i,
                {
                    let id = library[i];
                    assert(library@.take(i + 1) =~= library@.take(i as int).push(id));
                    let hit = matches(spec, id, facts);
                    if hit {
                        members.insert(id);
                    }
                    assert forall|x: u32| #[trigger] members@.contains(x) <==> (library@.take(i + 1).contains(x) && matched(x)) by {
                        lemma_push_contains(library@.take(i as int), id, x);
                    }
                    i = i + 1;
                }
                assert(library@.take(n as int) =~= library@);
            }
        }
        assert(forall|id: u32| #[trigger] members@.contains(id) <==> (library@.contains(id) && matched(id)));
        let mut j = 0usize;
        while j < raw.added.len()
            invariant
                j <= raw.added@.len(),
                matched == matched_pred(raw, *facts),
                forall|id: u32| #[trigger] members@.contains(id) <==> ((library@.contains(id) && matched(id)) || raw.added@.take(j as int).contains(id)),
            decreases raw.added@.len() - j,
        {
            let id = raw.added[j];
            assert(raw.added@.take(j + 1) =~= raw.added@.take(j as int).push(id));
            members.insert(id);
            assert forall|x: u32| #[trigger] members@.contains(x) <==> ((library@.contains(x) && matched(x)) || raw.added@.take(j + 1).contains(x)) by {
                lemma_push_contains(raw.added@.take(j as int), id, x);
            }
            j = j + 1;
        }
        assert(raw.added@.take(raw.added@.len() as int) =~= raw.added@);
        if raw.filter_spec.is_some() {
            let mut k = 0usize;
            while k < raw.removed.len()
                invariant
                    k <= raw.removed@.len(),
                    matched == matched_pred(raw, *facts),
                    forall|id: u32| #[trigger] members@.contains(id) <==> ((library@.contains(id) && matched(id)) || raw.added@.contains(id)) && !raw.removed@.take(k as int).contains(id),
                decreases raw.removed@.len() - k,
            {
                let id = raw.removed[k];
                assert(raw.removed@.take(k + 1) =~= raw.removed@.take(k as int).push(id));
                members.remove(&id);
                assert forall|x: u32| #[trigger] members@.contains(x) <==> ((library@.contains(x) && matched(x)) || raw.added@.contains(x)) && !raw.removed@.take(k + 1).contains(x) by {
                    lemma_push_contains(raw.removed@.take(k as int), id, x);
                }
                k = k + 1;
            }
            assert(raw.removed@.take(raw.removed@.len() as int) =~= raw.removed@);
        }
        let ghost member = member_pred(raw, *facts);
        assert(forall|id: u32| library@.contains(id) ==> (#[trigger] members@.contains(id) <==> member(id)));
        let mut i = 0usize;
        while i < n
            invariant
                n == library@.len(),
                i <= n,
                member == member_pred(raw, *facts),
                forall|id: u32| library@.contains(id) ==> (#[trigger] members@.contains(id) <==> member(id)),
                app_ids@ == kept(library@.take(i as int), member),
            decreases n - i,
        {
            let id = library[i];
            assert(library@.take(i + 1).drop_last() =~= library@.take(i as int));
            assert(library@.contains(id));
            if members.contains(&id) {
                app_ids.push(id);
            }
            i = i + 1;
        }
        assert(library@.take(n as int) =~= library@);
    }
    CollectionModel { id: raw.id, name: raw.name, app_ids, unsupported }
}

/// Resolves each collection over the library, in the collections' order.
pub fn resolve(collections: Vec<Collection>, library: &[u32], facts: &LibraryFacts) -> (models: Vec<CollectionModel>)
    ensures
        models@.len() == collections@.len(),
        forall|i: int| 0 <= i < collections@.len() ==> resolved_model(collections@[i], library@, *facts, #[trigger] models@[i]),
{
    let ghost all = collections@;
    let mut models: Vec<CollectionModel> = Vec::new();
    for collection in it: collections
        invariant
            it.seq() == all,
            models@.len() == it.index(),
            forall|i: int| 0 <= i < it.index() ==> resolved_model(all[i], library@, *facts, #[trigger] models@[i]),
    {
        models.push(resolve_one(collection, library, facts));
    }
    models
}

/// The collections stored among the cloud-storage entries: those under the
/// collections' key prefix that hold one.
pub open spec fn stored_collections(entries: Seq<CloudEntry>) -> Seq<RawCollection>
    decreases entries.len(),
{
    if entries.len() == 0 {
        seq![]
    } else {
        let e = entries.last();
        let rest = stored_collections(entries.drop_last());
        if is_collection_key(e.key@) && e.collection is Some {
            rest.push(e.collection.unwrap())
        } else {
            rest
        }
    }
}

pub open spec fn is_collection_key(key: Seq<char>) -> bool {
    "user-collections."@.len() <= key.len() && key.subrange(0, "user-collections."@.len() as int)
        == "user-collections."@
}

/// Reads the collections out of Steam's cloud-storage entries, in order;
/// entries under other keys, deleted ones and values that hold no collection
/// are skipped.
pub fn parse_entries(entries: Vec<CloudEntry>) -> (out: Vec<Collection>)
    ensures
        out@.len() == stored_collections(entries@).len(),
        forall|i: int| 0 <= i < out@.len() ==> normalized(stored_collections(entries@)[i], #[trigger] out@[i]),
{
    let ghost all = entries@;
    let mut out: Vec<Collection> = Vec::new();
    for entry in it: entries
        invariant
            it.seq() == all,
            out@.len() == stored_collections(all.take(it.index() as int)).len(),
            forall|i: int| 0 <= i < out@.len() ==> normalized(stored_collections(all.take(it.index() as int))[i], #[trigger] out@[i]),
    {
        let ghost idx = it.index();
        assert(all.take(idx + 1).drop_last() =~= all.take(idx as int));
        if has_prefix(entry.key.as_str(), "user-collections.") {
            if let Some(raw) = entry.collection {
                out.push(Collection::from_raw(raw));
            }
        }
    }
    assert(all.take(all.len() as int) =~= all);
    out
}

proof fn lemma_kept_members(s: Seq<u32>, keep: spec_fn(u32) -> bool)
    ensures
        forall|i: int| 0 <= i < kept(s, keep).len() ==> keep(#[trigger] kept(s, keep)[i]) && s.contains(kept(s, keep)[i]),
    decreases s.len(),
{
    if s.len() > 0 {
        lemma_kept_members(s.drop_last(), keep);
        let k = kept(s.drop_last(), keep);
        assert forall|i: int| 0 <= i < kept(s, keep).len() implies keep(#[trigger] kept(s, keep)[i]) && s.contains(kept(s, keep)[i]) by {
            if i < k.len() {
                let j = choose|j: int| 0 <= j < s.drop_last().len() && s.drop_last()[j] == k[i];
                assert(s[j] == k[i]);
            } else {
                assert(s[s.len() - 1] == s.last());
            }
        }
    }
}

proof fn lemma_kept_same(s: Seq<u32>, p: spec_fn(u32) -> bool, q: spec_fn(u32) -> bool)
    requires
        forall|i: int| 0 <= i < s.len() ==> p(#[trigger] s[i]) == q(s[i]),
    ensures
        kept(s, p) == kept(s, q),
    decreases s.len(),
{
    if s.len() > 0 {
        assert(forall|i: int| 0 <= i < s.drop_last().len() ==> s.drop_last()[i] == s[i]);
        lemma_kept_same(s.drop_last(), p, q);
        assert(p(s[s.len() - 1]) == q(s[s.len() - 1]));
    }
}

pub open spec fn added_pred(raw: RawCollection) -> spec_fn(u32) -> bool {
    |id: u32| raw.added@.contains(id)
}

pub open spec fn added_not_removed_pred(raw: RawCollection) -> spec_fn(u32) -> bool {
    |id: u32| raw.added@.contains(id) && !raw.removed@.contains(id)
}

/// A static collection is its added list intersected with the library, in
/// the library's order; its removed list is ignored.
pub proof fn static_collection_is_its_added_list(c: Collection, library: Seq<u32>, facts: LibraryFacts, m: CollectionModel)
    requires
        resolved_model(c, library, facts, m),
        c.raw.filter_spec is None,
        m.unsupported is None,
    ensures
        m.app_ids@ == kept(library, added_pred(c.raw)),
{
    lemma_kept_same(library, member_pred(c.raw, facts), added_pred(c.raw));
}

/// A spec with nothing set matches nothing rather than everything: the
/// collection holds its additions less its removals.
pub proof fn blank_spec_matches_nothing(c: Collection, library: Seq<u32>, facts: LibraryFacts, m: CollectionModel)
    requires
        resolved_model(c, library, facts, m),
        c.raw.filter_spec matches Some(spec) && spec_is_blank(spec),
        m.unsupported is None,
    ensures
        m.app_ids@ == kept(library, added_not_removed_pred(c.raw)),
{
    lemma_kept_same(library, member_pred(c.raw, facts), added_not_removed_pred(c.raw));
}

/// `a` and `b` differ at most in the positions Steam's matcher never tests
/// (0 and 3).
pub open spec fn same_but_untested(a: FilterSpec, b: FilterSpec) -> bool {
    &&& a.search_text@ == b.search_text@
    &&& a.groups@.len() == b.groups@.len()
    &&& forall|i: int| 0 <= i < a.groups@.len() && i != 0 && i != 3 ==> #[trigger] a.groups@[i] == b.groups@[i]
}

/// The positions Steam never tests are ignored rather than refused: whatever
/// they hold, a game matches the same, and the spec is as supported.
pub proof fn untested_positions_are_ignored(a: FilterSpec, b: FilterSpec, app_id: u32, facts: LibraryFacts)
    requires
        same_but_untested(a, b),
    ensures
        app_matches(a, app_id, facts) == app_matches(b, app_id, facts),
        unsupported_reason_of(a) == unsupported_reason_of(b),
{
    assert forall|i: int| i != 0 && i != 3 implies #[trigger] group_at(a, i) == group_at(b, i) by {
        if 0 <= i < a.groups@.len() {
            assert(a.groups@[i] == b.groups@[i]);
        }
    }
    if exists|i: int| KNOWN_GROUP_COUNT <= i < a.groups@.len() && #[trigger] group_at(a, i) is Some {
        let i = choose|i: int| KNOWN_GROUP_COUNT <= i < a.groups@.len() && #[trigger] group_at(a, i) is Some;
        assert(group_at(b, i) is Some);
    }
    if exists|i: int| KNOWN_GROUP_COUNT <= i < b.groups@.len() && #[trigger] group_at(b, i) is Some {
        let i = choose|i: int| KNOWN_GROUP_COUNT <= i < b.groups@.len() && #[trigger] group_at(b, i) is Some;
        assert(group_at(a, i) is Some);
    }
    assert(group_at(a, GROUP_STATE as int) == group_at(b, GROUP_STATE as int));
    assert(group_at(a, GROUP_FEATURES as int) == group_at(b, GROUP_FEATURES as int));
    assert(group_at(a, GROUP_SUBSCRIPTION as int) == group_at(b, GROUP_SUBSCRIPTION as int));
    assert(group_at(a, GROUP_LANGUAGES as int) == group_at(b, GROUP_LANGUAGES as int));
}

/// Only the groups Steam's matcher tests decide a match: two specs that agree
/// on groups 1, 2 and 4 to 8 match the same games, whatever they hold at 0, 3
/// or from 9 on.
pub proof fn only_tested_groups_decide_a_match(a: FilterSpec, b: FilterSpec, app_id: u32, facts: LibraryFacts)
    requires
        forall|i: int| 1 <= i < KNOWN_GROUP_COUNT && i != 3 ==> #[trigger] group_at(a, i) == group_at(b, i),
    ensures
        app_matches(a, app_id, facts) == app_matches(b, app_id, facts),
{
    assert(group_at(a, GROUP_STATE as int) == group_at(b, GROUP_STATE as int));
    assert(group_at(a, GROUP_FEATURES as int) == group_at(b, GROUP_FEATURES as int));
    assert(group_at(a, GROUP_STORE_TAGS as int) == group_at(b, GROUP_STORE_TAGS as int));
    assert(group_at(a, GROUP_SUBSCRIPTION as int) == group_at(b, GROUP_SUBSCRIPTION as int));
    assert(group_at(a, GROUP_FRIENDS as int) == group_at(b, GROUP_FRIENDS as int));
    assert(group_at(a, GROUP_LANGUAGES as int) == group_at(b, GROUP_LANGUAGES as int));
    assert(group_at(a, GROUP_CATEGORIES as int) == group_at(b, GROUP_CATEGORIES as int));
}

/// A group with no options never constrains, whether it is a union or not;
/// a spec whose groups are all empty matches every game.
pub proof fn empty_groups_never_constrain(spec: FilterSpec, index: int, holds: spec_fn(u32) -> bool, app_id: u32, facts: LibraryFacts)
    ensures
        0 <= index < spec.groups@.len() && spec.groups@[index].options@.len() == 0 ==> group_passes(spec, index, holds),
        (forall|i: int| 0 <= i < spec.groups@.len() ==> (#[trigger] spec.groups@[i]).options@.len() == 0)
            ==> app_matches(spec, app_id, facts),
{
}

/// What the feature options say of one app hangs together: Deck verified
/// implies playable, which implies not unsupported (and so for the Steam
/// Machine), SteamOS compatible implies not unsupported, full controller
/// support implies partial, and each narrower VR option implies its wider one.
pub proof fn feature_options_imply_their_wider_ones(info: AppInfoView)
    ensures
        feature_holds(12, info) == Some(true) ==> feature_holds(13, info) == Some(true),
        feature_holds(13, info) == Some(true) ==> feature_holds(14, info) == Some(true),
        feature_holds(29, info) == Some(true) ==> feature_holds(30, info) == Some(true),
        feature_holds(30, info) == Some(true) ==> feature_holds(31, info) == Some(true),
        feature_holds(24, info) == Some(true) ==> feature_holds(25, info) == Some(true),
        feature_holds(1, info) == Some(true) ==> feature_holds(2, info) == Some(true),
        feature_holds(17, info) == Some(true) ==> feature_holds(16, info) == Some(true),
        feature_holds(19, info) == Some(true) ==> feature_holds(18, info) == Some(true),
{
}

/// The spec sets one group, at `index`, to the single option `o`, and no other.
pub open spec fn only_option(spec: FilterSpec, index: int, o: u32) -> bool {
    &&& group_at(spec, index) matches Some(g) && g.options@ == seq![o]
    &&& forall|i: int| i != index ==> #[trigger] group_at(spec, i) is None
}

proof fn lemma_single_option(spec: FilterSpec, index: int, o: u32, holds: spec_fn(u32) -> bool)
    requires
        group_at(spec, index) matches Some(g) && g.options@ == seq![o],
    ensures
        group_passes(spec, index, holds) == holds(o),
{
    let g = group_at(spec, index).unwrap();
    assert(g.options@[0] == o);
}

/// What a features filter of one option lets through: each option names the
/// controller support, categories or ratings a game's app info must show.
pub proof fn a_feature_option_tests_what_it_names(spec: FilterSpec, o: u32, app_id: u32, facts: LibraryFacts)
    requires
        only_option(spec, 2, o),
    ensures
        ({
            let info = overview(facts, app_id);
            let c = info.categories;
            let full = info.controller_support == "full"@;
            let partial = info.controller_support == "partial"@;
            let m = app_matches(spec, app_id, facts);
            &&& o == 1 ==> (m <==> (full || c.contains(28)))
            &&& o == 2 ==> (m <==> (full || partial || c.contains(28) || c.contains(18)))
            &&& (o == 3 || o == 26) ==> !m
            &&& o == 4 ==> (m <==> c.contains(29))
            &&& o == 5 ==> (m <==> c.contains(30))
            &&& o == 6 ==> (m <==> c.contains(22))
            &&& o == 7 ==> (m <==> c.contains(2))
            &&& o == 8 ==> (m <==> (c.contains(1) || c.contains(36) || c.contains(37) || c.contains(27)
                || c.contains(20) || c.contains(24)))
            &&& o == 9 ==> (m <==> (c.contains(9) || c.contains(38) || c.contains(39)))
            &&& o == 10 ==> (m <==> c.contains(23))
            &&& o == 11 ==> (m <==> c.contains(44))
            &&& o == 12 ==> (m <==> info.deck_compat >= 3)
            &&& o == 13 ==> (m <==> info.deck_compat >= 2)
            &&& o == 14 ==> (m <==> info.deck_compat != 1)
            &&& o == 16 ==> (m <==> (c.contains(55) || c.contains(56)))
            &&& o == 17 ==> (m <==> c.contains(56))
            &&& o == 18 ==> (m <==> (c.contains(57) || c.contains(58)))
            &&& o == 19 ==> (m <==> c.contains(58))
            &&& o == 20 ==> (m <==> c.contains(59))
            &&& o == 21 ==> (m <==> c.contains(60))
            &&& o == 22 ==> (m <==> c.contains(61))
            &&& o == 23 ==> (m <==> c.contains(62))
            &&& o == 24 ==> (m <==> info.steamos_compat >= 2)
            &&& o == 25 ==> (m <==> info.steamos_compat != 1)
            &&& o == 27 ==> (m <==> (c.contains(39) || c.contains(37) || c.contains(24)))
            &&& o == 28 ==> !m
            &&& o == 29 ==> (m <==> info.steam_machine_compat >= 3)
            &&& o == 30 ==> (m <==> info.steam_machine_compat >= 2)
            &&& o == 31 ==> (m <==> info.steam_machine_compat != 1)
        }),
{
    lemma_single_option(spec, GROUP_FEATURES as int, o, feature_pred(overview(facts, app_id)));
}

/// What a play-state filter of one option lets through: installed games, or
/// games with a last-played time past zero, or those without one; the other
/// state never counts.
pub proof fn a_play_state_option_tests_what_it_names(spec: FilterSpec, o: u32, app_id: u32, facts: LibraryFacts)
    requires
        only_option(spec, 1, o),
    ensures
        ({
            let played = facts.playtimes@.contains_key(app_id)
                && (facts.playtimes@[app_id].last_played matches Some(t) && t > 0);
            let m = app_matches(spec, app_id, facts);
            &&& o == 1 ==> (m <==> facts.installed@.contains(app_id))
            &&& o == 3 ==> (m <==> played)
            &&& o == 4 ==> (m <==> !played)
        }),
{
    lemma_single_option(spec, GROUP_STATE as int, o, state_pred(was_played(facts, app_id), facts.installed@.contains(app_id)));
}

/// What a filter of one option in the other groups lets through: a store
/// tag, the EA Play subscription, a friend's library, a language or a
/// category that the game's app info (or the friend's library) lists.
pub proof fn a_metadata_option_tests_what_it_names(spec: FilterSpec, index: int, o: u32, app_id: u32, facts: LibraryFacts)
    requires
        only_option(spec, index, o),
    ensures
        ({
            let info = overview(facts, app_id);
            let m = app_matches(spec, app_id, facts);
            &&& index == 4 ==> (m <==> info.store_tags.contains(o))
            &&& index == 5 ==> (m <==> (o == 4000 && info.mastersub_appid == 1_289_670))
            &&& index == 6 ==> (m <==> (facts.friends_owned@.contains_key(o) && facts.friends_owned@[o]@.contains(app_id)))
            &&& index == 7 ==> (m <==> info.languages.contains(o))
            &&& index == 8 ==> (m <==> info.categories.contains(o))
            &&& (index == 0 || index == 3 || index >= 9) ==> m
        }),
{
    let info = overview(facts, app_id);
    if index == 4 {
        lemma_single_option(spec, index, o, store_tag_pred(info));
    } else if index == 5 {
        lemma_single_option(spec, index, o, subscription_pred(info));
    } else if index == 6 {
        lemma_single_option(spec, index, o, friend_pred(facts.friends_owned@, app_id));
    } else if index == 7 {
        lemma_single_option(spec, index, o, language_pred(info));
    } else if index == 8 {
        lemma_single_option(spec, index, o, category_pred(info));
    }
}

/// Why a spec cannot be evaluated: a search text always; otherwise, for a
/// spec of one option, a group past the ones Steam's matcher has, or an option
/// this evaluator does not know (play states other than installed, played and
/// unplayed; features outside 1 to 31 or one of 3, 15 and 26; subscriptions
/// other than EA Play; languages past the 32 known).
pub proof fn what_makes_a_spec_unsupported(spec: FilterSpec, index: int, o: u32)
    ensures
        spec.search_text@.len() > 0 ==> unsupported_reason_of(spec) == Some(UnsupportedReason::SearchText),
        spec.search_text@.len() == 0 && only_option(spec, index, o) ==> ({
            let r = unsupported_reason_of(spec);
            &&& index >= 9 ==> r == Some(UnsupportedReason::UnknownFilter)
            &&& index == 1 ==> (r == if o == 1 || o == 3 || o == 4 { None } else { Some(UnsupportedReason::UnknownFilter) })
            &&& index == 2 ==> (r == if 1 <= o <= 31 && o != 3 && o != 15 && o != 26 { None } else {
                Some(UnsupportedReason::UnknownFilter)
            })
            &&& index == 5 ==> (r == if o == 4000 { None } else { Some(UnsupportedReason::UnknownFilter) })
            &&& index == 7 ==> (r == if o < 32 { None } else { Some(UnsupportedReason::UnknownFilter) })
            &&& (index == 0 || index == 3 || index == 4 || index == 6 || index == 8) ==> r is None
        }),
{
    if spec.search_text@.len() == 0 && only_option(spec, index, o) {
        let g = group_at(spec, index).unwrap();
        assert(g.options@[0] == o);
        if index >= 9 {
            assert(group_at(spec, index) is Some);
        }
    }
}

proof fn lemma_kept_is_filter(s: Seq<u32>, keep: spec_fn(u32) -> bool)
    ensures
        kept(s, keep) == s.filter(keep),
    decreases s.len(),
{
    reveal(Seq::filter);
    if s.len() > 0 {
        lemma_kept_is_filter(s.drop_last(), keep);
    }
}

/// Reading a stored collection drops from its features group the one option
/// Steam ignores (15, Deck unsupported) and nothing else: every other option
/// of that group, and every other group, is kept as stored, in order.
pub proof fn only_the_ignored_option_is_stripped(raw: RawCollection, c: Collection)
    requires
        normalized(raw, c),
        raw.filter_spec matches Some(spec) && spec.format_version == Some(2u32),
    ensures
        ({
            let before = raw.filter_spec.unwrap();
            &&& c.raw.filter_spec matches Some(after)
            &&& after.groups@.len() == before.groups@.len()
            &&& forall|i: int| 0 <= i < before.groups@.len() ==> (#[trigger] c.raw.filter_spec.unwrap().groups@[i]).options@
                == if i == 2 {
                    before.groups@[i].options@.filter(|o: u32| o != 15)
                } else {
                    before.groups@[i].options@
                }
        }),
{
    let before = raw.filter_spec.unwrap();
    let after = c.raw.filter_spec.unwrap();
    assert(not_deck_unsupported() =~= (|o: u32| o != 15));
    if before.groups@.len() > 2 {
        lemma_kept_is_filter(before.groups@[2].options@, not_deck_unsupported());
    }
    assert forall|i: int| 0 <= i < before.groups@.len() implies (#[trigger] after.groups@[i]).options@
        == if i == 2 { before.groups@[i].options@.filter(|o: u32| o != 15) } else { before.groups@[i].options@ } by {
        assert(after.groups@[i].options@ == if i == GROUP_FEATURES { kept(before.groups@[i].options@, not_deck_unsupported()) } else { before.groups@[i].options@ });
    }
}

/// A removal beats both an addition of the same game and the filter's own
/// matches: no removed game is in a dynamic collection.
pub proof fn a_removal_always_wins(c: Collection, library: Seq<u32>, facts: LibraryFacts, m: CollectionModel)
    requires
        resolved_model(c, library, facts, m),
        c.raw.filter_spec is Some,
    ensures
        forall|i: int| 0 <= i < m.app_ids@.len() ==> !c.raw.removed@.contains(#[trigger] m.app_ids@[i]),
{
    lemma_kept_members(library, member_pred(c.raw, facts));
}

/// A resolved collection lists only games of the library, each one a member
/// of the collection; an unsupported collection lists none.
pub proof fn resolved_games_are_library_members(c: Collection, library: Seq<u32>, facts: LibraryFacts, m: CollectionModel)
    requires
        resolved_model(c, library, facts, m),
    ensures
        forall|i: int| 0 <= i < m.app_ids@.len() ==> library.contains(#[trigger] m.app_ids@[i])
            && member_pred(c.raw, facts)(m.app_ids@[i]),
        m.unsupported is Some ==> m.app_ids@.len() == 0,
{
    lemma_kept_members(library, member_pred(c.raw, facts));
}

/// The installed apps that `libraryfolders.vdf` lists: every key of a folder's
/// `apps` table that reads as a `u32`; the other keys are skipped.
pub open spec fn installed_ids_of(folders: Seq<Vec<String>>) -> Set<u32> {
    Set::new(|id: u32| exists|a: int, b: int|
        0 <= a < folders.len() && 0 <= b < folders[a]@.len() && #[trigger] parsed_u32(folders[a]@[b]@) == Some(id))
}

/// The installed app ids, from the keys of each library folder's `apps` table.
pub fn installed_app_ids(folders: &Vec<Vec<String>>) -> (ids: HashSet<u32>)
    ensures
        ids@ == installed_ids_of(folders@),
{
    let mut ids: HashSet<u32> = HashSet::new();
    let mut f: usize = 0;
    while f < folders.len()
        invariant
            f <= folders@.len(),
            forall|id: u32| ids@.contains(id) <==> exists|a: int, b: int|
                0 <= a < f && 0 <= b < folders@[a]@.len() && #[trigger] parsed_u32(folders@[a]@[b]@) == Some(id),
        decreases folders@.len() - f,
    {
        let keys = &folders[f];
        let mut k: usize = 0;
        while k < keys.len()
            invariant
                f < folders@.len(),
                keys == folders@[f as int],
                k <= keys@.len(),
                forall|id: u32| ids@.contains(id) <==> exists|a: int, b: int|
                    0 <= a <= f && 0 <= b < folders@[a]@.len() && (a < f || b < k)
                        && #[trigger] parsed_u32(folders@[a]@[b]@) == Some(id),
            decreases keys@.len() - k,
        {
            let key = keys[k].as_str();
            let parsed = parse_u32_from(key, 0);
            assert(key@.subrange(0, key@.len() as int) =~= key@);
            let ghost before = ids@;
            if let Some(id) = parsed {
                ids.insert(id);
            }
            assert forall|id: u32| ids@.contains(id) <==> exists|a: int, b: int|
                0 <= a <= f && 0 <= b < folders@[a]@.len() && (a < f || b < k + 1)
                    && #[trigger] parsed_u32(folders@[a]@[b]@) == Some(id) by {
                if parsed == Some(id) {
                    assert(parsed_u32(folders@[f as int]@[k as int]@) == Some(id));
                }
                if exists|a: int, b: int|
                    0 <= a <= f && 0 <= b < folders@[a]@.len() && (a < f || b < k + 1)
                        && #[trigger] parsed_u32(folders@[a]@[b]@) == Some(id) {
                    let (a, b) = choose|a: int, b: int|
                        0 <= a <= f && 0 <= b < folders@[a]@.len() && (a < f || b < k + 1)
                            && #[trigger] parsed_u32(folders@[a]@[b]@) == Some(id);
                    if !(a < f || b < k) {
                        assert(parsed == Some(id));
                    }
                }
            }
            k = k + 1;
        }
        f = f + 1;
    }
    assert(ids@ =~= installed_ids_of(folders@));
    ids
}

} // verus!

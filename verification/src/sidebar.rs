//! What the app list's sidebar decides: which filters and sort orders need the
//! achievement counts, which collections the picker lists and what a pick
//! leads to. The widgets themselves are drawn elsewhere.

use crate::steam_collections::{CollectionModel, UnsupportedReason, FAVORITE_ID, HIDDEN_ID};
use crate::text::str_eq;
use vstd::prelude::*;

verus! {

/// A library filter checkbox: the settings key it shows, its label, whether it
/// needs the achievement counts, and whether the box shows the key negated.
#[derive(Clone, Copy)]
pub struct FilterToggle {
    pub key: &'static str,
    pub label: &'static str,
    pub needs_counts: bool,
    pub invert: bool,
}

/// A sort order: its settings value, its label, and whether it needs the
/// achievement counts.
#[derive(Clone, Copy)]
pub struct SortMode {
    pub value: &'static str,
    pub label: &'static str,
    pub needs_counts: bool,
}

/// The filter checkboxes, in the order they are shown. Only `filter-junk` is
/// negated: junk is hidden by default, so a box that hid it would sit ticked
/// for everyone.
pub open spec fn filter_table() -> Seq<FilterToggle> {
    seq![
        FilterToggle { key: "filter-hide-without-achievements", label: "Hide with no achievements", needs_counts: true, invert: false },
        FilterToggle { key: "filter-hide-fully-unlocked", label: "Hide at 100%", needs_counts: true, invert: false },
        FilterToggle { key: "filter-hide-no-unlocked", label: "Hide at 0%", needs_counts: true, invert: false },
        FilterToggle { key: "filter-hide-never-launched", label: "Hide never launched", needs_counts: false, invert: false },
        FilterToggle { key: "filter-only-idling", label: "Only currently idling", needs_counts: false, invert: false },
        FilterToggle { key: "filter-hide-steam-hidden", label: "Hide hidden in Steam", needs_counts: false, invert: false },
        FilterToggle { key: "filter-junk", label: "Show junk", needs_counts: false, invert: true },
    ]
}

/// The sort orders, in the order they are shown.
pub open spec fn sort_table() -> Seq<SortMode> {
    seq![
        SortMode { value: "app_id", label: "App ID", needs_counts: false },
        SortMode { value: "alphabetical", label: "Name", needs_counts: false },
        SortMode { value: "last_played", label: "Last played", needs_counts: false },
        SortMode { value: "playtime", label: "Playtime", needs_counts: false },
        SortMode { value: "completion", label: "Completion", needs_counts: true },
        SortMode { value: "remaining", label: "Achievements left", needs_counts: true },
    ]
}

/// The filter checkboxes.
pub fn filters() -> (table: Vec<FilterToggle>)
    ensures
        table@ == filter_table(),
{
    let mut table: Vec<FilterToggle> = Vec::new();
    table.push(FilterToggle { key: "filter-hide-without-achievements", label: "Hide with no achievements", needs_counts: true, invert: false });
    table.push(FilterToggle { key: "filter-hide-fully-unlocked", label: "Hide at 100%", needs_counts: true, invert: false });
    table.push(FilterToggle { key: "filter-hide-no-unlocked", label: "Hide at 0%", needs_counts: true, invert: false });
    table.push(FilterToggle { key: "filter-hide-never-launched", label: "Hide never launched", needs_counts: false, invert: false });
    table.push(FilterToggle { key: "filter-only-idling", label: "Only currently idling", needs_counts: false, invert: false });
    table.push(FilterToggle { key: "filter-hide-steam-hidden", label: "Hide hidden in Steam", needs_counts: false, invert: false });
    table.push(FilterToggle { key: "filter-junk", label: "Show junk", needs_counts: false, invert: true });
    assert(table@ =~= filter_table());
    table
}

/// The sort orders.
pub fn sort_modes() -> (table: Vec<SortMode>)
    ensures
        table@ == sort_table(),
{
    let mut table: Vec<SortMode> = Vec::new();
    table.push(SortMode { value: "app_id", label: "App ID", needs_counts: false });
    table.push(SortMode { value: "alphabetical", label: "Name", needs_counts: false });
    table.push(SortMode { value: "last_played", label: "Last played", needs_counts: false });
    table.push(SortMode { value: "playtime", label: "Playtime", needs_counts: false });
    table.push(SortMode { value: "completion", label: "Completion", needs_counts: true });
    table.push(SortMode { value: "remaining", label: "Achievements left", needs_counts: true });
    assert(table@ =~= sort_table());
    table
}

/// Each sort order offered is labelled by what it sorts by, and needs the
/// achievement counts exactly where it sorts by them: every order is one of
/// these six, each offered once.
pub proof fn each_sort_order_is_labelled_by_what_it_sorts_by()
    ensures
        sort_table().len() == 6,
        forall|i: int| 0 <= i < sort_table().len() ==> ({
            let m = #[trigger] sort_table()[i];
            ||| m.value@ == "app_id"@ && m.label@ == "App ID"@ && !m.needs_counts
            ||| m.value@ == "alphabetical"@ && m.label@ == "Name"@ && !m.needs_counts
            ||| m.value@ == "last_played"@ && m.label@ == "Last played"@ && !m.needs_counts
            ||| m.value@ == "playtime"@ && m.label@ == "Playtime"@ && !m.needs_counts
            ||| m.value@ == "completion"@ && m.label@ == "Completion"@ && m.needs_counts
            ||| m.value@ == "remaining"@ && m.label@ == "Achievements left"@ && m.needs_counts
        }),
        exists|i: int| 0 <= i < sort_table().len() && #[trigger] sort_table()[i].value@ == "app_id"@,
        exists|i: int| 0 <= i < sort_table().len() && #[trigger] sort_table()[i].value@ == "alphabetical"@,
        exists|i: int| 0 <= i < sort_table().len() && #[trigger] sort_table()[i].value@ == "last_played"@,
        exists|i: int| 0 <= i < sort_table().len() && #[trigger] sort_table()[i].value@ == "playtime"@,
        exists|i: int| 0 <= i < sort_table().len() && #[trigger] sort_table()[i].value@ == "completion"@,
        exists|i: int| 0 <= i < sort_table().len() && #[trigger] sort_table()[i].value@ == "remaining"@,
{
    assert(sort_table()[0].value@ == "app_id"@);
    assert(sort_table()[1].value@ == "alphabetical"@);
    assert(sort_table()[2].value@ == "last_played"@);
    assert(sort_table()[3].value@ == "playtime"@);
    assert(sort_table()[4].value@ == "completion"@);
    assert(sort_table()[5].value@ == "remaining"@);
}

/// Each filter checkbox is labelled by what its key filters, needs the
/// achievement counts exactly where it filters on them, and only the junk box
/// shows its key negated.
pub proof fn each_filter_is_labelled_by_what_it_filters()
    ensures
        filter_table().len() == 7,
        forall|i: int| 0 <= i < filter_table().len() ==> ({
            let f = #[trigger] filter_table()[i];
            ||| f.key@ == "filter-hide-without-achievements"@ && f.label@ == "Hide with no achievements"@ && f.needs_counts && !f.invert
            ||| f.key@ == "filter-hide-fully-unlocked"@ && f.label@ == "Hide at 100%"@ && f.needs_counts && !f.invert
            ||| f.key@ == "filter-hide-no-unlocked"@ && f.label@ == "Hide at 0%"@ && f.needs_counts && !f.invert
            ||| f.key@ == "filter-hide-never-launched"@ && f.label@ == "Hide never launched"@ && !f.needs_counts && !f.invert
            ||| f.key@ == "filter-only-idling"@ && f.label@ == "Only currently idling"@ && !f.needs_counts && !f.invert
            ||| f.key@ == "filter-hide-steam-hidden"@ && f.label@ == "Hide hidden in Steam"@ && !f.needs_counts && !f.invert
            ||| f.key@ == "filter-junk"@ && f.label@ == "Show junk"@ && !f.needs_counts && f.invert
        }),
{
}

/// The sort order `value` is one of those that need the achievement counts.
pub open spec fn needs_counts_sort(value: Seq<char>) -> bool {
    exists|i: int| 0 <= i < sort_table().len() && #[trigger] sort_table()[i].needs_counts && sort_table()[i].value@ == value
}

/// Whether the sort order `value` needs the achievement counts: only
/// `completion` and `remaining` do.
pub fn sort_needs_counts(value: &str) -> (r: bool)
    ensures
        r == needs_counts_sort(value@),
        r == (value@ == "completion"@ || value@ == "remaining"@),
{
    let modes = sort_modes();
    let mut i: usize = 0;
    while i < modes.len()
        invariant
            modes@ == sort_table(),
            i <= modes@.len(),
            forall|j: int| 0 <= j < i ==> !(#[trigger] modes@[j].needs_counts && modes@[j].value@ == value@),
        decreases modes@.len() - i,
    {
        if modes[i].needs_counts && str_eq(modes[i].value, value) {
            assert(sort_table()[i as int].needs_counts);
            return true;
        }
        i = i + 1;
    }
    assert(!modes@[4].needs_counts || modes@[4].value@ != value@);
    assert(!modes@[5].needs_counts || modes@[5].value@ != value@);
    assert(!needs_counts_sort(value@)) by {
        if needs_counts_sort(value@) {
            let k = choose|k: int| 0 <= k < sort_table().len() && #[trigger] sort_table()[k].needs_counts && sort_table()[k].value@ == value@;
            assert(!(modes@[k].needs_counts && modes@[k].value@ == value@));
        }
    }
    false
}

/// What a filter's checkbox shows for the stored value of its key: the value
/// itself, or its negation for a negated box.
pub open spec fn shown_of(toggle: FilterToggle, stored: bool) -> bool {
    stored != toggle.invert
}

/// What a toggle to `active` writes to the key: the value the box stands for,
/// where it differs from the stored one.
pub open spec fn write_of(toggle: FilterToggle, active: bool, stored: bool) -> Option<bool> {
    if shown_of(toggle, active) != stored { Some(shown_of(toggle, active)) } else { None }
}

/// The checkbox state for the stored value of its key.
pub fn checkbox_state(toggle: &FilterToggle, stored: bool) -> (shown: bool)
    ensures
        shown == shown_of(*toggle, stored),
{
    if toggle.invert { !stored } else { stored }
}

/// The value to store after the box was toggled to `active`, where it differs
/// from the stored one.
pub fn toggled_value(toggle: &FilterToggle, active: bool, stored: bool) -> (write: Option<bool>)
    ensures
        write == write_of(*toggle, active, stored),
{
    let value = checkbox_state(toggle, active);
    if value != stored { Some(value) } else { None }
}

/// A box shows back what toggling it stored: after any toggle, box and key
/// agree.
pub proof fn a_checkbox_shows_what_it_stored(toggle: FilterToggle, active: bool, stored: bool)
    ensures
        shown_of(toggle, match write_of(toggle, active, stored) { Some(v) => v, None => stored }) == active,
{
}

/// The settings to write once the achievement counts are gone: the sort order
/// to fall back to, where the current one needs the counts, and the filter
/// keys to switch off.
pub struct SettingsChanges {
    pub sort: Option<&'static str>,
    pub cleared: Vec<&'static str>,
}

/// The keys, among the first `n` filters, that need the counts and are on.
pub open spec fn cleared_keys(on: Seq<bool>, n: nat) -> Seq<&'static str>
    decreases n,
{
    if n == 0 {
        seq![]
    } else {
        let rest = cleared_keys(on, (n - 1) as nat);
        if filter_table()[n - 1].needs_counts && on[n - 1] {
            rest.push(filter_table()[n - 1].key)
        } else {
            rest
        }
    }
}

/// What to reset once the achievement counts are dropped: a sort order that
/// needs them falls back to `alphabetical`, and each filter that needs them and
/// is on (`filter_on` holds the filters' current values, in table order) is
/// switched off.
pub fn drop_counts_dependent_settings(sort: &str, filter_on: &Vec<bool>) -> (c: SettingsChanges)
    requires
        filter_on@.len() == filter_table().len(),
    ensures
        c.sort == if needs_counts_sort(sort@) { Some("alphabetical") } else { None::<&'static str> },
        c.cleared@ == cleared_keys(filter_on@, filter_table().len()),
{
    let fallback = if sort_needs_counts(sort) { Some("alphabetical") } else { None };
    let table = filters();
    let mut cleared: Vec<&'static str> = Vec::new();
    let mut i: usize = 0;
    while i < table.len()
        invariant
            table@ == filter_table(),
            filter_on@.len() == filter_table().len(),
            i <= table@.len(),
            cleared@ == cleared_keys(filter_on@, i as nat),
        decreases table@.len() - i,
    {
        if table[i].needs_counts && filter_on[i] {
            cleared.push(table[i].key);
        }
        i = i + 1;
    }
    SettingsChanges { sort: fallback, cleared }
}

/// Each filter, among the first `n`, that needs the counts and is on has its
/// key cleared.
proof fn lemma_cleared_keys(on: Seq<bool>, n: nat)
    requires
        n <= on.len(),
        n <= filter_table().len(),
    ensures
        forall|i: int| 0 <= i < n && (#[trigger] filter_table()[i]).needs_counts && on[i]
            ==> cleared_keys(on, n).contains(filter_table()[i].key),
    decreases n,
{
    if n > 0 {
        lemma_cleared_keys(on, (n - 1) as nat);
        let rest = cleared_keys(on, (n - 1) as nat);
        assert forall|i: int| 0 <= i < n && (#[trigger] filter_table()[i]).needs_counts && on[i]
            implies cleared_keys(on, n).contains(filter_table()[i].key) by {
            if i < n - 1 {
                let k = choose|k: int| 0 <= k < rest.len() && rest[k] == filter_table()[i].key;
                if filter_table()[n - 1].needs_counts && on[n - 1] {
                    assert(rest.push(filter_table()[n - 1].key)[k] == filter_table()[i].key);
                }
            } else {
                assert(rest.push(filter_table()[n - 1].key)[rest.len() as int] == filter_table()[i].key);
            }
        }
    }
}

/// Once the achievement counts are dropped, nothing needs them: the sort
/// order written back does not, and every filter that does and was on is
/// switched off.
pub proof fn dropping_the_counts_leaves_nothing_that_needs_them(sort: Seq<char>, on: Seq<bool>)
    requires
        on.len() == filter_table().len(),
    ensures
        !needs_counts_sort(if needs_counts_sort(sort) { "alphabetical"@ } else { sort }),
        forall|i: int| 0 <= i < filter_table().len() && (#[trigger] filter_table()[i]).needs_counts && on[i]
            ==> cleared_keys(on, filter_table().len()).contains(filter_table()[i].key),
{
    reveal_strlit("alphabetical");
    reveal_strlit("completion");
    reveal_strlit("remaining");
    if needs_counts_sort("alphabetical"@) {
        let i = choose|i: int| 0 <= i < sort_table().len() && #[trigger] sort_table()[i].needs_counts
            && sort_table()[i].value@ == "alphabetical"@;
        assert(i == 4 || i == 5);
        assert("completion"@.len() != "alphabetical"@.len());
        assert("remaining"@.len() != "alphabetical"@.len());
    }
    lemma_cleared_keys(on, filter_table().len());
}

/// The hover text of a collection that cannot be shown, before translation.
pub fn unsupported_tooltip(reason: UnsupportedReason) -> (text: &'static str)
    ensures
        text == match reason {
            UnsupportedReason::SearchText => "Filters on a search term, which SamRewritten cannot reproduce exactly.",
            UnsupportedReason::UnknownFilter => "Uses a Steam filter SamRewritten cannot reproduce exactly.",
            UnsupportedReason::Unavailable => "Needs information from Steam that could not be read. Refresh to try again.",
            UnsupportedReason::Offline => "Needs your friends' games, which Steam can only tell us when it is online.",
        },
{
    match reason {
        UnsupportedReason::SearchText => "Filters on a search term, which SamRewritten cannot reproduce exactly.",
        UnsupportedReason::UnknownFilter => "Uses a Steam filter SamRewritten cannot reproduce exactly.",
        UnsupportedReason::Unavailable => "Needs information from Steam that could not be read. Refresh to try again.",
        UnsupportedReason::Offline => "Needs your friends' games, which Steam can only tell us when it is online.",
    }
}

/// A collection's label: `favorites` (the translated name) for the favorites
/// collection, whose stored name is frozen in whichever language made it; else
/// its name, or its id where it has none.
pub open spec fn label_of(model: CollectionModel, favorites: Seq<char>) -> Seq<char> {
    if model.id@ == FAVORITE_ID@ {
        favorites
    } else if model.name@.len() == 0 {
        model.id@
    } else {
        model.name@
    }
}

/// The label the picker shows for a collection.
pub fn collection_label(model: &CollectionModel, favorites: &str) -> (label: String)
    ensures
        label@ == label_of(*model, favorites@),
{
    if str_eq(model.id.as_str(), FAVORITE_ID) {
        favorites.to_string()
    } else if model.name.as_str().unicode_len() == 0 {
        model.id.clone()
    } else {
        model.name.clone()
    }
}

/// A row of the collection picker: the collection's id (empty for all games)
/// and why it cannot be shown, where it cannot.
pub struct CollectionEntry {
    pub id: String,
    pub unsupported: Option<UnsupportedReason>,
}

/// The collections the picker lists, of the first `n`: all but the hidden one.
pub open spec fn shown(models: Seq<CollectionModel>, n: nat) -> Seq<CollectionModel>
    decreases n,
{
    if n == 0 {
        seq![]
    } else {
        let rest = shown(models, (n - 1) as nat);
        if models[n - 1].id@ != HIDDEN_ID@ {
            rest.push(models[n - 1])
        } else {
            rest
        }
    }
}

/// The picker's rows, their labels, and the row to select.
pub struct CollectionList {
    pub entries: Vec<CollectionEntry>,
    pub labels: Vec<String>,
    pub selected: usize,
}

/// Row `i` is the first whose id is `id`; row 0 where none is.
pub open spec fn first_with_id(entries: Seq<CollectionEntry>, id: Seq<char>, i: int) -> bool {
    ||| 0 <= i < entries.len() && entries[i].id@ == id
        && forall|j: int| 0 <= j < i ==> (#[trigger] entries[j]).id@ != id
    ||| i == 0 && forall|j: int| 0 <= j < entries.len() ==> (#[trigger] entries[j]).id@ != id
}

/// The picker's rows: all games first, then each collection but the hidden
/// one, in order; the selection stays on the collection `selected_id` where it
/// is still listed, and falls back to all games.
pub fn set_collections(models: &Vec<CollectionModel>, selected_id: &str, all_games: &str, favorites: &str) -> (list: CollectionList)
    ensures
        list.entries@.len() == shown(models@, models@.len()).len() + 1,
        list.labels@.len() == list.entries@.len(),
        list.entries@[0].id@ == Seq::<char>::empty(),
        list.entries@[0].unsupported is None,
        list.labels@[0]@ == all_games@,
        forall|k: int| 0 <= k < shown(models@, models@.len()).len() ==> {
            &&& (#[trigger] list.entries@[k + 1]).id@ == shown(models@, models@.len())[k].id@
            &&& list.entries@[k + 1].unsupported == shown(models@, models@.len())[k].unsupported
            &&& list.labels@[k + 1]@ == label_of(shown(models@, models@.len())[k], favorites@)
        },
        first_with_id(list.entries@, selected_id@, list.selected as int),
{
    let mut entries: Vec<CollectionEntry> = Vec::new();
    let mut labels: Vec<String> = Vec::new();
    entries.push(CollectionEntry { id: String::new(), unsupported: None });
    labels.push(all_games.to_string());
    let mut i: usize = 0;
    while i < models.len()
        invariant
            i <= models@.len(),
            entries@.len() == shown(models@, i as nat).len() + 1,
            labels@.len() == entries@.len(),
            entries@[0].id@ == Seq::<char>::empty(),
            entries@[0].unsupported is None,
            labels@[0]@ == all_games@,
            forall|k: int| 0 <= k < shown(models@, i as nat).len() ==> {
                &&& (#[trigger] entries@[k + 1]).id@ == shown(models@, i as nat)[k].id@
                &&& entries@[k + 1].unsupported == shown(models@, i as nat)[k].unsupported
                &&& labels@[k + 1]@ == label_of(shown(models@, i as nat)[k], favorites@)
            },
        decreases models@.len() - i,
    {
        let model = &models[i];
        if !str_eq(model.id.as_str(), HIDDEN_ID) {
            labels.push(collection_label(model, favorites));
            entries.push(CollectionEntry { id: model.id.clone(), unsupported: model.unsupported });
            assert(shown(models@, (i + 1) as nat) == shown(models@, i as nat).push(models@[i as int]));
        }
        i = i + 1;
    }
    let selected = collection_position(&entries, selected_id);
    CollectionList { entries, labels, selected }
}

/// The row to select for the collection `id`: the first row whose id it is,
/// or all games.
pub fn collection_position(entries: &Vec<CollectionEntry>, id: &str) -> (i: usize)
    ensures
        first_with_id(entries@, id@, i as int),
{
    let mut j: usize = 0;
    while j < entries.len()
        invariant
            j <= entries@.len(),
            forall|m: int| 0 <= m < j ==> (#[trigger] entries@[m]).id@ != id@,
        decreases entries@.len() - j,
    {
        if str_eq(entries[j].id.as_str(), id) {
            return j;
        }
        j = j + 1;
    }
    0
}

/// What a pick in the collection picker leads to.
pub enum SelectionStep {
    /// Nothing: the row does not exist.
    Ignore,
    /// Put the selection back on this row: the picked collection cannot be
    /// shown.
    Revert(usize),
    /// Take the pick; `notify` says whether to tell the app list, which it is
    /// not told while the rows are being rebuilt.
    Accept { id: String, notify: bool },
}

/// Row `i` is the first usable row whose id is `id`; row 0 where none is.
pub open spec fn first_usable_with_id(entries: Seq<CollectionEntry>, id: Seq<char>, i: int) -> bool {
    ||| 0 <= i < entries.len() && entries[i].id@ == id && entries[i].unsupported is None
        && forall|j: int| 0 <= j < i ==> !((#[trigger] entries[j]).id@ == id && entries[j].unsupported is None)
    ||| i == 0 && forall|j: int| 0 <= j < entries.len() ==> !((#[trigger] entries[j]).id@ == id && entries[j].unsupported is None)
}

/// `step` is what picking row `selected` leads to, `last_usable` being the id
/// of the last collection that was taken.
pub open spec fn selection_step_of(entries: Seq<CollectionEntry>, selected: int, last_usable: Seq<char>, rebuilding: bool, step: SelectionStep) -> bool {
    if !(0 <= selected < entries.len()) {
        step is Ignore
    } else if entries[selected].unsupported is Some {
        step matches SelectionStep::Revert(back) && first_usable_with_id(entries, last_usable, back as int)
    } else {
        step matches SelectionStep::Accept { id, notify } && id@ == entries[selected].id@ && notify == !rebuilding
    }
}

/// What picking row `selected` leads to: a collection that cannot be shown
/// sends the selection back to the last usable collection (all games where it
/// is gone); any other is taken.
pub fn selection_step(entries: &Vec<CollectionEntry>, selected: usize, last_usable: &str, rebuilding: bool) -> (step: SelectionStep)
    ensures
        selection_step_of(entries@, selected as int, last_usable@, rebuilding, step),
{
    if selected >= entries.len() {
        return SelectionStep::Ignore;
    }
    if entries[selected].unsupported.is_some() {
        let mut j: usize = 0;
        while j < entries.len()
            invariant
                j <= entries@.len(),
                selected < entries@.len(),
                entries@[selected as int].unsupported is Some,
                forall|m: int| 0 <= m < j ==> !((#[trigger] entries@[m]).id@ == last_usable@ && entries@[m].unsupported is None),
            decreases entries@.len() - j,
        {
            if entries[j].unsupported.is_none() && str_eq(entries[j].id.as_str(), last_usable) {
                return SelectionStep::Revert(j);
            }
            j = j + 1;
        }
        return SelectionStep::Revert(0);
    }
    SelectionStep::Accept { id: entries[selected].id.clone(), notify: !rebuilding }
}

/// Over rows whose first (all games) is usable, as `set_collections` makes
/// them, a pick never leaves the selection on a collection that cannot be
/// shown: a revert lands on a usable row.
pub proof fn a_revert_lands_on_a_usable_row(entries: Seq<CollectionEntry>, selected: int, last_usable: Seq<char>, rebuilding: bool, step: SelectionStep)
    requires
        entries.len() > 0,
        entries[0].unsupported is None,
        selection_step_of(entries, selected, last_usable, rebuilding, step),
    ensures
        step matches SelectionStep::Revert(back) ==> back < entries.len() && entries[back as int].unsupported is None,
{
}

} // verus!

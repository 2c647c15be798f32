//! Where Steam keeps the files the library reads: which install holds a
//! user's data, and the paths inside it. Paths are handled as text.

use crate::sam_error::SamError;
use crate::text::{decimal, push_decimal, str_eq};
use vstd::prelude::*;

verus! {

/// Names what `Path::join` makes of a base path and a relative path, both as
/// text, on the platform the library is built for (Unix and Windows join by
/// different rules, so none is written out here).
pub uninterp spec fn joined(base: Seq<char>, relative: Seq<char>) -> Seq<char>;

/// Calls `Path::join` and takes the joined path as text (through
/// `to_string_lossy`); that text is `joined` of the two, and nothing more is
/// claimed of it.
#[verifier::external_body]
fn join_path(base: &str, relative: &str) -> (path: String)
    ensures
        path@ == joined(base@, relative@),
{
    std::path::Path::new(base).join(relative).to_string_lossy().into_owned()
}

/// The existence check answered `answer` for some call on `path`.
pub open spec fn answered<F: Fn(&str) -> bool>(is_there: F, path: Seq<char>, answer: bool) -> bool {
    exists|p: &str| p@ == path && #[trigger] is_there.ensures((p,), answer)
}

/// Root `i` is the first of `roots` that the check found `relative` under.
pub open spec fn first_holding<F: Fn(&str) -> bool>(is_there: F, roots: Seq<String>, relative: Seq<char>, i: int) -> bool {
    &&& 0 <= i < roots.len()
    &&& answered(is_there, joined(roots[i]@, relative), true)
    &&& forall|j: int| 0 <= j < i ==> answered(is_there, joined(#[trigger] roots[j]@, relative), false)
}

/// No root was found to hold `relative`.
pub open spec fn none_holding<F: Fn(&str) -> bool>(is_there: F, roots: Seq<String>, relative: Seq<char>) -> bool {
    forall|j: int| 0 <= j < roots.len() ==> answered(is_there, joined(#[trigger] roots[j]@, relative), false)
}

/// `userdata/<account>/config/cloudstorage/cloud-storage-namespace-1.json`
pub open spec fn collections_relative_text(account_id: u32) -> Seq<char> {
    "userdata/"@ + decimal(account_id as nat) + "/config/cloudstorage/cloud-storage-namespace-1.json"@
}

/// `userdata/<account>/config/localconfig.vdf`
pub open spec fn local_config_relative_text(account_id: u32) -> Seq<char> {
    "userdata/"@ + decimal(account_id as nat) + "/config/localconfig.vdf"@
}

/// Where a Linux Steam install may live under a home directory, most preferred
/// first: Flatpak, Snap, then the native layouts.
pub open spec fn candidate_suffixes() -> Seq<Seq<char>> {
    seq![
        ".var/app/com.valvesoftware.Steam/.local/share/Steam"@,
        "snap/steam/common/.local/share/Steam"@,
        ".local/share/Steam"@,
        ".steam/steam"@,
        ".steam/debian-installation"@,
        ".steam/root"@,
    ]
}

/// A place a Steam install may live, with what the file system said of it:
/// whether it is a directory, and the path it resolves to (the path itself
/// where it could not be resolved).
pub struct RootCandidate {
    pub path: String,
    pub is_dir: bool,
    pub canonical: String,
}

/// Candidate `i` is an install root: a directory that no earlier directory
/// resolves to the same place as.
pub open spec fn root_kept(cands: Seq<RootCandidate>, i: int) -> bool {
    &&& cands[i].is_dir
    &&& forall|j: int| 0 <= j < i && #[trigger] cands[j].is_dir ==> cands[j].canonical@ != cands[i].canonical@
}

/// The paths of the install roots among the first `n` candidates, in order.
pub open spec fn kept_roots(cands: Seq<RootCandidate>, n: nat) -> Seq<Seq<char>>
    decreases n,
{
    if n == 0 {
        seq![]
    } else {
        let rest = kept_roots(cands, (n - 1) as nat);
        if root_kept(cands, n - 1) {
            rest.push(cands[n - 1].path@)
        } else {
            rest
        }
    }
}

/// Where the `steamclient` library sits inside an install.
pub open spec fn client_library_relative() -> Seq<char> {
    "linux64/steamclient.so"@
}

/// The `steamclient` paths among the first `n` roots that the check found,
/// `present` holding its answers.
pub open spec fn client_paths(roots: Seq<String>, present: Seq<bool>, n: nat) -> Seq<Seq<char>>
    decreases n,
{
    if n == 0 {
        seq![]
    } else {
        let rest = client_paths(roots, present, (n - 1) as nat);
        if present[n - 1] {
            rest.push(joined(roots[n - 1]@, client_library_relative()))
        } else {
            rest
        }
    }
}

/// What the search for the `steamclient` library found: the path to load, and
/// the paths to list in a warning (every one found, where there are several and
/// the caller did not ask for silence).
pub struct SteamclientSearch {
    pub path: Option<String>,
    pub report: Vec<String>,
}

/// `search` is what the lookup gives when the check answered `present` for the
/// roots in turn.
pub open spec fn client_search_of<F: Fn(&str) -> bool>(
    is_there: F,
    roots: Seq<String>,
    silent: bool,
    present: Seq<bool>,
    search: SteamclientSearch,
) -> bool {
    let found = client_paths(roots, present, roots.len());
    &&& present.len() == roots.len()
    &&& forall|i: int| 0 <= i < roots.len() ==> answered(is_there, joined(#[trigger] roots[i]@, client_library_relative()), present[i])
    &&& match search.path {
        Some(p) => found.len() > 0 && p@ == found[0],
        None => found.len() == 0,
    }
    &&& search.report@.map_values(|s: String| s@) == if !silent && found.len() > 1 { found } else { seq![] }
}

/// One read of a cache filled on first use: a filled cache gives its answer
/// back and stays as it is; an empty one is filled with what `probe` found.
pub open spec fn cache_step<F: FnOnce() -> Option<String>>(
    before: Option<Option<String>>,
    after: Option<Option<String>>,
    r: Option<String>,
    probe: F,
) -> bool {
    match before {
        Some(cached) => r == cached && after == before,
        None => probe.ensures((), r) && after == Some(r),
    }
}

/// Finds Steam's files. The three caches are each filled once, by the first
/// call that needs them.
pub struct SteamLocator {
    pub lib_path: Option<Option<String>>,
    pub user_game_stats_schema_prefix: Option<Option<String>>,
    pub local_app_banner_file_prefix: Option<Option<String>>,
}

/// No two install roots are the same place: two candidates kept as roots
/// resolve to different places.
pub proof fn install_roots_are_distinct_places(cands: Seq<RootCandidate>, i: int, j: int)
    requires
        0 <= i < j < cands.len(),
        root_kept(cands, i),
        root_kept(cands, j),
    ensures
        cands[i].canonical@ != cands[j].canonical@,
{
    assert(cands[i].is_dir);
}

/// A cache is probed once: a second read gives back what the first gave,
/// and leaves the cache as the first left it.
pub proof fn a_cached_answer_is_given_back<F: FnOnce() -> Option<String>, G: FnOnce() -> Option<String>>(
    before: Option<Option<String>>,
    between: Option<Option<String>>,
    after: Option<Option<String>>,
    first: Option<String>,
    second: Option<String>,
    probe: F,
    later_probe: G,
)
    requires
        cache_step(before, between, first, probe),
        cache_step(between, after, second, later_probe),
    ensures
        second == first,
        after == between,
{
}

/// Some text of `texts` equals `t`.
fn contains_text(texts: &Vec<String>, t: &str) -> (r: bool)
    ensures
        r == texts@.map_values(|s: String| s@).contains(t@),
{
    let ghost views = texts@.map_values(|s: String| s@);
    let mut k: usize = 0;
    while k < texts.len()
        invariant
            k <= texts@.len(),
            views == texts@.map_values(|s: String| s@),
            forall|m: int| 0 <= m < k ==> views[m] != t@,
        decreases texts@.len() - k,
    {
        if str_eq(texts[k].as_str(), t) {
            assert(views[k as int] == t@);
            return true;
        }
        k = k + 1;
    }
    false
}

/// The resolved places of the directories among the first `n` candidates.
pub open spec fn dir_canonicals(cands: Seq<RootCandidate>, n: nat) -> Seq<Seq<char>>
    decreases n,
{
    if n == 0 {
        seq![]
    } else {
        let rest = dir_canonicals(cands, (n - 1) as nat);
        if cands[n - 1].is_dir {
            rest.push(cands[n - 1].canonical@)
        } else {
            rest
        }
    }
}

proof fn lemma_dir_canonicals(cands: Seq<RootCandidate>, n: nat, x: Seq<char>)
    requires
        n <= cands.len(),
    ensures
        dir_canonicals(cands, n).contains(x)
            <==> exists|j: int| 0 <= j < n && #[trigger] cands[j].is_dir && cands[j].canonical@ == x,
    decreases n,
{
    if n > 0 {
        lemma_dir_canonicals(cands, (n - 1) as nat, x);
        let rest = dir_canonicals(cands, (n - 1) as nat);
        if cands[n - 1].is_dir {
            let pushed = rest.push(cands[n - 1].canonical@);
            assert(pushed[rest.len() as int] == cands[n - 1].canonical@);
            if rest.contains(x) {
                let k = choose|k: int| 0 <= k < rest.len() && rest[k] == x;
                assert(pushed[k] == x);
            }
            if pushed.contains(x) && !rest.contains(x) {
                let k = choose|k: int| 0 <= k < pushed.len() && #[trigger] pushed[k] == x;
                if k < rest.len() {
                    assert(rest[k] == x);
                }
            }
        }
        if exists|j: int| 0 <= j < n && #[trigger] cands[j].is_dir && cands[j].canonical@ == x {
            let j = choose|j: int| 0 <= j < n && #[trigger] cands[j].is_dir && cands[j].canonical@ == x;
            if j < n - 1 {
                assert(exists|j2: int| 0 <= j2 < n - 1 && #[trigger] cands[j2].is_dir && cands[j2].canonical@ == x);
            }
        }
    }
}

/// The found paths before `n` depend only on the answers before `n`.
proof fn lemma_client_paths_prefix(roots: Seq<String>, a: Seq<bool>, b: Seq<bool>, n: nat)
    requires
        n <= a.len(),
        n <= b.len(),
        forall|j: int| 0 <= j < n ==> a[j] == b[j],
    ensures
        client_paths(roots, a, n) == client_paths(roots, b, n),
    decreases n,
{
    if n > 0 {
        lemma_client_paths_prefix(roots, a, b, (n - 1) as nat);
    }
}

fn copy_text(s: &Option<String>) -> (r: Option<String>)
    ensures
        r == *s,
{
    match s {
        Some(s) => Some(s.clone()),
        None => None,
    }
}

impl SteamLocator {
    pub fn new() -> (l: Self)
        ensures
            l.lib_path is None,
            l.user_game_stats_schema_prefix is None,
            l.local_app_banner_file_prefix is None,
    {
        SteamLocator { lib_path: None, user_game_stats_schema_prefix: None, local_app_banner_file_prefix: None }
    }

    /// The `steamclient` library's path: the cached answer, or what `probe`
    /// finds, which is then cached.
    pub fn get_lib_path<F: FnOnce() -> Option<String>>(&mut self, probe: F) -> (r: Option<String>)
        requires
            probe.requires(()),
        ensures
            final(self).user_game_stats_schema_prefix == old(self).user_game_stats_schema_prefix,
            final(self).local_app_banner_file_prefix == old(self).local_app_banner_file_prefix,
            cache_step(old(self).lib_path, final(self).lib_path, r, probe),
    {
        match &self.lib_path {
            Some(cached) => copy_text(cached),
            None => {
                let found = probe();
                self.lib_path = Some(copy_text(&found));
                found
            },
        }
    }

    /// The path of an app's stats schema: the cached schema prefix (or what
    /// `probe` finds, which is then cached), the app id and `.bin`; an error
    /// where no prefix is known.
    pub fn get_user_game_stats_schema<F: FnOnce() -> Option<String>>(&mut self, app_id: &u32, probe: F) -> (r: Result<String, SamError>)
        requires
            probe.requires(()),
        ensures
            final(self).lib_path == old(self).lib_path,
            final(self).local_app_banner_file_prefix == old(self).local_app_banner_file_prefix,
            final(self).user_game_stats_schema_prefix is Some,
            cache_step(old(self).user_game_stats_schema_prefix, final(self).user_game_stats_schema_prefix,
                final(self).user_game_stats_schema_prefix.unwrap(), probe),
            match final(self).user_game_stats_schema_prefix.unwrap() {
                Some(prefix) => r is Ok && r.unwrap()@ == prefix@ + decimal(*app_id as nat) + ".bin"@,
                None => r == Err::<String, SamError>(SamError::UnknownError),
            },
    {
        let prefix = match &self.user_game_stats_schema_prefix {
            Some(cached) => copy_text(cached),
            None => {
                let found = probe();
                self.user_game_stats_schema_prefix = Some(copy_text(&found));
                found
            },
        };
        match prefix {
            Some(prefix) => {
                let mut path = prefix;
                push_decimal(&mut path, *app_id);
                path.append(".bin");
                Ok(path)
            },
            None => Err(SamError::UnknownError),
        }
    }

    /// Where the library's banner images start: the cached prefix, or what
    /// `probe` finds, which is then cached.
    pub fn get_local_app_banner_file_prefix_cached<F: FnOnce() -> Option<String>>(&mut self, probe: F) -> (r: Option<String>)
        requires
            probe.requires(()),
        ensures
            final(self).lib_path == old(self).lib_path,
            final(self).user_game_stats_schema_prefix == old(self).user_game_stats_schema_prefix,
            cache_step(old(self).local_app_banner_file_prefix, final(self).local_app_banner_file_prefix, r, probe),
    {
        match &self.local_app_banner_file_prefix {
            Some(cached) => copy_text(cached),
            None => {
                let found = probe();
                self.local_app_banner_file_prefix = Some(copy_text(&found));
                found
            },
        }
    }

    /// The first root that the check finds `relative` under.
    fn install_root_holding<F: Fn(&str) -> bool>(roots: &Vec<String>, relative: &str, is_there: &F) -> (r: Option<usize>)
        requires
            forall|p: &str| #[trigger] is_there.requires((p,)),
        ensures
            match r {
                Some(i) => first_holding(*is_there, roots@, relative@, i as int),
                None => none_holding(*is_there, roots@, relative@),
            },
    {
        let mut i = 0usize;
        while i < roots.len()
            invariant
                i <= roots@.len(),
                forall|p: &str| #[trigger] is_there.requires((p,)),
                forall|j: int| 0 <= j < i ==> answered(*is_there, joined(#[trigger] roots@[j]@, relative@), false),
            decreases roots@.len() - i,
        {
            let path = join_path(roots[i].as_str(), relative);
            let p: &str = path.as_str();
            if is_there(p) {
                assert(is_there.ensures((p,), true));
                return Some(i);
            }
            assert(is_there.ensures((p,), false));
            i = i + 1;
        }
        None
    }

    /// `relative` in the first root that holds it.
    fn find_in_install_roots<F: Fn(&str) -> bool>(roots: &Vec<String>, relative: &str, is_there: &F) -> (r: Option<String>)
        requires
            forall|p: &str| #[trigger] is_there.requires((p,)),
        ensures
            match r {
                Some(path) => exists|i: int| first_holding(*is_there, roots@, relative@, i) && path@ == joined(roots@[i]@, relative@),
                None => none_holding(*is_there, roots@, relative@),
            },
    {
        match Self::install_root_holding(roots, relative, is_there) {
            Some(i) => Some(join_path(roots[i].as_str(), relative)),
            None => None,
        }
    }

    fn collections_relative(account_id: u32) -> (r: String)
        ensures
            r@ == collections_relative_text(account_id),
    {
        let mut r = String::from_str("userdata/");
        push_decimal(&mut r, account_id);
        r.append("/config/cloudstorage/cloud-storage-namespace-1.json");
        r
    }

    fn local_config_relative(account_id: u32) -> (r: String)
        ensures
            r@ == local_config_relative_text(account_id),
    {
        let mut r = String::from_str("userdata/");
        push_decimal(&mut r, account_id);
        r.append("/config/localconfig.vdf");
        r
    }

    /// Pinned to the install the collections came from, not whichever root holds
    /// the file first: a forgotten install's stale metadata is a wrong answer.
    fn in_collections_install<F: Fn(&str) -> bool>(account_id: u32, relative: &str, roots: &Vec<String>, is_there: &F) -> (r: Option<String>)
        requires
            forall|p: &str| #[trigger] is_there.requires((p,)),
        ensures
            match r {
                Some(path) => exists|i: int|
                    first_holding(*is_there, roots@, collections_relative_text(account_id), i)
                        && path@ == joined(roots@[i]@, relative@) && answered(*is_there, path@, true),
                None => none_holding(*is_there, roots@, collections_relative_text(account_id))
                    || exists|i: int|
                    first_holding(*is_there, roots@, collections_relative_text(account_id), i)
                        && answered(*is_there, joined(roots@[i]@, relative@), false),
            },
    {
        let collections = Self::collections_relative(account_id);
        let root = match Self::install_root_holding(roots, collections.as_str(), is_there) {
            Some(i) => i,
            None => return None,
        };
        let path = join_path(roots[root].as_str(), relative);
        let p: &str = path.as_str();
        if is_there(p) {
            assert(is_there.ensures((p,), true));
            Some(path)
        } else {
            assert(is_there.ensures((p,), false));
            None
        }
    }

    /// A user's `localconfig.vdf`, in the first install that holds one.
    pub fn get_local_config_path<F: Fn(&str) -> bool>(account_id: u32, roots: &Vec<String>, is_there: &F) -> (r: Option<String>)
        requires
            forall|p: &str| #[trigger] is_there.requires((p,)),
        ensures
            match r {
                Some(path) => exists|i: int|
                    first_holding(*is_there, roots@, local_config_relative_text(account_id), i)
                        && path@ == joined(roots@[i]@, local_config_relative_text(account_id)),
                None => none_holding(*is_there, roots@, local_config_relative_text(account_id)),
            },
    {
        let relative = Self::local_config_relative(account_id);
        Self::find_in_install_roots(roots, relative.as_str(), is_there)
    }

    /// A user's collections file, in the first install that holds one.
    pub fn get_collections_path<F: Fn(&str) -> bool>(account_id: u32, roots: &Vec<String>, is_there: &F) -> (r: Option<String>)
        requires
            forall|p: &str| #[trigger] is_there.requires((p,)),
        ensures
            match r {
                Some(path) => exists|i: int|
                    first_holding(*is_there, roots@, collections_relative_text(account_id), i)
                        && path@ == joined(roots@[i]@, collections_relative_text(account_id)),
                None => none_holding(*is_there, roots@, collections_relative_text(account_id)),
            },
    {
        let relative = Self::collections_relative(account_id);
        Self::find_in_install_roots(roots, relative.as_str(), is_there)
    }

    /// A user's `localconfig.vdf` in the install their collections came from.
    pub fn get_collections_local_config_path<F: Fn(&str) -> bool>(account_id: u32, roots: &Vec<String>, is_there: &F) -> (r: Option<String>)
        requires
            forall|p: &str| #[trigger] is_there.requires((p,)),
        ensures
            match r {
                Some(path) => exists|i: int|
                    first_holding(*is_there, roots@, collections_relative_text(account_id), i)
                        && path@ == joined(roots@[i]@, local_config_relative_text(account_id))
                        && answered(*is_there, path@, true),
                None => none_holding(*is_there, roots@, collections_relative_text(account_id))
                    || exists|i: int|
                    first_holding(*is_there, roots@, collections_relative_text(account_id), i)
                        && answered(*is_there, joined(roots@[i]@, local_config_relative_text(account_id)), false),
            },
    {
        let relative = Self::local_config_relative(account_id);
        Self::in_collections_install(account_id, relative.as_str(), roots, is_there)
    }

    /// `appcache/appinfo.vdf` in the install the user's collections came from.
    pub fn get_app_info_path<F: Fn(&str) -> bool>(account_id: u32, roots: &Vec<String>, is_there: &F) -> (r: Option<String>)
        requires
            forall|p: &str| #[trigger] is_there.requires((p,)),
        ensures
            match r {
                Some(path) => exists|i: int|
                    first_holding(*is_there, roots@, collections_relative_text(account_id), i)
                        && path@ == joined(roots@[i]@, "appcache/appinfo.vdf"@)
                        && answered(*is_there, path@, true),
                None => none_holding(*is_there, roots@, collections_relative_text(account_id))
                    || exists|i: int|
                    first_holding(*is_there, roots@, collections_relative_text(account_id), i)
                        && answered(*is_there, joined(roots@[i]@, "appcache/appinfo.vdf"@), false),
            },
    {
        Self::in_collections_install(account_id, "appcache/appinfo.vdf", roots, is_there)
    }

    /// `steamapps/libraryfolders.vdf` in the install the user's collections came from.
    pub fn get_library_folders_path<F: Fn(&str) -> bool>(account_id: u32, roots: &Vec<String>, is_there: &F) -> (r: Option<String>)
        requires
            forall|p: &str| #[trigger] is_there.requires((p,)),
        ensures
            match r {
                Some(path) => exists|i: int|
                    first_holding(*is_there, roots@, collections_relative_text(account_id), i)
                        && path@ == joined(roots@[i]@, "steamapps/libraryfolders.vdf"@)
                        && answered(*is_there, path@, true),
                None => none_holding(*is_there, roots@, collections_relative_text(account_id))
                    || exists|i: int|
                    first_holding(*is_there, roots@, collections_relative_text(account_id), i)
                        && answered(*is_there, joined(roots@[i]@, "steamapps/libraryfolders.vdf"@), false),
            },
    {
        Self::in_collections_install(account_id, "steamapps/libraryfolders.vdf", roots, is_there)
    }

    /// The places to look for an install under `home`, most preferred first.
    pub fn install_root_candidates(home: &str) -> (paths: Vec<String>)
        ensures
            paths@.len() == candidate_suffixes().len(),
            forall|k: int| 0 <= k < paths@.len() ==> #[trigger] paths@[k]@ == joined(home@, candidate_suffixes()[k]),
    {
        let mut paths: Vec<String> = Vec::new();
        paths.push(join_path(home, ".var/app/com.valvesoftware.Steam/.local/share/Steam"));
        paths.push(join_path(home, "snap/steam/common/.local/share/Steam"));
        paths.push(join_path(home, ".local/share/Steam"));
        paths.push(join_path(home, ".steam/steam"));
        paths.push(join_path(home, ".steam/debian-installation"));
        paths.push(join_path(home, ".steam/root"));
        paths
    }

    /// The Steam install roots: the override where one is given, else the
    /// candidates that are directories, each place once, in order.
    pub fn get_local_steam_install_root_folders(override_root: Option<String>, candidates: Vec<RootCandidate>) -> (roots: Vec<String>)
        ensures
            match override_root {
                Some(root) => roots@.len() == 1 && roots@[0] == root,
                None => roots@.map_values(|s: String| s@) == kept_roots(candidates@, candidates@.len()),
            },
    {
        if let Some(root) = override_root {
            let mut roots: Vec<String> = Vec::new();
            roots.push(root);
            return roots;
        }
        let mut roots: Vec<String> = Vec::new();
        let mut seen: Vec<String> = Vec::new();
        let mut i: usize = 0;
        while i < candidates.len()
            invariant
                i <= candidates@.len(),
                roots@.map_values(|s: String| s@) == kept_roots(candidates@, i as nat),
                seen@.map_values(|s: String| s@) == dir_canonicals(candidates@, i as nat),
            decreases candidates@.len() - i,
        {
            let c = &candidates[i];
            proof {
                lemma_dir_canonicals(candidates@, i as nat, c.canonical@);
            }
            if c.is_dir {
                if !contains_text(&seen, c.canonical.as_str()) {
                    roots.push(c.path.clone());
                    assert(roots@.map_values(|s: String| s@) =~= kept_roots(candidates@, i as nat).push(c.path@));
                }
                seen.push(c.canonical.clone());
                assert(seen@.map_values(|s: String| s@) =~= dir_canonicals(candidates@, i as nat).push(c.canonical@));
            }
            i = i + 1;
        }
        roots
    }

    /// The `steamclient` library to load: the override where one is given,
    /// else the library in the first install root that holds one.
    pub fn get_steamclient_lib_path<F: Fn(&str) -> bool>(
        silent: bool,
        override_path: Option<String>,
        roots: &Vec<String>,
        is_there: &F,
    ) -> (r: SteamclientSearch)
        requires
            forall|p: &str| #[trigger] is_there.requires((p,)),
        ensures
            match override_path {
                Some(p) => r.path == Some(p) && r.report@.len() == 0,
                None => exists|present: Seq<bool>| #[trigger] client_search_of(*is_there, roots@, silent, present, r),
            },
    {
        if let Some(p) = override_path {
            return SteamclientSearch { path: Some(p), report: Vec::new() };
        }
        let mut found: Vec<String> = Vec::new();
        let ghost mut present: Seq<bool> = seq![];
        let mut i: usize = 0;
        while i < roots.len()
            invariant
                i <= roots@.len(),
                present.len() == i,
                forall|p: &str| #[trigger] is_there.requires((p,)),
                forall|j: int| 0 <= j < i ==> answered(*is_there, joined(#[trigger] roots@[j]@, client_library_relative()), present[j]),
                found@.map_values(|s: String| s@) == client_paths(roots@, present, i as nat),
            decreases roots@.len() - i,
        {
            let path = join_path(roots[i].as_str(), "linux64/steamclient.so");
            let p: &str = path.as_str();
            let here = is_there(p);
            assert(is_there.ensures((p,), here));
            let ghost before = present;
            proof {
                present = present.push(here);
                lemma_client_paths_prefix(roots@, before, present, i as nat);
            }
            if here {
                found.push(path);
                assert(found@.map_values(|s: String| s@) =~= client_paths(roots@, present, (i + 1) as nat));
            } else {
                assert(found@.map_values(|s: String| s@) =~= client_paths(roots@, present, (i + 1) as nat));
            }
            i = i + 1;
        }
        let path = if found.len() > 0 {
            assert(found@[0]@ == found@.map_values(|s: String| s@)[0]);
            Some(found[0].clone())
        } else {
            None
        };
        let report = if !silent && found.len() > 1 { found } else { Vec::new() };
        let r = SteamclientSearch { path, report };
        assert(r.report@.map_values(|s: String| s@) =~= if !silent && client_paths(roots@, present, roots@.len()).len() > 1 { client_paths(roots@, present, roots@.len()) } else { seq![] });
        assert(client_search_of(*is_there, roots@, silent, present, r));
        r
    }

    /// Where the stats schemas start: under the first install root.
    pub fn get_user_game_stats_schema_prefix(roots: &Vec<String>) -> (r: Option<String>)
        ensures
            roots@.len() == 0 ==> r is None,
            roots@.len() > 0 ==> r is Some && r.unwrap()@ == roots@[0]@ + "/appcache/stats/UserGameStatsSchema_"@,
    {
        if roots.len() == 0 {
            return None;
        }
        let mut prefix = roots[0].clone();
        prefix.append("/appcache/stats/UserGameStatsSchema_");
        Some(prefix)
    }

    /// Where the library's banner images start: under the first install root.
    pub fn get_local_app_banner_file_prefix(roots: &Vec<String>) -> (r: Option<String>)
        ensures
            roots@.len() == 0 ==> r is None,
            roots@.len() > 0 ==> r is Some && r.unwrap()@ == roots@[0]@ + "/appcache/librarycache/"@,
    {
        if roots.len() == 0 {
            return None;
        }
        let mut prefix = roots[0].clone();
        prefix.append("/appcache/librarycache/");
        Some(prefix)
    }
}

} // verus!

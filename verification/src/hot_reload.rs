//! Hot reloading: asset versions, detecting which assets changed, and a mod
//! loader.
use vstd::prelude::*;
use std::collections::HashMap;
use std::path::Path;
use vstd::hash_map::StringHashMap;
use crate::text::{owned, push_str, str_eq};
use crate::persistence::string_views;

verus! {

broadcast use vstd::hash_map::group_hash_map_axioms;

// ---------------------------------------------------------------------------
// Asset versions
// ---------------------------------------------------------------------------

/// The versions after `check_update(p, v)`: the version of `p` becomes `v`.
pub open spec fn checked(m: Map<Seq<char>, u64>, p: Seq<char>, v: u64) -> Map<Seq<char>, u64> {
    m.insert(p, v)
}

/// `check_update(p, v)` reports a change: `p` was known with another version.
pub open spec fn is_change(m: Map<Seq<char>, u64>, p: Seq<char>, v: u64) -> bool {
    m.contains_key(p) && m[p] != v
}

/// The version of each registered asset path.
pub struct AssetWatcher {
    pub paths: StringHashMap<u64>,
}

impl AssetWatcher {
    pub fn new() -> (w: Self)
        ensures
            w.paths@ == Map::<Seq<char>, u64>::empty(),
    {
        Self { paths: StringHashMap::new() }
    }

    /// Records `version` for `path`.
    pub fn register(&mut self, path: &str, version: u64)
        ensures
            final(self).paths@ == old(self).paths@.insert(path@, version),
    {
        self.paths.insert(owned(path), version);
    }

    /// Records `new_version` for `path`; tells whether that is a change of a
    /// version already known (a first registration is not).
    pub fn check_update(&mut self, path: &str, new_version: u64) -> (changed: bool)
        ensures
            changed == is_change(old(self).paths@, path@, new_version),
            final(self).paths@ == checked(old(self).paths@, path@, new_version),
    {
        match self.paths.get(path) {
            Some(old_version) => {
                if *old_version != new_version {
                    self.paths.insert(owned(path), new_version);
                    true
                } else {
                    assert(self.paths@.insert(path@, new_version) =~= self.paths@);
                    false
                }
            },
            None => {
                self.paths.insert(owned(path), new_version);
                false
            },
        }
    }

    /// The version recorded for `path`.
    pub fn version(&self, path: &str) -> (v: Option<u64>)
        ensures
            match v {
                Some(n) => self.paths@.contains_key(path@) && self.paths@[path@] == n,
                None => !self.paths@.contains_key(path@),
            },
    {
        match self.paths.get(path) {
            Some(n) => Some(*n),
            None => None,
        }
    }
}

impl Default for AssetWatcher {
    fn default() -> (w: Self)
        ensures
            w.paths@ == Map::<Seq<char>, u64>::empty(),
    {
        Self::new()
    }
}

// ---------------------------------------------------------------------------
// Reloading
// ---------------------------------------------------------------------------

/// The versions and the changed paths after checking the entries `es` in order.
pub open spec fn check_entries(m: Map<Seq<char>, u64>, es: Seq<(Seq<char>, u64)>) -> (
    Map<Seq<char>, u64>,
    Seq<Seq<char>>,
)
    decreases es.len(),
{
    if es.len() == 0 {
        (m, Seq::empty())
    } else {
        let (m1, ch) = check_entries(m, es.drop_last());
        let (p, v) = es.last();
        (checked(m1, p, v), if is_change(m1, p, v) {
            ch.push(p)
        } else {
            ch
        })
    }
}

/// Every path that is not a key of `current` keeps its version from `m0` in
/// `m1`, or stays unknown.
pub open spec fn same_outside(
    m0: Map<Seq<char>, u64>,
    m1: Map<Seq<char>, u64>,
    current: Map<String, u64>,
) -> bool {
    forall|p: Seq<char>|
        !#[trigger] names_key(current, p) ==> (m1.contains_key(p) == m0.contains_key(p) && (
        m0.contains_key(p) ==> m1[p] == m0[p]))
}

/// Some key of `current` reads `p`.
pub open spec fn names_key(current: Map<String, u64>, p: Seq<char>) -> bool {
    exists|k: String| current.contains_key(k) && k@ == p
}

/// The entries as plain values.
pub open spec fn entry_views(es: Seq<(String, u64)>) -> Seq<(Seq<char>, u64)> {
    es.map_values(|e: (String, u64)| (e.0@, e.1))
}

/// The paths of `es` are pairwise different.
pub open spec fn distinct_paths(es: Seq<(Seq<char>, u64)>) -> bool {
    forall|i: int, j: int|
        0 <= i < es.len() && 0 <= j < es.len() && i != j ==> (#[trigger] es[i]).0 != (
        #[trigger] es[j]).0
}

/// `HashMap::iter`, collected: every entry of `m` once, in the map's own
/// order, which depends on the hasher's random seed. The claim is that the
/// entries are exactly those of `m`, each once; nothing is said of their order.
#[verifier::external_body]
fn map_entries(m: &HashMap<String, u64>) -> (r: Vec<(String, u64)>)
    ensures
        r@.len() == m@.len(),
        forall|i: int| 0 <= i < r@.len() ==> m@.contains_key(#[trigger] r@[i].0) && m@[r@[i].0] == r@[i].1,
        forall|k: String| m@.contains_key(k) ==> exists|i: int| 0 <= i < r@.len() && #[trigger] r@[i].0 == k,
        distinct_paths(entry_views(r@)),
{
    m.iter().map(|(k, v)| (k.clone(), *v)).collect()
}

/// Once a check has recorded the versions it was given, checking the same
/// versions again finds no change, so the reload count stays as it is.
pub proof fn lemma_recheck_finds_nothing(recorded: Map<Seq<char>, u64>, current: Map<String, u64>)
    requires
        forall|k: String|
            current.contains_key(k) ==> recorded.contains_key(k@) && recorded[k@] == current[k],
    ensures
        forall|k: String| #[trigger] current.contains_key(k) ==> !is_change(recorded, k@, current[k]),
{
}

/// Watches assets and counts the checks in which something changed.
pub struct ReloadCoordinator {
    watcher: AssetWatcher,
    reload_count: u32,
}

impl ReloadCoordinator {
    /// The versions known.
    pub closed spec fn versions(&self) -> Map<Seq<char>, u64> {
        self.watcher.paths@
    }

    /// The number of checks that found a change.
    pub closed spec fn reloads(&self) -> u32 {
        self.reload_count
    }

    pub fn new() -> (c: Self)
        ensures
            c.versions() == Map::<Seq<char>, u64>::empty(),
            c.reloads() == 0,
    {
        Self { watcher: AssetWatcher::new(), reload_count: 0 }
    }

    /// Records `version` for `path`.
    pub fn register_asset(&mut self, path: &str, version: u64)
        ensures
            final(self).versions() == old(self).versions().insert(path@, version),
            final(self).reloads() == old(self).reloads(),
    {
        self.watcher.register(path, version);
    }

    /// Checks the entries in order, records their versions and returns the
    /// paths whose known version changed; a check that finds a change counts
    /// as one reload.
    pub fn check_versions(&mut self, entries: &Vec<(String, u64)>) -> (changed: Vec<String>)
        requires
            old(self).reloads() < u32::MAX || check_entries(
                old(self).versions(),
                entry_views(entries@),
            ).1.len() == 0,
        ensures
            final(self).versions() == check_entries(old(self).versions(), entry_views(entries@)).0,
            string_views(changed@) == check_entries(old(self).versions(), entry_views(entries@)).1,
            final(self).reloads() == old(self).reloads() + if changed@.len() > 0 {
                1int
            } else {
                0int
            },
    {
        let ghost m0 = self.watcher.paths@;
        let ghost es = entry_views(entries@);
        let mut changed: Vec<String> = Vec::new();
        let mut i: usize = 0;
        while i < entries.len()
            invariant
                i <= entries.len(),
                es == entry_views(entries@),
                self.reload_count == old(self).reload_count,
                (self.watcher.paths@, string_views(changed@)) == check_entries(
                    m0,
                    es.take(i as int),
                ),
            decreases entries.len() - i,
        {
            assert(es.take(i + 1).drop_last() =~= es.take(i as int));
            assert(es.take(i + 1).last() == (entries@[i as int].0@, entries@[i as int].1));
            let ghost before = changed@;
            if self.watcher.check_update(entries[i].0.as_str(), entries[i].1) {
                changed.push(entries[i].0.clone());
                assert(string_views(changed@) =~= string_views(before).push(entries@[i as int].0@));
            }
            i += 1;
        }
        assert(es.take(entries.len() as int) =~= es);
        if changed.len() > 0 {
            self.reload_count += 1;
        }
        changed
    }

    /// Checks every entry of `current_versions`, in the map's own order (which
    /// varies from run to run), records their versions and returns the paths
    /// whose known version changed; a check that finds a change counts as one
    /// reload.
    pub fn check_all(&mut self, current_versions: &HashMap<String, u64>) -> (changed: Vec<String>)
        requires
            old(self).reloads() < u32::MAX || forall|k: String|
                #[trigger] current_versions@.contains_key(k) ==> !is_change(
                    old(self).versions(),
                    k@,
                    current_versions@[k],
                ),
        ensures
            forall|k: String|
                current_versions@.contains_key(k) ==> final(self).versions().contains_key(k@)
                    && final(self).versions()[k@] == current_versions@[k],
            same_outside(old(self).versions(), final(self).versions(), current_versions@),
            forall|p: Seq<char>|
                #[trigger] string_views(changed@).contains(p) <==> exists|k: String|
                    #[trigger] current_versions@.contains_key(k) && k@ == p && is_change(
                        old(self).versions(),
                        p,
                        current_versions@[k],
                    ),
            string_views(changed@).no_duplicates(),
            final(self).reloads() == old(self).reloads() + if changed@.len() > 0 {
                1int
            } else {
                0int
            },
    {
        let entries = map_entries(current_versions);
        let ghost es = entry_views(entries@);
        let ghost m0 = self.watcher.paths@;
        proof {
            if self.reload_count == u32::MAX {
                assert forall|i: int| 0 <= i < es.len() implies !is_change(m0, (#[trigger] es[i]).0, es[i].1) by {
                    assert(current_versions@.contains_key(entries@[i].0));
                }
                lemma_no_changes(m0, es);
            }
        }
        let changed = self.check_versions(&entries);
        proof {
            lemma_changed_distinct(m0, es);
            assert forall|k: String| current_versions@.contains_key(k) implies self.versions().contains_key(
                k@,
            ) && self.versions()[k@] == current_versions@[k] by {
                let i = choose|i: int| 0 <= i < entries@.len() && #[trigger] entries@[i].0 == k;
                assert(es[i] == (k@, entries@[i].1));
                lemma_check_entries_hit(m0, es, i);
            }
            assert forall|p: Seq<char>|
                !#[trigger] names_key(current_versions@, p) implies (
                self.versions().contains_key(p) == m0.contains_key(p) && (m0.contains_key(p)
                    ==> self.versions()[p] == m0[p])) by {
                assert forall|i: int| 0 <= i < es.len() implies (#[trigger] es[i]).0 != p by {
                    assert(current_versions@.contains_key(entries@[i].0));
                    if es[i].0 == p {
                        assert(names_key(current_versions@, p));
                    }
                }
                lemma_check_entries_other(m0, es, p);
            }
            assert(same_outside(m0, self.versions(), current_versions@));
            assert forall|p: Seq<char>|
                #[trigger] string_views(changed@).contains(p) <==> exists|k: String|
                    #[trigger] current_versions@.contains_key(k) && k@ == p && is_change(
                        m0,
                        p,
                        current_versions@[k],
                    ) by {
                lemma_changed_members(m0, es, p);
                if exists|i: int| 0 <= i < es.len() && (#[trigger] es[i]).0 == p && is_change(m0, p, es[i].1) {
                    let i = choose|i: int| 0 <= i < es.len() && (#[trigger] es[i]).0 == p && is_change(m0, p, es[i].1);
                    let k = entries@[i].0;
                    assert(current_versions@.contains_key(k) && k@ == p);
                }
                if exists|k: String| #[trigger] current_versions@.contains_key(k) && k@ == p && is_change(m0, p, current_versions@[k]) {
                    let k = choose|k: String| #[trigger] current_versions@.contains_key(k) && k@ == p && is_change(m0, p, current_versions@[k]);
                    let i = choose|i: int| 0 <= i < entries@.len() && #[trigger] entries@[i].0 == k;
                    assert(es[i].0 == p && es[i].1 == current_versions@[k]);
                }
            }
        }
        changed
    }

    pub fn reload_count(&self) -> (n: u32)
        ensures
            n == self.reloads(),
    {
        self.reload_count
    }
}

/// Checking entries none of which is for `p` leaves the version of `p` as it is.
proof fn lemma_check_entries_other(m: Map<Seq<char>, u64>, es: Seq<(Seq<char>, u64)>, p: Seq<char>)
    requires
        forall|i: int| 0 <= i < es.len() ==> (#[trigger] es[i]).0 != p,
    ensures
        check_entries(m, es).0.contains_key(p) == m.contains_key(p),
        m.contains_key(p) ==> check_entries(m, es).0[p] == m[p],
    decreases es.len(),
{
    if es.len() > 0 {
        let init = es.drop_last();
        assert forall|i: int| 0 <= i < init.len() implies (#[trigger] init[i]).0 != p by {
            assert(init[i] == es[i]);
        }
        assert(es[es.len() - 1].0 != p);
        lemma_check_entries_other(m, init, p);
    }
}

/// After checking entries with distinct paths, the path of entry `i` has its
/// version.
proof fn lemma_check_entries_hit(m: Map<Seq<char>, u64>, es: Seq<(Seq<char>, u64)>, i: int)
    requires
        distinct_paths(es),
        0 <= i < es.len(),
    ensures
        check_entries(m, es).0.contains_key(es[i].0),
        check_entries(m, es).0[es[i].0] == es[i].1,
{
    let pre = es.take(i + 1);
    let rest = es.skip(i + 1);
    assert(pre.drop_last() =~= es.take(i));
    assert(pre.last() == es[i]);
    lemma_check_entries_split(m, pre, rest);
    assert(pre + rest =~= es);
    assert forall|j: int| 0 <= j < rest.len() implies (#[trigger] rest[j]).0 != es[i].0 by {
        assert(rest[j] == es[i + 1 + j]);
    }
    lemma_check_entries_other(check_entries(m, pre).0, rest, es[i].0);
}

/// Entries with distinct paths none of which changes a known version report
/// no change.
proof fn lemma_no_changes(m: Map<Seq<char>, u64>, es: Seq<(Seq<char>, u64)>)
    requires
        distinct_paths(es),
        forall|i: int| 0 <= i < es.len() ==> !is_change(m, (#[trigger] es[i]).0, es[i].1),
    ensures
        check_entries(m, es).1.len() == 0,
    decreases es.len(),
{
    if es.len() > 0 {
        let init = es.drop_last();
        let last = es[es.len() - 1];
        assert forall|i: int, j: int|
            0 <= i < init.len() && 0 <= j < init.len() && i != j implies (#[trigger] init[i]).0
            != (#[trigger] init[j]).0 by {
            assert(init[i] == es[i] && init[j] == es[j]);
        }
        assert forall|i: int| 0 <= i < init.len() implies !is_change(m, (#[trigger] init[i]).0, init[i].1) by {
            assert(init[i] == es[i]);
        }
        lemma_no_changes(m, init);
        assert forall|i: int| 0 <= i < init.len() implies (#[trigger] init[i]).0 != last.0 by {
            assert(init[i] == es[i]);
        }
        lemma_check_entries_other(m, init, last.0);
        assert(!is_change(m, last.0, last.1));
    }
}

/// With distinct paths, the changed paths are those of the entries that change a
/// known version.
proof fn lemma_changed_members(m: Map<Seq<char>, u64>, es: Seq<(Seq<char>, u64)>, p: Seq<char>)
    requires
        distinct_paths(es),
    ensures
        check_entries(m, es).1.contains(p) <==> exists|i: int|
            0 <= i < es.len() && (#[trigger] es[i]).0 == p && is_change(m, p, es[i].1),
    decreases es.len(),
{
    if es.len() > 0 {
        let init = es.drop_last();
        let n = es.len() - 1;
        let last = es[n];
        assert forall|i: int, j: int|
            0 <= i < init.len() && 0 <= j < init.len() && i != j implies (#[trigger] init[i]).0
            != (#[trigger] init[j]).0 by {
            assert(init[i] == es[i] && init[j] == es[j]);
        }
        lemma_changed_members(m, init, p);
        assert forall|i: int| 0 <= i < init.len() implies (#[trigger] init[i]).0 != last.0 by {
            assert(init[i] == es[i]);
        }
        lemma_check_entries_other(m, init, last.0);
        let ch = check_entries(m, init).1;
        if check_entries(m, es).1.contains(p) {
            if ch.contains(p) {
                let i = choose|i: int| 0 <= i < init.len() && (#[trigger] init[i]).0 == p && is_change(m, p, init[i].1);
                assert(es[i] == init[i]);
            } else {
                let j = choose|j: int| 0 <= j < ch.push(last.0).len() && ch.push(last.0)[j] == p;
                assert(j == ch.len());
                assert(es[n].0 == p);
            }
        }
        if exists|i: int| 0 <= i < es.len() && (#[trigger] es[i]).0 == p && is_change(m, p, es[i].1) {
            let i = choose|i: int| 0 <= i < es.len() && (#[trigger] es[i]).0 == p && is_change(m, p, es[i].1);
            if i < n {
                assert(init[i] == es[i]);
                assert(ch.contains(p));
                let j = choose|j: int| 0 <= j < ch.len() && ch[j] == p;
                if is_change(check_entries(m, init).0, last.0, last.1) {
                    assert(ch.push(last.0)[j] == p);
                }
            } else {
                assert(ch.push(last.0)[ch.len() as int] == p);
            }
        }
    }
}

/// With distinct paths, no changed path is reported twice.
proof fn lemma_changed_distinct(m: Map<Seq<char>, u64>, es: Seq<(Seq<char>, u64)>)
    requires
        distinct_paths(es),
    ensures
        check_entries(m, es).1.no_duplicates(),
    decreases es.len(),
{
    if es.len() > 0 {
        let init = es.drop_last();
        let n = es.len() - 1;
        let last = es[n];
        assert forall|i: int, j: int|
            0 <= i < init.len() && 0 <= j < init.len() && i != j implies (#[trigger] init[i]).0
            != (#[trigger] init[j]).0 by {
            assert(init[i] == es[i] && init[j] == es[j]);
        }
        lemma_changed_distinct(m, init);
        let ch = check_entries(m, init).1;
        lemma_changed_members(m, init, last.0);
        if ch.contains(last.0) {
            let i = choose|i: int|
                0 <= i < init.len() && (#[trigger] init[i]).0 == last.0 && is_change(m, last.0, init[i].1);
            assert(es[i] == init[i]);
        }
        let c2 = ch.push(last.0);
        assert(!ch.contains(last.0));
        assert forall|a: int, b: int| 0 <= a < c2.len() && 0 <= b < c2.len() && a != b implies c2[a]
            != c2[b] by {
            if a < ch.len() && b < ch.len() {
            } else if a < ch.len() {
                assert(ch.contains(ch[a]));
            } else {
                assert(ch.contains(ch[b]));
            }
        }
    }
}

/// Checking `a` then `b` is checking `a + b`.
proof fn lemma_check_entries_split(m: Map<Seq<char>, u64>, a: Seq<(Seq<char>, u64)>, b: Seq<(Seq<char>, u64)>)
    ensures
        check_entries(m, a + b).0 == check_entries(check_entries(m, a).0, b).0,
    decreases b.len(),
{
    if b.len() == 0 {
        assert(a + b =~= a);
    } else {
        assert((a + b).drop_last() =~= a + b.drop_last());
        assert((a + b).last() == b.last());
        lemma_check_entries_split(m, a, b.drop_last());
    }
}

impl Default for ReloadCoordinator {
    fn default() -> (c: Self)
        ensures
            c.versions() == Map::<Seq<char>, u64>::empty(),
            c.reloads() == 0,
    {
        Self::new()
    }
}

// ---------------------------------------------------------------------------
// Mods
// ---------------------------------------------------------------------------

/// A mod found on disk.
#[derive(Clone, Debug)]
pub struct ModInfo {
    pub name: String,
    pub path: String,
    pub version: String,
}

/// What `Path::file_stem` gives for a path, as text.
pub uninterp spec fn file_stem_of(path: Seq<char>) -> Option<Seq<char>>;

/// What `Path::join` gives for a directory and a name, as text.
pub uninterp spec fn joined_path(dir: Seq<char>, name: Seq<char>) -> Seq<char>;

/// `Path::exists`: whether something is at `path` on disk. Nothing is stated
/// of the result: it depends on the disk.
#[verifier::external_body]
fn path_exists(path: &str) -> bool {
    Path::new(path).exists()
}

/// `Path::file_stem`, as text: the file name of `path` without its extension.
/// The claim is only that the result is a function of `path`.
#[verifier::external_body]
fn file_stem(path: &str) -> (r: Option<String>)
    ensures
        match r {
            Some(s) => file_stem_of(path@) == Some(s@),
            None => file_stem_of(path@) is None,
        },
{
    match Path::new(path).file_stem() {
        Some(os) => match os.to_str() {
            Some(s) => Some(s.to_string()),
            None => None,
        },
        None => None,
    }
}

/// `Path::join`, as text: `name` inside the directory `dir`. The claim is only
/// that the result is a function of `dir` and `name`.
#[verifier::external_body]
fn join_path(dir: &str, name: &str) -> (r: String)
    ensures
        r@ == joined_path(dir@, name@),
{
    Path::new(dir).join(name).to_string_lossy().into_owned()
}

/// The message for a mod path with nothing on disk.
pub open spec fn missing_path_message(mod_path: Seq<char>) -> Seq<char> {
    "Mod path does not exist: "@ + mod_path
}

/// The two manifest files a mod may have, inside its directory: `mod.toml`
/// and `mod.json`.
pub fn manifest_paths(mod_path: &str) -> (r: (String, String))
    ensures
        r.0@ == joined_path(mod_path@, "mod.toml"@),
        r.1@ == joined_path(mod_path@, "mod.json"@),
{
    (join_path(mod_path, "mod.toml"), join_path(mod_path, "mod.json"))
}

/// Decides on a mod from what the disk showed: whether its path exists, its
/// file stem, and whether its `mod.toml` and its `mod.json` exist; either
/// manifest is enough.
pub fn check_mod(
    mod_path: &str,
    found: bool,
    stem: Option<String>,
    has_toml: bool,
    has_json: bool,
) -> (r: Result<ModInfo, String>)
    ensures
        !found ==> (r matches Err(e) && e@ == missing_path_message(mod_path@)),
        found && stem is None ==> (r matches Err(e) && e@ == "Invalid mod filename"@),
        found && stem is Some && !has_toml && !has_json ==> (r matches Err(e) && e@
            == "Mod missing manifest file (mod.toml or mod.json)"@),
        found && stem is Some && (has_toml || has_json) ==> (r matches Ok(info) && info.name@
            == stem->Some_0@ && info.path@ == mod_path@ && info.version@ == "0.1.0"@),
{
    if !found {
        let mut msg = owned("Mod path does not exist: ");
        push_str(&mut msg, mod_path);
        return Err(msg);
    }
    let name = match stem {
        Some(s) => s,
        None => {
            return Err(owned("Invalid mod filename"));
        },
    };
    if !has_toml && !has_json {
        return Err(owned("Mod missing manifest file (mod.toml or mod.json)"));
    }
    Ok(ModInfo { name, path: owned(mod_path), version: owned("0.1.0") })
}

/// Whether `v` holds `s`.
pub open spec fn holds(v: Seq<Seq<char>>, s: Seq<char>) -> bool {
    v.contains(s)
}

/// The names of the loaded mods, each loaded once.
pub struct ModLoader {
    pub loaded_mods: Vec<String>,
}

impl ModLoader {
    pub fn new() -> (l: Self)
        ensures
            l.loaded_mods@.len() == 0,
    {
        Self { loaded_mods: Vec::new() }
    }

    /// Looks at the mod at `mod_path` on disk: it must exist, have a file
    /// name, and hold `mod.toml` or `mod.json`.
    pub fn validate_mod(&self, mod_path: &str) -> (r: Result<ModInfo, String>)
        ensures
            match r {
                Ok(info) => file_stem_of(mod_path@) == Some(info.name@) && info.path@ == mod_path@
                    && info.version@ == "0.1.0"@,
                Err(e) => e@ == missing_path_message(mod_path@) || (e@ == "Invalid mod filename"@
                    && file_stem_of(mod_path@) is None) || e@
                    == "Mod missing manifest file (mod.toml or mod.json)"@,
            },
    {
        if !path_exists(mod_path) {
            return check_mod(mod_path, false, None, false, false);
        }
        let stem = file_stem(mod_path);
        if stem.is_none() {
            return check_mod(mod_path, true, None, false, false);
        }
        let (toml, json) = manifest_paths(mod_path);
        let has_toml = path_exists(toml.as_str());
        let has_json = path_exists(json.as_str());
        check_mod(mod_path, true, stem, has_toml, has_json)
    }

    /// Whether a mod called `name` is loaded.
    pub fn is_loaded(&self, name: &str) -> (r: bool)
        ensures
            r == holds(string_views(self.loaded_mods@), name@),
    {
        let mut i: usize = 0;
        while i < self.loaded_mods.len()
            invariant
                i <= self.loaded_mods.len(),
                forall|j: int| 0 <= j < i ==> (#[trigger] self.loaded_mods@[j])@ != name@,
            decreases self.loaded_mods.len() - i,
        {
            if str_eq(self.loaded_mods[i].as_str(), name) {
                assert(string_views(self.loaded_mods@)[i as int] == name@);
                return true;
            }
            i += 1;
        }
        proof {
            if string_views(self.loaded_mods@).contains(name@) {
                let j = choose|j: int| 0 <= j < self.loaded_mods@.len() && string_views(self.loaded_mods@)[j] == name@;
                assert(self.loaded_mods@[j]@ == name@);
            }
        }
        false
    }

    /// Loads the mod unless one of the same name is loaded.
    pub fn load_mod(&mut self, info: &ModInfo)
        ensures
            string_views(final(self).loaded_mods@) == if holds(
                string_views(old(self).loaded_mods@),
                info.name@,
            ) {
                string_views(old(self).loaded_mods@)
            } else {
                string_views(old(self).loaded_mods@).push(info.name@)
            },
            string_views(old(self).loaded_mods@).no_duplicates() ==> string_views(
                final(self).loaded_mods@,
            ).no_duplicates(),
    {
        if !self.is_loaded(info.name.as_str()) {
            let ghost before = self.loaded_mods@;
            self.loaded_mods.push(info.name.clone());
            let ghost b = string_views(before);
            assert(string_views(self.loaded_mods@) =~= b.push(info.name@));
            assert(b.no_duplicates() ==> b.push(info.name@).no_duplicates()) by {
                if b.no_duplicates() {
                    let c = b.push(info.name@);
                    assert forall|i: int, j: int|
                        0 <= i < c.len() && 0 <= j < c.len() && i != j implies c[i] != c[j] by {
                        if i == b.len() as int {
                            assert(c[j] == b[j]);
                            assert(b.contains(b[j]));
                        } else if j == b.len() as int {
                            assert(c[i] == b[i]);
                            assert(b.contains(b[i]));
                        }
                    }
                }
            }
        }
    }

    /// Unloads every mod called `name`.
    pub fn unload_mod(&mut self, name: &str)
        ensures
            string_views(final(self).loaded_mods@) == string_views(old(self).loaded_mods@).filter(
                |s: Seq<char>| s != name@,
            ),
    {
        let ghost s = string_views(self.loaded_mods@);
        let mut kept: Vec<String> = Vec::new();
        let mut i: usize = 0;
        while i < self.loaded_mods.len()
            invariant
                i <= self.loaded_mods.len(),
                s == string_views(self.loaded_mods@),
                string_views(kept@) == s.take(i as int).filter(|t: Seq<char>| t != name@),
            decreases self.loaded_mods.len() - i,
        {
            proof {
                reveal(Seq::filter);
                assert(s.take(i + 1).drop_last() =~= s.take(i as int));
                assert(s.take(i + 1).last() == self.loaded_mods@[i as int]@);
            }
            let ghost before = kept@;
            if !str_eq(self.loaded_mods[i].as_str(), name) {
                kept.push(self.loaded_mods[i].clone());
                assert(string_views(kept@) =~= string_views(before).push(self.loaded_mods@[i as int]@));
            }
            i += 1;
        }
        assert(s.take(self.loaded_mods.len() as int) =~= s);
        self.loaded_mods = kept;
    }
}

impl Default for ModLoader {
    fn default() -> (l: Self)
        ensures
            l.loaded_mods@.len() == 0,
    {
        Self::new()
    }
}

} // verus!

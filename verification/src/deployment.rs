//! Deployment: target platforms, release build profiles and their Cargo text,
//! and a release checklist.
use vstd::prelude::*;
use crate::text::{owned, push_str, push_u64, str_eq, nat_digits};

verus! {

/// The platforms a game is released on.
#[derive(Clone, Copy, Debug, PartialEq, Eq, Hash, Structural)]
pub enum Platform {
    Windows,
    Linux,
    Macos,
    Web,
    Android,
    Ios,
}

impl Platform {
    /// The Rust target triple of the platform.
    pub fn target_triple(&self) -> (t: &'static str)
        ensures
            t@ == match *self {
                Platform::Windows => "x86_64-pc-windows-msvc"@,
                Platform::Linux => "x86_64-unknown-linux-gnu"@,
                Platform::Macos => "x86_64-apple-darwin"@,
                Platform::Web => "wasm32-unknown-unknown"@,
                Platform::Android => "aarch64-linux-android"@,
                Platform::Ios => "aarch64-apple-ios"@,
            },
    {
        match self {
            Platform::Windows => "x86_64-pc-windows-msvc",
            Platform::Linux => "x86_64-unknown-linux-gnu",
            Platform::Macos => "x86_64-apple-darwin",
            Platform::Web => "wasm32-unknown-unknown",
            Platform::Android => "aarch64-linux-android",
            Platform::Ios => "aarch64-apple-ios",
        }
    }

    /// The extension of the game's file on the platform.
    pub fn file_extension(&self) -> (e: &'static str)
        ensures
            e@ == match *self {
                Platform::Windows => ".exe"@,
                Platform::Linux | Platform::Macos => ""@,
                Platform::Web => ".wasm"@,
                Platform::Android => ".apk"@,
                Platform::Ios => ".ipa"@,
            },
    {
        match self {
            Platform::Windows => ".exe",
            Platform::Linux | Platform::Macos => "",
            Platform::Web => ".wasm",
            Platform::Android => ".apk",
            Platform::Ios => ".ipa",
        }
    }
}

/// Cargo's `opt-level`.
#[derive(Clone, Copy, Debug, PartialEq, Eq, Structural)]
pub enum OptLevel {
    Off,
    Size,
    Speed,
    Balanced,
}

/// The value Cargo takes for an optimisation level.
pub open spec fn opt_value(o: OptLevel) -> Seq<char> {
    match o {
        OptLevel::Off => "0"@,
        OptLevel::Size => "z"@,
        OptLevel::Speed => "3"@,
        OptLevel::Balanced => "s"@,
    }
}

impl OptLevel {
    pub fn cargo_value(&self) -> (v: &'static str)
        ensures
            v@ == opt_value(*self),
    {
        match self {
            OptLevel::Off => "0",
            OptLevel::Size => "z",
            OptLevel::Speed => "3",
            OptLevel::Balanced => "s",
        }
    }
}

/// Cargo's `lto`.
#[derive(Clone, Copy, Debug, PartialEq, Eq, Structural)]
pub enum LtoSetting {
    Off,
    Thin,
    Fat,
}

/// The value Cargo takes for a link-time optimisation setting.
pub open spec fn lto_value(l: LtoSetting) -> Seq<char> {
    match l {
        LtoSetting::Off => "false"@,
        LtoSetting::Thin => "thin"@,
        LtoSetting::Fat => "true"@,
    }
}

impl LtoSetting {
    pub fn cargo_value(&self) -> (v: &'static str)
        ensures
            v@ == lto_value(*self),
    {
        match self {
            LtoSetting::Off => "false",
            LtoSetting::Thin => "thin",
            LtoSetting::Fat => "true",
        }
    }
}

/// Cargo's `panic`.
#[derive(Clone, Copy, Debug, PartialEq, Eq, Structural)]
pub enum PanicStrategy {
    Unwind,
    Abort,
}

/// The value Cargo takes for a panic strategy.
pub open spec fn panic_value(p: PanicStrategy) -> Seq<char> {
    match p {
        PanicStrategy::Unwind => "unwind"@,
        PanicStrategy::Abort => "abort"@,
    }
}

/// A Cargo build profile.
#[derive(Clone, Debug)]
pub struct BuildProfile {
    pub name: String,
    pub opt_level: OptLevel,
    pub lto: LtoSetting,
    pub codegen_units: u32,
    pub strip: bool,
    pub panic: PanicStrategy,
}

/// `true` or `false`.
pub open spec fn bool_text(b: bool) -> Seq<char> {
    if b {
        "true"@
    } else {
        "false"@
    }
}

/// The Cargo section of a profile.
pub open spec fn profile_text(p: BuildProfile) -> Seq<char> {
    "[profile."@ + p.name@ + "]\nopt-level = \""@ + opt_value(p.opt_level) + "\"\nlto = \""@
        + lto_value(p.lto) + "\"\ncodegen-units = "@ + nat_digits(p.codegen_units as nat)
        + "\nstrip = "@ + bool_text(p.strip) + "\npanic = \""@ + panic_value(p.panic) + "\"\n"@
}

/// The `[profile.<name>]` section of `Cargo.toml` for `profile`.
pub fn generate_release_profile(profile: &BuildProfile) -> (s: String)
    ensures
        s@ == profile_text(*profile),
{
    let mut s = owned("[profile.");
    push_str(&mut s, profile.name.as_str());
    push_str(&mut s, "]\nopt-level = \"");
    push_str(&mut s, profile.opt_level.cargo_value());
    push_str(&mut s, "\"\nlto = \"");
    push_str(&mut s, profile.lto.cargo_value());
    push_str(&mut s, "\"\ncodegen-units = ");
    push_u64(&mut s, profile.codegen_units as u64);
    push_str(&mut s, "\nstrip = ");
    if profile.strip {
        push_str(&mut s, "true");
    } else {
        push_str(&mut s, "false");
    }
    push_str(&mut s, "\npanic = \"");
    match profile.panic {
        PanicStrategy::Unwind => push_str(&mut s, "unwind"),
        PanicStrategy::Abort => push_str(&mut s, "abort"),
    }
    push_str(&mut s, "\"\n");
    s
}

/// The recommended profile for the web: small, fully optimised at link time,
/// aborting on panic.
pub fn web_release_profile() -> (p: BuildProfile)
    ensures
        p.name@ == "web"@,
        p.opt_level == OptLevel::Size,
        p.lto == LtoSetting::Fat,
        p.codegen_units == 1,
        p.strip,
        p.panic == PanicStrategy::Abort,
{
    BuildProfile {
        name: owned("web"),
        opt_level: OptLevel::Size,
        lto: LtoSetting::Fat,
        codegen_units: 1,
        strip: true,
        panic: PanicStrategy::Abort,
    }
}

/// The recommended profile for desktops: fast, thin link-time optimisation,
/// unwinding for crash reports.
pub fn desktop_release_profile() -> (p: BuildProfile)
    ensures
        p.name@ == "release"@,
        p.opt_level == OptLevel::Speed,
        p.lto == LtoSetting::Thin,
        p.codegen_units == 16,
        p.strip,
        p.panic == PanicStrategy::Unwind,
{
    BuildProfile {
        name: owned("release"),
        opt_level: OptLevel::Speed,
        lto: LtoSetting::Thin,
        codegen_units: 16,
        strip: true,
        panic: PanicStrategy::Unwind,
    }
}

// ---------------------------------------------------------------------------
// Release checklist
// ---------------------------------------------------------------------------

/// One task before a release.
#[derive(Clone, Debug)]
pub struct ChecklistItem {
    pub category: String,
    pub description: String,
    pub completed: bool,
    pub critical: bool,
}

/// An item as plain values: category, description, completed, critical.
pub open spec fn item_view(i: ChecklistItem) -> (Seq<char>, Seq<char>, bool, bool) {
    (i.category@, i.description@, i.completed, i.critical)
}

/// The items as plain values.
pub open spec fn items_view(s: Seq<ChecklistItem>) -> Seq<(Seq<char>, Seq<char>, bool, bool)> {
    s.map_values(|i: ChecklistItem| item_view(i))
}

/// `k` is the first item described as `d`.
pub open spec fn first_described(s: Seq<ChecklistItem>, d: Seq<char>, k: int) -> bool {
    0 <= k < s.len() && s[k].description@ == d && forall|j: int|
        0 <= j < k ==> (#[trigger] s[j]).description@ != d
}

/// The tasks before a release.
pub struct ReleaseChecklist {
    pub items: Vec<ChecklistItem>,
}

impl ReleaseChecklist {
    pub fn new() -> (c: Self)
        ensures
            c.items@.len() == 0,
    {
        Self { items: Vec::new() }
    }

    /// Adds a task, not yet completed.
    pub fn add(&mut self, category: &str, description: &str, critical: bool)
        ensures
            items_view(final(self).items@) == items_view(old(self).items@).push(
                (category@, description@, false, critical),
            ),
    {
        let ghost before = self.items@;
        self.items.push(
            ChecklistItem {
                category: owned(category),
                description: owned(description),
                completed: false,
                critical,
            },
        );
        assert(items_view(self.items@) =~= items_view(before).push(
            (category@, description@, false, critical),
        ));
    }

    /// Marks the first task described as `description` completed.
    pub fn complete(&mut self, description: &str)
        ensures
            final(self).items@.len() == old(self).items@.len(),
            forall|i: int|
                0 <= i < old(self).items@.len() ==> item_view(#[trigger] final(self).items@[i]) == {
                    let a = item_view(old(self).items@[i]);
                    (a.0, a.1, a.2 || first_described(old(self).items@, description@, i), a.3)
                },
    {
        let mut k: usize = 0;
        while k < self.items.len()
            invariant
                k <= self.items.len(),
                self.items@ == old(self).items@,
                forall|j: int| 0 <= j < k ==> (#[trigger] self.items@[j]).description@ != description@,
            decreases self.items.len() - k,
        {
            if str_eq(self.items[k].description.as_str(), description) {
                let ghost s0 = self.items@;
                self.items[k].completed = true;
                assert forall|i: int| 0 <= i < s0.len() implies item_view(
                    #[trigger] self.items@[i],
                ) == {
                    let a = item_view(s0[i]);
                    (a.0, a.1, a.2 || first_described(s0, description@, i), a.3)
                } by {
                    if i != k {
                        assert(self.items@[i] == s0[i]);
                        if first_described(s0, description@, i) {
                            if i < k {
                                assert(s0[i].description@ != description@);
                            } else {
                                assert(s0[k as int].description@ == description@);
                            }
                        }
                    } else {
                        assert(first_described(s0, description@, i));
                    }
                }
                return;
            }
            k += 1;
        }
        assert forall|i: int| 0 <= i < old(self).items@.len() implies !first_described(
            old(self).items@,
            description@,
            i,
        ) by {}
    }

    /// Whether every critical task is completed.
    pub fn is_ready_for_release(&self) -> (r: bool)
        ensures
            r == forall|i: int|
                0 <= i < self.items@.len() && (#[trigger] self.items@[i]).critical
                    ==> self.items@[i].completed,
    {
        let mut i: usize = 0;
        while i < self.items.len()
            invariant
                i <= self.items.len(),
                forall|j: int|
                    0 <= j < i && (#[trigger] self.items@[j]).critical ==> self.items@[j].completed,
            decreases self.items.len() - i,
        {
            if self.items[i].critical && !self.items[i].completed {
                return false;
            }
            i += 1;
        }
        true
    }

    /// The critical tasks not yet completed, in order.
    pub fn pending_critical(&self) -> (v: Vec<&ChecklistItem>)
        ensures
            v@.map_values(|i: &ChecklistItem| *i) == self.items@.filter(
                |i: ChecklistItem| i.critical && !i.completed,
            ),
    {
        let ghost pred = |i: ChecklistItem| i.critical && !i.completed;
        let mut v: Vec<&ChecklistItem> = Vec::new();
        let mut k: usize = 0;
        while k < self.items.len()
            invariant
                k <= self.items.len(),
                pred == (|i: ChecklistItem| i.critical && !i.completed),
                v@.map_values(|i: &ChecklistItem| *i) == self.items@.take(k as int).filter(pred),
            decreases self.items.len() - k,
        {
            proof {
                reveal(Seq::filter);
                assert(self.items@.take(k + 1).drop_last() =~= self.items@.take(k as int));
                assert(self.items@.take(k + 1).last() == self.items@[k as int]);
            }
            let ghost before = v@;
            if self.items[k].critical && !self.items[k].completed {
                v.push(&self.items[k]);
                assert(v@.map_values(|i: &ChecklistItem| *i) =~= before.map_values(
                    |i: &ChecklistItem| *i,
                ).push(self.items@[k as int]));
            }
            k += 1;
        }
        assert(self.items@.take(self.items.len() as int) =~= self.items@);
        v
    }

    /// How many tasks are completed.
    pub fn completed_count(&self) -> (n: usize)
        ensures
            n == self.items@.filter(|i: ChecklistItem| i.completed).len(),
    {
        let ghost pred = |i: ChecklistItem| i.completed;
        let mut n: usize = 0;
        let mut k: usize = 0;
        while k < self.items.len()
            invariant
                k <= self.items.len(),
                n <= k,
                pred == (|i: ChecklistItem| i.completed),
                n == self.items@.take(k as int).filter(pred).len(),
            decreases self.items.len() - k,
        {
            proof {
                reveal(Seq::filter);
                assert(self.items@.take(k + 1).drop_last() =~= self.items@.take(k as int));
                assert(self.items@.take(k + 1).last() == self.items@[k as int]);
            }
            if self.items[k].completed {
                n += 1;
            }
            k += 1;
        }
        assert(self.items@.take(self.items.len() as int) =~= self.items@);
        n
    }

    /// The checklist for a Bevy game: code, assets, platforms, performance,
    /// polish and distribution tasks.
    pub fn default_bevy() -> (c: Self)
        ensures
            items_view(c.items@) == bevy_checklist(),
    {
        let mut c = Self::new();
        assert(items_view(c.items@) =~= Seq::empty());
        c.add("Code", "All tests passing (cargo test)", true);
        c.add("Code", "No compiler warnings (cargo build 2>&1)", false);
        c.add("Code", "Clippy clean (cargo clippy)", false);
        c.add("Code", "Code formatted (cargo fmt --check)", false);
        c.add("Assets", "All assets load correctly", true);
        c.add("Assets", "Audio files present and playable", true);
        c.add("Assets", "No placeholder/debug assets remain", false);
        c.add("Platforms", "Builds for Windows", true);
        c.add("Platforms", "Builds for Linux", true);
        c.add("Platforms", "Builds for Web (wasm)", false);
        c.add("Performance", "Frame rate stable at 60 FPS", true);
        c.add("Performance", "No memory leaks in long sessions", true);
        c.add("Performance", "Binary size acceptable", false);
        c.add("Polish", "Game saves and loads correctly", true);
        c.add("Polish", "No crash on common edge cases", true);
        c.add("Polish", "Credits/about screen present", false);
        c.add("Distribution", "Version number bumped", true);
        c.add("Distribution", "Changelog updated", false);
        c.add("Distribution", "README updated", false);
        assert(items_view(c.items@) =~= bevy_checklist());
        c
    }
}

/// The tasks of the Bevy checklist: category, description, completed,
/// critical.
pub open spec fn bevy_checklist() -> Seq<(Seq<char>, Seq<char>, bool, bool)> {
    seq![
        ("Code"@, "All tests passing (cargo test)"@, false, true),
        ("Code"@, "No compiler warnings (cargo build 2>&1)"@, false, false),
        ("Code"@, "Clippy clean (cargo clippy)"@, false, false),
        ("Code"@, "Code formatted (cargo fmt --check)"@, false, false),
        ("Assets"@, "All assets load correctly"@, false, true),
        ("Assets"@, "Audio files present and playable"@, false, true),
        ("Assets"@, "No placeholder/debug assets remain"@, false, false),
        ("Platforms"@, "Builds for Windows"@, false, true),
        ("Platforms"@, "Builds for Linux"@, false, true),
        ("Platforms"@, "Builds for Web (wasm)"@, false, false),
        ("Performance"@, "Frame rate stable at 60 FPS"@, false, true),
        ("Performance"@, "No memory leaks in long sessions"@, false, true),
        ("Performance"@, "Binary size acceptable"@, false, false),
        ("Polish"@, "Game saves and loads correctly"@, false, true),
        ("Polish"@, "No crash on common edge cases"@, false, true),
        ("Polish"@, "Credits/about screen present"@, false, false),
        ("Distribution"@, "Version number bumped"@, false, true),
        ("Distribution"@, "Changelog updated"@, false, false),
        ("Distribution"@, "README updated"@, false, false),
    ]
}

impl Default for ReleaseChecklist {
    fn default() -> (c: Self)
        ensures
            c.items@.len() == 0,
    {
        Self::new()
    }
}

} // verus!

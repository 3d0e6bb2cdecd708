//! Semantic versions: parsing, printing, ordering, classification of a
//! change between two versions, and version ranges.
use vstd::prelude::*;
use vstd::std_specs::cmp::PartialOrdSpecImpl;
use core::cmp::Ordering;
use crate::text::{
    chars_of, is_char, lead_char_len, nat_digits, owned, parse_int, parse_unsigned, push_chars,
    push_str, push_u64, slice_chars, split, split_chars, trim, trim_chars, trim_start_by, decimal,
    lemma_parse_decimal, lemma_nat_digits_shape, lemma_split_concat, lemma_split_no_sep,
    lemma_lead_by, lemma_lead_by_zero, lemma_trail_by_zero, is_ws, ws, trim_end_by, is_digit,
};

verus! {

/// Semantic version: MAJOR.MINOR.PATCH
#[derive(Clone, Copy, Debug, PartialEq, Eq, Structural, Ord)]
pub struct SemVer {
    pub major: u32,
    pub minor: u32,
    pub patch: u32,
}

/// The version order: by major, then minor, then patch.
pub open spec fn version_lt(a: SemVer, b: SemVer) -> bool {
    ||| a.major < b.major
    ||| a.major == b.major && a.minor < b.minor
    ||| a.major == b.major && a.minor == b.minor && a.patch < b.patch
}

/// What `SemVer::to_string` prints.
pub open spec fn version_text(v: SemVer) -> Seq<char> {
    nat_digits(v.major as nat) + seq!['.'] + nat_digits(v.minor as nat) + seq!['.']
        + nat_digits(v.patch as nat)
}

/// The version text `SemVer::parse` looks at: trimmed, without leading `v`s.
pub open spec fn version_body(s: Seq<char>) -> Seq<char> {
    trim_start_by(trim(s), is_char('v'))
}

/// Parses one component, prefixing an error with `label`.
pub open spec fn parse_component(part: Seq<char>, label: Seq<char>) -> Result<u32, Seq<char>> {
    match parse_int(part, 0, u32::MAX as int) {
        Ok(n) => Ok(n as u32),
        Err(e) => Err(label + e.message()),
    }
}

/// What `SemVer::parse` returns for the text `s`.
pub open spec fn semver_parse(s: Seq<char>) -> Result<SemVer, Seq<char>> {
    let body = version_body(s);
    let parts = split(body, '.');
    if parts.len() != 3 {
        Err("Expected MAJOR.MINOR.PATCH, got '"@ + body + "'"@)
    } else {
        match parse_component(parts[0], "Invalid major: "@) {
            Err(e) => Err(e),
            Ok(major) => match parse_component(parts[1], "Invalid minor: "@) {
                Err(e) => Err(e),
                Ok(minor) => match parse_component(parts[2], "Invalid patch: "@) {
                    Err(e) => Err(e),
                    Ok(patch) => Ok(SemVer { major, minor, patch }),
                },
            },
        }
    }
}

/// The kind of change from an earlier version to a later one.
#[derive(Clone, Copy, Debug, PartialEq, Eq, Structural)]
pub enum ChangeType {
    Major,
    Minor,
    Patch,
    Unchanged,
    Downgrade,
}

/// The kind of change going from `from` to `to`.
pub open spec fn change_between(to: SemVer, from: SemVer) -> ChangeType {
    if to.major > from.major {
        ChangeType::Major
    } else if to.major == from.major && to.minor > from.minor {
        ChangeType::Minor
    } else if to.major == from.major && to.minor == from.minor && to.patch > from.patch {
        ChangeType::Patch
    } else if to == from {
        ChangeType::Unchanged
    } else {
        ChangeType::Downgrade
    }
}

fn parse_component_exec(part: &Vec<char>, label: &str) -> (r: Result<u32, String>)
    ensures
        match r {
            Ok(n) => parse_component(part@, label@) == Ok::<u32, Seq<char>>(n),
            Err(e) => parse_component(part@, label@) == Err::<u32, Seq<char>>(e@),
        },
{
    match parse_unsigned(part, 4294967295u64) {
        Ok(n) => Ok(n as u32),
        Err(k) => {
            let mut msg = owned(label);
            let m = k.to_message();
            push_str(&mut msg, m.as_str());
            Err(msg)
        },
    }
}

impl SemVer {
    pub fn new(major: u32, minor: u32, patch: u32) -> (r: Self)
        ensures
            r == (SemVer { major, minor, patch }),
    {
        Self { major, minor, patch }
    }

    /// Parses `MAJOR.MINOR.PATCH`, ignoring surrounding whitespace and any
    /// leading `v`.
    pub fn parse(s: &str) -> (r: Result<Self, String>)
        ensures
            match r {
                Ok(v) => semver_parse(s@) == Ok::<SemVer, Seq<char>>(v),
                Err(e) => semver_parse(s@) == Err::<SemVer, Seq<char>>(e@),
            },
    {
        let all = chars_of(s);
        let trimmed = trim_chars(&all);
        let vs = lead_char_len(&trimmed, 'v');
        let body = slice_chars(&trimmed, vs, trimmed.len());
        assert(body@ == version_body(s@));
        let parts = split_chars(&body, '.');
        if parts.len() != 3 {
            let mut msg = owned("Expected MAJOR.MINOR.PATCH, got '");
            push_chars(&mut msg, &body);
            push_str(&mut msg, "'");
            return Err(msg);
        }
        assert(parts@[0]@ == split(body@, '.')[0]);
        assert(parts@[1]@ == split(body@, '.')[1]);
        assert(parts@[2]@ == split(body@, '.')[2]);
        let major = match parse_component_exec(&parts[0], "Invalid major: ") {
            Ok(n) => n,
            Err(e) => return Err(e),
        };
        let minor = match parse_component_exec(&parts[1], "Invalid minor: ") {
            Ok(n) => n,
            Err(e) => return Err(e),
        };
        let patch = match parse_component_exec(&parts[2], "Invalid patch: ") {
            Ok(n) => n,
            Err(e) => return Err(e),
        };
        Ok(Self { major, minor, patch })
    }

    /// `MAJOR.MINOR.PATCH` in decimal.
    pub fn to_string(&self) -> (s: String)
        ensures
            s@ == version_text(*self),
    {
        proof {
            reveal_strlit(".");
        }
        let mut s = String::new();
        push_u64(&mut s, self.major as u64);
        push_str(&mut s, ".");
        push_u64(&mut s, self.minor as u64);
        push_str(&mut s, ".");
        push_u64(&mut s, self.patch as u64);
        assert(s@ =~= version_text(*self));
        s
    }

    /// What kind of change going from `from` to `self` is.
    pub fn change_type(&self, from: &SemVer) -> (c: ChangeType)
        ensures
            c == change_between(*self, *from),
    {
        if self.major > from.major {
            ChangeType::Major
        } else if self.major == from.major && self.minor > from.minor {
            ChangeType::Minor
        } else if self.major == from.major && self.minor == from.minor && self.patch > from.patch {
            ChangeType::Patch
        } else if self.major == from.major && self.minor == from.minor && self.patch
            == from.patch {
            ChangeType::Unchanged
        } else {
            ChangeType::Downgrade
        }
    }

    /// Compatible versions share the major version.
    pub fn is_compatible_with(&self, other: &SemVer) -> (r: bool)
        ensures
            r == (self.major == other.major),
    {
        self.major == other.major
    }

    /// Whether `self` is the same version as `other` or a later one.
    pub fn at_least(&self, other: &SemVer) -> (r: bool)
        ensures
            r == !version_lt(*self, *other),
    {
        if self.major > other.major {
            true
        } else if self.major < other.major {
            false
        } else if self.minor > other.minor {
            true
        } else if self.minor < other.minor {
            false
        } else {
            self.patch >= other.patch
        }
    }
}

/// The order of two versions, by major, then minor, then patch.
pub open spec fn version_order(a: SemVer, b: SemVer) -> Ordering {
    if version_lt(a, b) {
        Ordering::Less
    } else if a == b {
        Ordering::Equal
    } else {
        Ordering::Greater
    }
}

impl PartialOrd for SemVer {
    fn partial_cmp(&self, other: &Self) -> (r: Option<Ordering>) {
        if self.major < other.major || (self.major == other.major && self.minor < other.minor)
            || (self.major == other.major && self.minor == other.minor && self.patch
            < other.patch) {
            Some(Ordering::Less)
        } else if self.major == other.major && self.minor == other.minor && self.patch
            == other.patch {
            Some(Ordering::Equal)
        } else {
            Some(Ordering::Greater)
        }
    }
}

impl PartialOrdSpecImpl for SemVer {
    open spec fn obeys_partial_cmp_spec() -> bool {
        true
    }

    open spec fn partial_cmp_spec(&self, other: &Self) -> Option<Ordering> {
        Some(version_order(*self, *other))
    }
}

impl ChangeType {
    /// Only a major change calls for a migration.
    pub fn requires_migration(&self) -> (r: bool)
        ensures
            r == (*self == ChangeType::Major),
    {
        match self {
            ChangeType::Major => true,
            _ => false,
        }
    }

    /// The text that describes the change.
    pub open spec fn description_text(self) -> Seq<char> {
        match self {
            ChangeType::Major => "Breaking change — migration required"@,
            ChangeType::Minor => "New feature — backwards compatible"@,
            ChangeType::Patch => "Bug fix — backwards compatible"@,
            ChangeType::Unchanged => "No change"@,
            ChangeType::Downgrade => "Version downgraded (unusual)"@,
        }
    }

    pub fn description(&self) -> (s: &'static str)
        ensures
            s@ == self.description_text(),
    {
        match self {
            ChangeType::Major => "Breaking change — migration required",
            ChangeType::Minor => "New feature — backwards compatible",
            ChangeType::Patch => "Bug fix — backwards compatible",
            ChangeType::Unchanged => "No change",
            ChangeType::Downgrade => "Version downgraded (unusual)",
        }
    }
}

/// Version requirement range: at least `min`, below `max` (or equal to it,
/// see `satisfies`).
#[derive(Clone, Debug)]
pub struct VersionRange {
    pub min: Option<SemVer>,
    pub max: Option<SemVer>,
}

/// Whether `v` lies in the range: not below `min`, and not above `max`.
pub open spec fn in_range(r: VersionRange, v: SemVer) -> bool {
    &&& (r.min matches Some(lo) ==> !version_lt(v, lo))
    &&& (r.max matches Some(hi) ==> (version_lt(v, hi) || v == hi))
}

impl VersionRange {
    /// Whether `version` is at least `min` and at most `max`.
    pub fn satisfies(&self, version: &SemVer) -> (r: bool)
        ensures
            r == in_range(*self, *version),
    {
        if let Some(min) = &self.min {
            if !version.at_least(min) {
                return false;
            }
        }
        if let Some(max) = &self.max {
            if version.at_least(max) && !(version.major == max.major && version.minor
                == max.minor && version.patch == max.patch) {
                return false;
            }
        }
        true
    }
}

/// One step of a migration guide between two versions.
#[derive(Clone, Debug)]
pub struct MigrationStep {
    pub from_version: SemVer,
    pub to_version: SemVer,
    pub description: String,
    pub code_before: String,
    pub code_after: String,
}

/// Printing a version and parsing the text back gives the same version.
pub proof fn lemma_version_text_parses(v: SemVer)
    ensures
        semver_parse(version_text(v)) == Ok::<SemVer, Seq<char>>(v),
{
    let a = nat_digits(v.major as nat);
    let b = nat_digits(v.minor as nat);
    let c = nat_digits(v.patch as nat);
    lemma_nat_digits_shape(v.major as nat);
    lemma_nat_digits_shape(v.minor as nat);
    lemma_nat_digits_shape(v.patch as nat);
    let t = version_text(v);
    assert(t =~= a + seq!['.'] + (b + seq!['.'] + c));
    // the text has no whitespace at either end and does not start with 'v'
    assert(t[0] == a[0]);
    assert(t.last() == c.last());
    lemma_lead_by_zero(t, ws());
    assert(trim_start_by(t, ws()) =~= t);
    lemma_trail_by_zero(t, ws());
    assert(trim_end_by(t, ws()) =~= t);
    assert(trim(t) == t);
    lemma_lead_by_zero(t, is_char('v'));
    assert(version_body(t) =~= t);
    // the three components
    assert forall|i: int| 0 <= i < a.len() implies a[i] != '.' by {
        assert(is_digit(a[i]));
    }
    assert forall|i: int| 0 <= i < b.len() implies b[i] != '.' by {
        assert(is_digit(b[i]));
    }
    assert forall|i: int| 0 <= i < c.len() implies c[i] != '.' by {
        assert(is_digit(c[i]));
    }
    lemma_split_no_sep(a, '.');
    lemma_split_no_sep(b, '.');
    lemma_split_no_sep(c, '.');
    lemma_split_concat(b, c, '.');
    lemma_split_concat(a, b + seq!['.'] + c, '.');
    assert(split(t, '.') =~= seq![a, b, c]);
    lemma_parse_decimal(v.major as int, 0, u32::MAX as int);
    lemma_parse_decimal(v.minor as int, 0, u32::MAX as int);
    lemma_parse_decimal(v.patch as int, 0, u32::MAX as int);
    assert(decimal(v.major as int) == a);
    assert(decimal(v.minor as int) == b);
    assert(decimal(v.patch as int) == c);
}

/// What a change is called follows the order of versions: a downgrade exactly
/// when the new version is below the old one, unchanged exactly when they are
/// equal, a major change exactly when the major number grows, and a minor or
/// patch change only within the same major (and, for a patch, minor) number.
pub proof fn lemma_change_kinds(to: SemVer, from: SemVer)
    ensures
        change_between(to, from) == ChangeType::Downgrade <==> version_lt(to, from),
        change_between(to, from) == ChangeType::Unchanged <==> to == from,
        change_between(to, from) == ChangeType::Major <==> to.major > from.major,
        change_between(to, from) == ChangeType::Minor <==> (to.major == from.major && to.minor
            > from.minor),
        change_between(to, from) == ChangeType::Patch <==> (to.major == from.major && to.minor
            == from.minor && to.patch > from.patch),
{
}

/// A printed version with a leading `v` parses to the same version.
pub proof fn lemma_prefixed_version_text_parses(v: SemVer)
    ensures
        semver_parse(seq!['v'] + version_text(v)) == Ok::<SemVer, Seq<char>>(v),
{
    lemma_version_text_parses(v);
    let a = nat_digits(v.major as nat);
    let c = nat_digits(v.patch as nat);
    lemma_nat_digits_shape(v.major as nat);
    lemma_nat_digits_shape(v.patch as nat);
    let t = version_text(v);
    let u = seq!['v'] + t;
    assert(t[0] == a[0]);
    assert(t.last() == c.last());
    assert(u[0] == 'v');
    assert(u[1] == t[0]);
    assert(u.last() == t.last());
    lemma_lead_by_zero(u, ws());
    assert(trim_start_by(u, ws()) =~= u);
    lemma_trail_by_zero(u, ws());
    assert(trim_end_by(u, ws()) =~= u);
    assert(trim(u) == u);
    assert(is_digit(t[0]));
    lemma_lead_by(u, is_char('v'), 1);
    assert(version_body(u) =~= t);
    lemma_lead_by_zero(t, ws());
    assert(trim_start_by(t, ws()) =~= t);
    lemma_trail_by_zero(t, ws());
    assert(trim_end_by(t, ws()) =~= t);
    lemma_lead_by_zero(t, is_char('v'));
    assert(version_body(t) =~= t);
}

} // verus!

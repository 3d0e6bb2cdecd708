//! Save data: a RON-like text format written line by line, and a reader that
//! takes the player's name and numbers back from such a text.
use vstd::prelude::*;
use crate::text::{
    decimal, nat_digits, push_char, push_i64, push_str, push_u64, owned, str_eq, split,
    split_chars, chars_of, trim, trim_chars, starts_with, starts_with_chars, find_first,
    find_last, find_char, rfind_char, slice_chars, trim_end_by, trim_start_by, is_char, ws,
    is_ws, trail_char_len, parse_int, parse_signed, is_digit, lemma_split_concat,
    lemma_split_no_sep, lemma_lead_by, lemma_trail_by, lemma_trail_by_zero,
    lemma_nat_digits_shape, lemma_parse_decimal, lemma_find_first, lemma_find_last,
};

verus! {

broadcast use vstd::string::group_string_axioms;

// ---------------------------------------------------------------------------
// Settings
// ---------------------------------------------------------------------------

/// Each key occurs at most once.
pub open spec fn keys_unique(s: Seq<(Seq<char>, Seq<char>)>) -> bool {
    forall|i: int, j: int|
        0 <= i < s.len() && 0 <= j < s.len() && i != j ==> (#[trigger] s[i]).0 != (#[trigger] s[j]).0
}

/// `i` is the first position whose key is `k`.
pub open spec fn first_with_key(s: Seq<(Seq<char>, Seq<char>)>, k: Seq<char>, i: int) -> bool {
    0 <= i < s.len() && s[i].0 == k && forall|j: int| 0 <= j < i ==> (#[trigger] s[j]).0 != k
}

/// The entries after setting `k` to `v`: the value at the first entry with key
/// `k` is replaced in place; a new key goes last.
pub open spec fn set_entry(s: Seq<(Seq<char>, Seq<char>)>, k: Seq<char>, v: Seq<char>) -> Seq<
    (Seq<char>, Seq<char>),
> {
    if exists|i: int| #[trigger] first_with_key(s, k, i) {
        s.update(choose|i: int| #[trigger] first_with_key(s, k, i), (k, v))
    } else {
        s.push((k, v))
    }
}

/// Named string settings, each name once, listed in the order they were first set.
#[derive(Clone, Debug)]
pub struct Settings {
    entries: Vec<(String, String)>,
}

impl View for Settings {
    type V = Seq<(Seq<char>, Seq<char>)>;

    closed spec fn view(&self) -> Seq<(Seq<char>, Seq<char>)> {
        self.entries@.map_values(|e: (String, String)| (e.0@, e.1@))
    }
}

impl Settings {
    pub fn new() -> (s: Self)
        ensures
            s@ == Seq::<(Seq<char>, Seq<char>)>::empty(),
    {
        let s = Settings { entries: Vec::new() };
        assert(s@ =~= Seq::<(Seq<char>, Seq<char>)>::empty());
        s
    }

    /// Number of settings.
    pub fn len(&self) -> (n: usize)
        ensures
            n == self@.len(),
    {
        self.entries.len()
    }

    fn find(&self, key: &str) -> (r: Option<usize>)
        ensures
            match r {
                Some(i) => first_with_key(self@, key@, i as int),
                None => forall|i: int| 0 <= i < self@.len() ==> (#[trigger] self@[i]).0 != key@,
            },
    {
        let mut i: usize = 0;
        while i < self.entries.len()
            invariant
                i <= self.entries.len(),
                forall|j: int| 0 <= j < i ==> (#[trigger] self@[j]).0 != key@,
            decreases self.entries.len() - i,
        {
            if str_eq(self.entries[i].0.as_str(), key) {
                return Some(i);
            }
            i += 1;
        }
        None
    }

    /// Sets `key` to `value`; returns the value it replaced, if any.
    pub fn insert(&mut self, key: String, value: String) -> (prev: Option<String>)
        ensures
            final(self)@ == set_entry(old(self)@, key@, value@),
            keys_unique(old(self)@) ==> keys_unique(final(self)@),
            match prev {
                Some(p) => exists|i: int|
                    0 <= i < old(self)@.len() && (#[trigger] old(self)@[i]).0 == key@ && old(
                        self,
                    )@[i].1 == p@,
                None => forall|i: int|
                    0 <= i < old(self)@.len() ==> (#[trigger] old(self)@[i]).0 != key@,
            },
    {
        let ghost s0 = self@;
        match self.find(key.as_str()) {
            Some(i) => {
                let ghost k = key@;
                let ghost v = value@;
                let mut entries: Vec<(String, String)> = Vec::new();
                std::mem::swap(&mut entries, &mut self.entries);
                let mut old_entry = (key, value);
                std::mem::swap(&mut old_entry, &mut entries[i]);
                proof {
                    let mapped = entries@.map_values(|e: (String, String)| (e.0@, e.1@));
                    assert(mapped =~= s0.update(i as int, (k, v)));
                    assert(s0[i as int].0 == k);
                    assert(keys_unique(s0) ==> keys_unique(mapped)) by {
                        if keys_unique(s0) {
                            assert forall|a: int, b: int|
                                0 <= a < mapped.len() && 0 <= b < mapped.len() && a != b implies (
                                #[trigger] mapped[a]).0 != (#[trigger] mapped[b]).0 by {
                                assert(mapped[a].0 == s0[a].0 && mapped[b].0 == s0[b].0);
                            }
                        }
                    }
                    assert(first_with_key(s0, k, i as int));
                    let j = choose|j: int| #[trigger] first_with_key(s0, k, j);
                    if j < i {
                        assert(s0[j].0 != k);
                    }
                    if i < j {
                        assert(s0[i as int].0 != k);
                    }
                    assert(j == i);
                }
                self.entries = entries;
                Some(old_entry.1)
            },
            None => {
                let ghost k = key@;
                let ghost v = value@;
                let mut entries: Vec<(String, String)> = Vec::new();
                std::mem::swap(&mut entries, &mut self.entries);
                entries.push((key, value));
                proof {
                    let mapped = entries@.map_values(|e: (String, String)| (e.0@, e.1@));
                    assert(mapped =~= s0.push((k, v)));
                    assert(!exists|j: int| #[trigger] first_with_key(s0, k, j));
                    assert forall|a: int, b: int|
                        keys_unique(s0) && 0 <= a < mapped.len() && 0 <= b < mapped.len() && a != b implies (
                        #[trigger] mapped[a]).0 != (#[trigger] mapped[b]).0 by {
                        if a < s0.len() {
                            assert(mapped[a] == s0[a]);
                        }
                        if b < s0.len() {
                            assert(mapped[b] == s0[b]);
                        }
                    }
                    assert(keys_unique(s0) ==> keys_unique(mapped));
                }
                self.entries = entries;
                None
            },
        }
    }

    /// The value set for `key`, if any.
    pub fn get(&self, key: &str) -> (r: Option<&String>)
        ensures
            match r {
                Some(v) => exists|i: int|
                    0 <= i < self@.len() && (#[trigger] self@[i]).0 == key@ && self@[i].1 == v@,
                None => forall|i: int| 0 <= i < self@.len() ==> (#[trigger] self@[i]).0 != key@,
            },
    {
        match self.find(key) {
            Some(i) => Some(&self.entries[i].1),
            None => None,
        }
    }

    /// Whether `key` is set.
    pub fn contains_key(&self, key: &str) -> (r: bool)
        ensures
            r == exists|i: int| 0 <= i < self@.len() && (#[trigger] self@[i]).0 == key@,
    {
        self.find(key).is_some()
    }
}

// ---------------------------------------------------------------------------
// Save data and its text
// ---------------------------------------------------------------------------

/// What a game saves.
#[derive(Clone, Debug)]
pub struct SaveData {
    pub player_name: String,
    pub level: u32,
    pub score: u64,
    pub health: i32,
    pub max_health: i32,
    pub inventory: Vec<String>,
    pub settings: Settings,
}

/// The settings of a new game, in order.
pub open spec fn default_settings() -> Seq<(Seq<char>, Seq<char>)> {
    seq![("music_volume"@, "0.8"@), ("sfx_volume"@, "1.0"@), ("fullscreen"@, "false"@)]
}

impl Default for SaveData {
    fn default() -> (d: Self)
        ensures
            d.player_name@ == "Player"@,
            d.level == 1,
            d.score == 0,
            d.health == 100,
            d.max_health == 100,
            d.inventory@.len() == 0,
            d.settings@ == default_settings(),
    {
        let mut settings = Settings::new();
        settings.insert(owned("music_volume"), owned("0.8"));
        settings.insert(owned("sfx_volume"), owned("1.0"));
        settings.insert(owned("fullscreen"), owned("false"));
        proof {
            reveal_strlit("music_volume");
            reveal_strlit("sfx_volume");
            reveal_strlit("fullscreen");
            assert("music_volume"@.len() != "sfx_volume"@.len());
            assert("fullscreen"@[0] != "sfx_volume"@[0]);
            assert("fullscreen"@ != "sfx_volume"@);
            assert("fullscreen"@ != "music_volume"@);
            assert(settings@ =~= default_settings());
        }
        SaveData {
            player_name: owned("Player"),
            level: 1,
            score: 0,
            health: 100,
            max_health: 100,
            inventory: Vec::new(),
            settings,
        }
    }
}

/// The lines joined, each followed by a newline.
pub open spec fn join_lines(ls: Seq<Seq<char>>) -> Seq<char>
    decreases ls.len(),
{
    if ls.len() == 0 {
        Seq::empty()
    } else {
        join_lines(ls.drop_last()) + ls.last() + seq!['\n']
    }
}

/// The line of one inventory item.
pub open spec fn item_line(item: Seq<char>) -> Seq<char> {
    "        \""@ + item + "\","@
}

/// The line of one setting.
pub open spec fn setting_line(k: Seq<char>, v: Seq<char>) -> Seq<char> {
    "        \""@ + k + "\": \""@ + v + "\","@
}

/// The line of one numeric field, after its indented label.
pub open spec fn number_line(label: Seq<char>, n: int) -> Seq<char> {
    label + decimal(n) + ","@
}

/// The lines of the settings, in order.
pub open spec fn setting_lines(s: Seq<(Seq<char>, Seq<char>)>) -> Seq<Seq<char>> {
    s.map_values(|e: (Seq<char>, Seq<char>)| setting_line(e.0, e.1))
}

/// The views of a sequence of strings.
pub open spec fn string_views(v: Seq<String>) -> Seq<Seq<char>> {
    v.map_values(|s: String| s@)
}

/// The lines of the text `to_ron` writes.
pub open spec fn ron_lines(d: SaveData) -> Seq<Seq<char>> {
    seq![
        "SaveData("@,
        "    player_name: \""@ + d.player_name@ + "\","@,
        number_line("    level: "@, d.level as int),
        number_line("    score: "@, d.score as int),
        number_line("    health: "@, d.health as int),
        number_line("    max_health: "@, d.max_health as int),
        "    inventory: ["@,
    ] + string_views(d.inventory@).map_values(|item: Seq<char>| item_line(item)) + seq![
        "    ],"@,
        "    settings: {"@,
    ] + setting_lines(d.settings@) + seq![
        "    },"@,
        ")"@,
    ]
}

/// Ends the current line of `out`, which holds the lines `ls` and then `line`.
fn end_line(out: &mut String, Ghost(ls): Ghost<Seq<Seq<char>>>, Ghost(line): Ghost<Seq<char>>)
    requires
        old(out)@ == join_lines(ls) + line,
    ensures
        final(out)@ == join_lines(ls.push(line)),
{
    push_char(out, '\n');
    assert(ls.push(line).drop_last() =~= ls);
}

impl Settings {
    /// Appends the line of each setting to `out`, which holds the lines `ls`.
    fn write_lines(&self, out: &mut String, Ghost(ls): Ghost<Seq<Seq<char>>>)
        requires
            old(out)@ == join_lines(ls),
        ensures
            final(out)@ == join_lines(ls + setting_lines(self@)),
    {
        let mut i: usize = 0;
        while i < self.entries.len()
            invariant
                i <= self.entries.len(),
                out@ == join_lines(ls + setting_lines(self@.take(i as int))),
            decreases self.entries.len() - i,
        {
            let ghost before = ls + setting_lines(self@.take(i as int));
            let ghost line = setting_line(self@[i as int].0, self@[i as int].1);
            push_str(out, "        \"");
            push_str(out, self.entries[i].0.as_str());
            push_str(out, "\": \"");
            push_str(out, self.entries[i].1.as_str());
            push_str(out, "\",");
            assert(out@ =~= join_lines(before) + line);
            end_line(out, Ghost(before), Ghost(line));
            assert(self@.take(i + 1) =~= self@.take(i as int).push(self@[i as int]));
            assert(setting_lines(self@.take(i + 1)) =~= setting_lines(self@.take(i as int)).push(
                line,
            ));
            assert(before.push(line) =~= ls + setting_lines(self@.take(i + 1)));
            i += 1;
        }
        assert(self@.take(self.entries.len() as int) =~= self@);
    }
}

impl SaveData {
    /// The save data as RON-like text, one field per line; the inventory and the
    /// settings are listed in their order.
    pub fn to_ron(&self) -> (r: String)
        ensures
            r@ == join_lines(ron_lines(*self)),
    {
        let mut out = String::new();
        let ghost mut ls: Seq<Seq<char>> = Seq::empty();
        push_str(&mut out, "SaveData(");
        end_line(&mut out, Ghost(ls), Ghost("SaveData("@));
        proof {
            ls = ls.push("SaveData("@);
        }
        let ghost l1 = "    player_name: \""@ + self.player_name@ + "\","@;
        push_str(&mut out, "    player_name: \"");
        push_str(&mut out, self.player_name.as_str());
        push_str(&mut out, "\",");
        assert(out@ =~= join_lines(ls) + l1);
        end_line(&mut out, Ghost(ls), Ghost(l1));
        proof {
            ls = ls.push(l1);
        }
        let ghost l2 = number_line("    level: "@, self.level as int);
        push_str(&mut out, "    level: ");
        push_u64(&mut out, self.level as u64);
        assert(decimal(self.level as int) == nat_digits(self.level as nat));
        push_str(&mut out, ",");
        assert(out@ =~= join_lines(ls) + l2);
        end_line(&mut out, Ghost(ls), Ghost(l2));
        proof {
            ls = ls.push(l2);
        }
        let ghost l3 = number_line("    score: "@, self.score as int);
        push_str(&mut out, "    score: ");
        push_u64(&mut out, self.score);
        assert(decimal(self.score as int) == nat_digits(self.score as nat));
        push_str(&mut out, ",");
        assert(out@ =~= join_lines(ls) + l3);
        end_line(&mut out, Ghost(ls), Ghost(l3));
        proof {
            ls = ls.push(l3);
        }
        let ghost l4 = number_line("    health: "@, self.health as int);
        push_str(&mut out, "    health: ");
        push_i64(&mut out, self.health as i64);
        push_str(&mut out, ",");
        assert(out@ =~= join_lines(ls) + l4);
        end_line(&mut out, Ghost(ls), Ghost(l4));
        proof {
            ls = ls.push(l4);
        }
        let ghost l5 = number_line("    max_health: "@, self.max_health as int);
        push_str(&mut out, "    max_health: ");
        push_i64(&mut out, self.max_health as i64);
        push_str(&mut out, ",");
        assert(out@ =~= join_lines(ls) + l5);
        end_line(&mut out, Ghost(ls), Ghost(l5));
        proof {
            ls = ls.push(l5);
        }
        push_str(&mut out, "    inventory: [");
        end_line(&mut out, Ghost(ls), Ghost("    inventory: ["@));
        proof {
            ls = ls.push("    inventory: ["@);
        }
        let ghost items = string_views(self.inventory@).map_values(|item: Seq<char>| item_line(item));
        let mut i: usize = 0;
        while i < self.inventory.len()
            invariant
                i <= self.inventory.len(),
                items == string_views(self.inventory@).map_values(|item: Seq<char>| item_line(item)),
                out@ == join_lines(ls + items.take(i as int)),
            decreases self.inventory.len() - i,
        {
            let ghost before = ls + items.take(i as int);
            let ghost line = item_line(self.inventory@[i as int]@);
            push_str(&mut out, "        \"");
            push_str(&mut out, self.inventory[i].as_str());
            push_str(&mut out, "\",");
            assert(out@ =~= join_lines(before) + line);
            end_line(&mut out, Ghost(before), Ghost(line));
            assert(before.push(line) =~= ls + items.take(i + 1));
            i += 1;
        }
        assert(items.take(self.inventory.len() as int) =~= items);
        proof {
            ls = ls + items;
        }
        push_str(&mut out, "    ],");
        end_line(&mut out, Ghost(ls), Ghost("    ],"@));
        proof {
            ls = ls.push("    ],"@);
        }
        push_str(&mut out, "    settings: {");
        end_line(&mut out, Ghost(ls), Ghost("    settings: {"@));
        proof {
            ls = ls.push("    settings: {"@);
        }
        self.settings.write_lines(&mut out, Ghost(ls));
        proof {
            ls = ls + setting_lines(self.settings@);
        }
        push_str(&mut out, "    },");
        end_line(&mut out, Ghost(ls), Ghost("    },"@));
        proof {
            ls = ls.push("    },"@);
        }
        push_str(&mut out, ")");
        end_line(&mut out, Ghost(ls), Ghost(")"@));
        proof {
            ls = ls.push(")"@);
            assert(ls =~= ron_lines(*self));
        }
        out
    }
}

// ---------------------------------------------------------------------------
// Reading save text
// ---------------------------------------------------------------------------

/// The fields that reading a save text sets.
pub struct SaveFields {
    pub player_name: Seq<char>,
    pub level: u32,
    pub score: u64,
    pub health: i32,
    pub max_health: i32,
}

/// The fields of `d` that reading a save text sets.
pub open spec fn fields_of(d: SaveData) -> SaveFields {
    SaveFields {
        player_name: d.player_name@,
        level: d.level,
        score: d.score,
        health: d.health,
        max_health: d.max_health,
    }
}

/// The fields of a new game.
pub open spec fn default_fields() -> SaveFields {
    SaveFields { player_name: "Player"@, level: 1, score: 0, health: 100, max_health: 100 }
}

/// The text between the first and the last double quote of `line`.
pub open spec fn quoted_text(line: Seq<char>) -> Result<Seq<char>, Seq<char>> {
    match find_first(line, '"') {
        None => Err("No opening quote"@),
        Some(a) => match find_last(line, '"') {
            None => Err("No closing quote"@),
            Some(b) => if b <= a + 1 {
                Err("Invalid string"@)
            } else {
                Ok(line.subrange(a + 1, b))
            },
        },
    }
}

/// The `i64` after the only colon of `line`, with surrounding whitespace and
/// trailing commas removed.
pub open spec fn number_after_colon(line: Seq<char>) -> Result<int, Seq<char>> {
    let parts = split(line, ':');
    if parts.len() != 2 {
        Err("Invalid format"@)
    } else {
        match parse_int(trim_end_by(trim(parts[1]), is_char(',')), i64::MIN as int, i64::MAX as int) {
            Ok(n) => Ok(n),
            Err(e) => Err("Parse error: "@ + e.message()),
        }
    }
}

/// The fields after reading one line.
pub open spec fn read_line(f: SaveFields, line: Seq<char>) -> Result<SaveFields, Seq<char>> {
    let t = trim(line);
    if starts_with(t, "player_name:"@) {
        match quoted_text(t) {
            Ok(n) => Ok(SaveFields { player_name: n, ..f }),
            Err(e) => Err(e),
        }
    } else if starts_with(t, "level:"@) {
        match number_after_colon(t) {
            Ok(n) => Ok(SaveFields { level: n as u32, ..f }),
            Err(e) => Err(e),
        }
    } else if starts_with(t, "score:"@) {
        match number_after_colon(t) {
            Ok(n) => Ok(SaveFields { score: n as u64, ..f }),
            Err(e) => Err(e),
        }
    } else if starts_with(t, "health:"@) && !starts_with(t, "max_"@) {
        match number_after_colon(t) {
            Ok(n) => Ok(SaveFields { health: n as i32, ..f }),
            Err(e) => Err(e),
        }
    } else if starts_with(t, "max_health:"@) {
        match number_after_colon(t) {
            Ok(n) => Ok(SaveFields { max_health: n as i32, ..f }),
            Err(e) => Err(e),
        }
    } else {
        Ok(f)
    }
}

/// The fields after reading the lines in order; the first error stops reading.
pub open spec fn read_lines(f: SaveFields, ls: Seq<Seq<char>>) -> Result<SaveFields, Seq<char>>
    decreases ls.len(),
{
    if ls.len() == 0 {
        Ok(f)
    } else {
        match read_lines(f, ls.drop_last()) {
            Ok(g) => read_line(g, ls.last()),
            Err(e) => Err(e),
        }
    }
}

/// Once reading fails, it fails with the same message whatever follows.
proof fn lemma_read_lines_err(f: SaveFields, ls: Seq<Seq<char>>, k: int, e: Seq<char>)
    requires
        0 <= k <= ls.len(),
        read_lines(f, ls.take(k)) == Err::<SaveFields, Seq<char>>(e),
    ensures
        read_lines(f, ls) == Err::<SaveFields, Seq<char>>(e),
    decreases ls.len() - k,
{
    if k < ls.len() {
        assert(ls.take(k + 1).drop_last() =~= ls.take(k));
        lemma_read_lines_err(f, ls, k + 1, e);
    } else {
        assert(ls.take(k) =~= ls);
    }
}

/// The text between the first and the last double quote of `line`.
fn extract_string(line: &Vec<char>) -> (r: Result<String, String>)
    ensures
        match r {
            Ok(s) => quoted_text(line@) == Ok::<Seq<char>, Seq<char>>(s@),
            Err(e) => quoted_text(line@) == Err::<Seq<char>, Seq<char>>(e@),
        },
{
    let start = match find_char(line, '"') {
        Some(a) => a + 1,
        None => {
            return Err(owned("No opening quote"));
        },
    };
    let end = match rfind_char(line, '"') {
        Some(b) => b,
        None => {
            return Err(owned("No closing quote"));
        },
    };
    if end <= start {
        return Err(owned("Invalid string"));
    }
    let v = slice_chars(line, start, end);
    Ok(crate::text::string_of(&v))
}

/// The `i64` after the only colon of `line`.
fn extract_number(line: &Vec<char>) -> (r: Result<i64, String>)
    ensures
        match r {
            Ok(n) => number_after_colon(line@) == Ok::<int, Seq<char>>(n as int),
            Err(e) => number_after_colon(line@) == Err::<int, Seq<char>>(e@),
        },
{
    let parts = split_chars(line, ':');
    if parts.len() != 2 {
        return Err(owned("Invalid format"));
    }
    assert(parts@[1]@ == split(line@, ':')[1]);
    let t = trim_chars(&parts[1]);
    let k = trail_char_len(&t, ',');
    let u = slice_chars(&t, 0, t.len() - k);
    assert(u@ =~= trim_end_by(t@, is_char(',')));
    match parse_signed(&u, i64::MIN, i64::MAX) {
        Ok(n) => Ok(n),
        Err(e) => {
            let mut msg = owned("Parse error: ");
            let m = e.to_message();
            push_str(&mut msg, m.as_str());
            Err(msg)
        },
    }
}

impl SaveData {
    /// Reads a save text line by line, starting from the default save: the
    /// player's name, level, score, health and maximum health are taken from
    /// the lines that start with their labels; the inventory and the settings
    /// keep their defaults. Fails with the message of the first line that has
    /// a label but no readable value.
    pub fn from_ron(ron: &str) -> (r: Result<SaveData, String>)
        ensures
            match r {
                Ok(d) => {
                    &&& read_lines(default_fields(), split(ron@, '\n')) == Ok::<
                        SaveFields,
                        Seq<char>,
                    >(fields_of(d))
                    &&& d.inventory@.len() == 0
                    &&& d.settings@ == default_settings()
                },
                Err(e) => read_lines(default_fields(), split(ron@, '\n')) == Err::<
                    SaveFields,
                    Seq<char>,
                >(e@),
            },
    {
        let mut data = SaveData::default();
        let chars = chars_of(ron);
        let pieces = split_chars(&chars, '\n');
        let ghost ls = split(ron@, '\n');
        let mut i: usize = 0;
        while i < pieces.len()
            invariant
                crate::text::views(pieces@) == ls,
                ls == split(ron@, '\n'),
                i <= pieces.len(),
                read_lines(default_fields(), ls.take(i as int)) == Ok::<SaveFields, Seq<char>>(
                    fields_of(data),
                ),
                data.inventory@.len() == 0,
                data.settings@ == default_settings(),
            decreases pieces.len() - i,
        {
            let ghost f = fields_of(data);
            assert(ls.take(i + 1).drop_last() =~= ls.take(i as int));
            assert(ls.take(i + 1).last() == pieces@[i as int]@);
            let line = trim_chars(&pieces[i]);
            if starts_with_chars(&line, "player_name:") {
                match extract_string(&line) {
                    Ok(n) => {
                        data.player_name = n;
                    },
                    Err(e) => {
                        proof {
                            lemma_read_lines_err(default_fields(), ls, i + 1, e@);
                        }
                        return Err(e);
                    },
                }
            } else if starts_with_chars(&line, "level:") {
                match extract_number(&line) {
                    Ok(n) => {
                        data.level = n as u32;
                    },
                    Err(e) => {
                        proof {
                            lemma_read_lines_err(default_fields(), ls, i + 1, e@);
                        }
                        return Err(e);
                    },
                }
            } else if starts_with_chars(&line, "score:") {
                match extract_number(&line) {
                    Ok(n) => {
                        data.score = n as u64;
                    },
                    Err(e) => {
                        proof {
                            lemma_read_lines_err(default_fields(), ls, i + 1, e@);
                        }
                        return Err(e);
                    },
                }
            } else if starts_with_chars(&line, "health:") && !starts_with_chars(&line, "max_") {
                match extract_number(&line) {
                    Ok(n) => {
                        data.health = n as i32;
                    },
                    Err(e) => {
                        proof {
                            lemma_read_lines_err(default_fields(), ls, i + 1, e@);
                        }
                        return Err(e);
                    },
                }
            } else if starts_with_chars(&line, "max_health:") {
                match extract_number(&line) {
                    Ok(n) => {
                        data.max_health = n as i32;
                    },
                    Err(e) => {
                        proof {
                            lemma_read_lines_err(default_fields(), ls, i + 1, e@);
                        }
                        return Err(e);
                    },
                }
            }
            i += 1;
        }
        assert(ls.take(pieces.len() as int) =~= ls);
        Ok(data)
    }
}

// ---------------------------------------------------------------------------
// Writing then reading gives the fields back
// ---------------------------------------------------------------------------

/// `s` holds no newline.
pub open spec fn one_line(s: Seq<char>) -> bool {
    forall|i: int| 0 <= i < s.len() ==> s[i] != '\n'
}

proof fn lemma_split_join(ls: Seq<Seq<char>>, t: Seq<char>)
    requires
        forall|i: int| 0 <= i < ls.len() ==> one_line(#[trigger] ls[i]),
        one_line(t),
    ensures
        split(join_lines(ls) + t, '\n') == ls.push(t),
    decreases ls.len(),
{
    if ls.len() == 0 {
        assert(join_lines(ls) + t =~= t);
        lemma_split_no_sep(t, '\n');
        assert(ls.push(t) =~= seq![t]);
    } else {
        let init = ls.drop_last();
        assert forall|i: int| 0 <= i < init.len() implies one_line(#[trigger] init[i]) by {
            assert(init[i] == ls[i]);
        }
        assert(one_line(ls[ls.len() - 1]));
        lemma_split_join(init, ls.last());
        assert(join_lines(ls) + t =~= (join_lines(init) + ls.last()) + seq!['\n'] + t);
        lemma_split_concat(join_lines(init) + ls.last(), t, '\n');
        lemma_split_no_sep(t, '\n');
        assert(init.push(ls.last()) + seq![t] =~= ls.push(t));
    }
}

proof fn lemma_read_lines_append(f: SaveFields, a: Seq<Seq<char>>, b: Seq<Seq<char>>)
    ensures
        read_lines(f, a + b) == (match read_lines(f, a) {
            Ok(g) => read_lines(g, b),
            Err(e) => Err(e),
        }),
    decreases b.len(),
{
    if b.len() == 0 {
        assert(a + b =~= a);
    } else {
        assert((a + b).drop_last() =~= a + b.drop_last());
        assert((a + b).last() == b.last());
        lemma_read_lines_append(f, a, b.drop_last());
    }
}

/// Reading `l` leaves every field as it is.
pub open spec fn inert(l: Seq<char>) -> bool {
    let t = trim(l);
    &&& !starts_with(t, "player_name:"@)
    &&& !starts_with(t, "level:"@)
    &&& !starts_with(t, "score:"@)
    &&& !starts_with(t, "health:"@)
    &&& !starts_with(t, "max_health:"@)
}

proof fn lemma_read_inert(g: SaveFields, ls: Seq<Seq<char>>)
    requires
        forall|i: int| 0 <= i < ls.len() ==> inert(#[trigger] ls[i]),
    ensures
        read_lines(g, ls) == Ok::<SaveFields, Seq<char>>(g),
    decreases ls.len(),
{
    if ls.len() > 0 {
        let init = ls.drop_last();
        assert forall|i: int| 0 <= i < init.len() implies inert(#[trigger] init[i]) by {
            assert(init[i] == ls[i]);
        }
        lemma_read_inert(g, init);
        assert(inert(ls[ls.len() - 1]));
    }
}

/// Trimming a text whose first `k` characters, and no more, are whitespace,
/// and whose last character is not, removes those `k` characters.
proof fn lemma_trim_known(s: Seq<char>, k: int)
    requires
        0 <= k < s.len(),
        forall|j: int| 0 <= j < k ==> is_ws(#[trigger] s[j]),
        !is_ws(s[k]),
        !is_ws(s.last()),
    ensures
        trim(s) == s.skip(k),
{
    lemma_lead_by(s, ws(), k);
    let r = trim_start_by(s, ws());
    assert(r =~= s.skip(k));
    assert(r.last() == s.last());
    lemma_trail_by_zero(r, ws());
    assert(r.take(r.len() as int) =~= r);
}

proof fn lemma_not_prefix(t: Seq<char>, p: Seq<char>, i: int)
    requires
        0 <= i < p.len(),
        i < t.len(),
        t[i] != p[i],
    ensures
        !starts_with(t, p),
{
    if starts_with(t, p) {
        assert(t.take(p.len() as int)[i] == t[i]);
    }
}

/// The characters of a decimal number: digits, after a `-` when negative.
proof fn lemma_decimal_chars(n: int)
    ensures
        decimal(n).len() >= 1,
        forall|i: int|
            0 <= i < decimal(n).len() ==> is_digit(#[trigger] decimal(n)[i]) || decimal(n)[i]
                == '-',
        is_digit(decimal(n).last()),
        is_digit(decimal(n)[0]) || decimal(n)[0] == '-',
{
    if n < 0 {
        lemma_nat_digits_shape((-n) as nat);
        let ds = nat_digits((-n) as nat);
        assert forall|i: int| 0 <= i < decimal(n).len() implies is_digit(
            #[trigger] decimal(n)[i],
        ) || decimal(n)[i] == '-' by {
            if i > 0 {
                assert(decimal(n)[i] == ds[i - 1]);
            }
        }
        assert(decimal(n).last() == ds[ds.len() - 1]);
    } else {
        lemma_nat_digits_shape(n as nat);
        let ds = nat_digits(n as nat);
        assert(decimal(n).last() == ds[ds.len() - 1]);
    }
}

/// The number after the colon of `key: n,` reads back as `n`.
proof fn lemma_number_value(key: Seq<char>, n: int)
    requires
        forall|i: int| 0 <= i < key.len() ==> key[i] != ':',
        i64::MIN <= n <= i64::MAX,
    ensures
        number_after_colon(key + ": "@ + decimal(n) + ","@) == Ok::<int, Seq<char>>(n),
{
    reveal_strlit(": ");
    reveal_strlit(",");
    let d = decimal(n);
    lemma_decimal_chars(n);
    let rest = seq![' '] + d + seq![','];
    let line = key + ": "@ + d + ","@;
    assert(line =~= key + seq![':'] + rest);
    lemma_split_concat(key, rest, ':');
    lemma_split_no_sep(key, ':');
    assert forall|i: int| 0 <= i < rest.len() implies rest[i] != ':' by {
        if 1 <= i < rest.len() - 1 {
            assert(rest[i] == d[i - 1]);
        }
    }
    lemma_split_no_sep(rest, ':');
    assert(split(line, ':') =~= seq![key, rest]);
    assert(rest[1] == d[0]);
    lemma_trim_known(rest, 1);
    let t = rest.skip(1);
    assert(t =~= d + seq![',']);
    assert(t[t.len() - 2] == d.last());
    lemma_trail_by(t, is_char(','), 1);
    assert(trim_end_by(t, is_char(',')) =~= d);
    lemma_parse_decimal(n, i64::MIN as int, i64::MAX as int);
}

/// The quoted name of a name line reads back as the name.
proof fn lemma_quoted_name(name: Seq<char>)
    requires
        name.len() > 0,
    ensures
        quoted_text("player_name: \""@ + name + "\","@) == Ok::<Seq<char>, Seq<char>>(name),
{
    reveal_strlit("player_name: \"");
    reveal_strlit("\",");
    let t = "player_name: \""@ + name + "\","@;
    assert(t[13] == '"');
    assert forall|j: int| 0 <= j < 13 implies t[j] != '"' by {}
    lemma_find_first(t, '"', 13);
    assert(t[t.len() - 1] == ',');
    assert(t[t.len() - 2] == '"');
    lemma_find_last(t, '"', 1);
    assert(t.subrange(14, t.len() - 2) =~= name);
}

proof fn lemma_prefix_heads()
    ensures
        "player_name:"@.len() == 12 && "player_name:"@[0] == 'p',
        "level:"@.len() == 6 && "level:"@[0] == 'l',
        "score:"@.len() == 6 && "score:"@[0] == 's' && "score:"@[1] == 'c',
        "health:"@.len() == 7 && "health:"@[0] == 'h',
        "max_health:"@.len() == 11 && "max_health:"@[0] == 'm',
        "max_"@.len() == 4 && "max_"@[0] == 'm',
{
    reveal_strlit("player_name:");
    reveal_strlit("level:");
    reveal_strlit("score:");
    reveal_strlit("health:");
    reveal_strlit("max_health:");
    reveal_strlit("max_");
}

/// A line whose first non-blank character starts none of the labels leaves
/// every field as it is.
proof fn lemma_inert_line(l: Seq<char>, k: int)
    requires
        0 <= k < l.len(),
        forall|j: int| 0 <= j < k ==> is_ws(#[trigger] l[j]),
        !is_ws(l[k]),
        !is_ws(l.last()),
        l[k] != 'p' && l[k] != 'l' && l[k] != 'h' && l[k] != 'm',
        l[k] != 's' || (k + 1 < l.len() && l[k + 1] != 'c'),
    ensures
        inert(l),
{
    lemma_prefix_heads();
    lemma_trim_known(l, k);
    let t = l.skip(k);
    assert(t[0] == l[k]);
    lemma_not_prefix(t, "player_name:"@, 0);
    lemma_not_prefix(t, "level:"@, 0);
    lemma_not_prefix(t, "health:"@, 0);
    lemma_not_prefix(t, "max_health:"@, 0);
    if l[k] == 's' {
        assert(t[1] == l[k + 1]);
        lemma_not_prefix(t, "score:"@, 1);
    } else {
        lemma_not_prefix(t, "score:"@, 0);
    }
}

proof fn lemma_read_one(f: SaveFields, a: Seq<Seq<char>>, k: int)
    requires
        0 <= k < a.len(),
    ensures
        read_lines(f, a.take(k + 1)) == (match read_lines(f, a.take(k)) {
            Ok(g) => read_line(g, a[k]),
            Err(e) => Err(e),
        }),
{
    assert(a.take(k + 1).drop_last() =~= a.take(k));
    assert(a.take(k + 1).last() == a[k]);
}

/// Reading the numeric line `label n,` for the key `key`.
proof fn lemma_number_line(label: Seq<char>, key: Seq<char>, n: int)
    requires
        label == "    "@ + key + ": "@,
        key.len() > 0,
        !is_ws(key[0]),
        forall|i: int| 0 <= i < key.len() ==> key[i] != ':' && key[i] != '\n',
        i64::MIN <= n <= i64::MAX,
    ensures
        trim(number_line(label, n)) == key + ": "@ + decimal(n) + ","@,
        number_after_colon(trim(number_line(label, n))) == Ok::<int, Seq<char>>(n),
        one_line(number_line(label, n)),
{
    reveal_strlit("    ");
    reveal_strlit(": ");
    reveal_strlit(",");
    lemma_decimal_chars(n);
    let l = number_line(label, n);
    let d = decimal(n);
    assert(l =~= "    "@ + (key + ": "@ + d + ","@));
    assert(l[4] == key[0]);
    assert(l.last() == ',');
    assert forall|j: int| 0 <= j < 4 implies is_ws(#[trigger] l[j]) by {}
    lemma_trim_known(l, 4);
    assert(l.skip(4) =~= key + ": "@ + d + ","@);
    lemma_number_value(key, n);
    assert forall|i: int| 0 <= i < l.len() implies l[i] != '\n' by {
        if 4 <= i < 4 + key.len() {
            assert(l[i] == key[i - 4]);
        } else if 4 + key.len() + 2 <= i < l.len() - 1 {
            assert(l[i] == d[i - 4 - key.len() - 2]);
        }
    }
}

/// The header and the numeric fields: the first seven lines.
spec fn head_lines(d: SaveData) -> Seq<Seq<char>> {
    seq![
        "SaveData("@,
        "    player_name: \""@ + d.player_name@ + "\","@,
        number_line("    level: "@, d.level as int),
        number_line("    score: "@, d.score as int),
        number_line("    health: "@, d.health as int),
        number_line("    max_health: "@, d.max_health as int),
        "    inventory: ["@,
    ]
}

/// The inventory lines, the settings header, the settings and the end.
spec fn tail_lines(d: SaveData) -> Seq<Seq<char>> {
    string_views(d.inventory@).map_values(|item: Seq<char>| item_line(item)) + seq![
        "    ],"@,
        "    settings: {"@,
    ] + setting_lines(d.settings@) + seq!["    },"@, ")"@]
}

proof fn lemma_read_head(d: SaveData)
    requires
        d.player_name@.len() > 0,
        one_line(d.player_name@),
        d.score <= i64::MAX,
    ensures
        read_lines(default_fields(), head_lines(d)) == Ok::<SaveFields, Seq<char>>(fields_of(d)),
        forall|i: int| 0 <= i < head_lines(d).len() ==> one_line(#[trigger] head_lines(d)[i]),
{
    reveal_strlit("SaveData(");
    reveal_strlit("    player_name: \"");
    reveal_strlit("player_name: \"");
    reveal_strlit("\",");
    reveal_strlit("    level: ");
    reveal_strlit("level");
    reveal_strlit("    score: ");
    reveal_strlit("score");
    reveal_strlit("    health: ");
    reveal_strlit("health");
    reveal_strlit("    max_health: ");
    reveal_strlit("max_health");
    reveal_strlit("    ");
    reveal_strlit(": ");
    reveal_strlit("    inventory: [");
    reveal_strlit("player_name:");
    reveal_strlit("level:");
    reveal_strlit("score:");
    reveal_strlit("health:");
    reveal_strlit("max_health:");
    lemma_prefix_heads();
    let name = d.player_name@;
    let f0 = default_fields();
    let a = head_lines(d);
    let l0 = a[0];
    let l1 = a[1];
    let l2 = a[2];
    let l3 = a[3];
    let l4 = a[4];
    let l5 = a[5];
    let l6 = a[6];
    assert("    level: "@ =~= "    "@ + "level"@ + ": "@);
    assert("    score: "@ =~= "    "@ + "score"@ + ": "@);
    assert("    health: "@ =~= "    "@ + "health"@ + ": "@);
    assert("    max_health: "@ =~= "    "@ + "max_health"@ + ": "@);
    lemma_number_line("    level: "@, "level"@, d.level as int);
    lemma_number_line("    score: "@, "score"@, d.score as int);
    lemma_number_line("    health: "@, "health"@, d.health as int);
    lemma_number_line("    max_health: "@, "max_health"@, d.max_health as int);
    assert(l1[4] == 'p' && l1.last() == ',');
    assert forall|j: int| 0 <= j < 4 implies is_ws(#[trigger] l1[j]) by {}
    lemma_trim_known(l1, 4);
    let t1 = l1.skip(4);
    assert(t1 =~= "player_name: \""@ + name + "\","@);
    assert(t1.take(12) =~= "player_name:"@);
    lemma_quoted_name(name);
    lemma_inert_line(l0, 0);
    lemma_read_one(f0, a, 0);
    lemma_read_one(f0, a, 1);
    let f1 = SaveFields { player_name: name, ..f0 };
    assert(read_lines(f0, a.take(2)) == Ok::<SaveFields, Seq<char>>(f1));
    let t2 = trim(l2);
    assert(t2[0] == 'l');
    lemma_not_prefix(t2, "player_name:"@, 0);
    assert(t2.take(6) =~= "level:"@);
    lemma_read_one(f0, a, 2);
    let f2 = SaveFields { level: d.level, ..f1 };
    assert(read_lines(f0, a.take(3)) == Ok::<SaveFields, Seq<char>>(f2));
    let t3 = trim(l3);
    assert(t3[0] == 's');
    lemma_not_prefix(t3, "player_name:"@, 0);
    lemma_not_prefix(t3, "level:"@, 0);
    assert(t3.take(6) =~= "score:"@);
    lemma_read_one(f0, a, 3);
    let f3 = SaveFields { score: d.score, ..f2 };
    assert(read_lines(f0, a.take(4)) == Ok::<SaveFields, Seq<char>>(f3));
    let t4 = trim(l4);
    assert(t4[0] == 'h');
    lemma_not_prefix(t4, "player_name:"@, 0);
    lemma_not_prefix(t4, "level:"@, 0);
    lemma_not_prefix(t4, "score:"@, 0);
    lemma_not_prefix(t4, "max_"@, 0);
    assert(t4.take(7) =~= "health:"@);
    lemma_read_one(f0, a, 4);
    let f4 = SaveFields { health: d.health, ..f3 };
    assert(read_lines(f0, a.take(5)) == Ok::<SaveFields, Seq<char>>(f4));
    let t5 = trim(l5);
    assert(t5[0] == 'm');
    lemma_not_prefix(t5, "player_name:"@, 0);
    lemma_not_prefix(t5, "level:"@, 0);
    lemma_not_prefix(t5, "score:"@, 0);
    lemma_not_prefix(t5, "health:"@, 0);
    assert(t5.take(11) =~= "max_health:"@);
    lemma_read_one(f0, a, 5);
    assert(read_lines(f0, a.take(6)) == Ok::<SaveFields, Seq<char>>(fields_of(d)));
    assert forall|j: int| 0 <= j < 4 implies is_ws(#[trigger] l6[j]) by {}
    lemma_inert_line(l6, 4);
    lemma_read_one(f0, a, 6);
    assert(a.take(7) =~= a);
    assert forall|i: int| 0 <= i < a.len() implies one_line(#[trigger] a[i]) by {
        if i == 1 {
            assert forall|j: int| 0 <= j < l1.len() implies l1[j] != '\n' by {
                if 18 <= j < 18 + name.len() {
                    assert(l1[j] == name[j - 18]);
                }
            }
        }
    }
}

proof fn lemma_read_tail(d: SaveData, g: SaveFields)
    requires
        forall|i: int| 0 <= i < d.inventory@.len() ==> one_line(#[trigger] d.inventory@[i]@),
        forall|i: int|
            0 <= i < d.settings@.len() ==> one_line((#[trigger] d.settings@[i]).0) && one_line(
                d.settings@[i].1,
            ),
    ensures
        read_lines(g, tail_lines(d)) == Ok::<SaveFields, Seq<char>>(g),
        forall|i: int| 0 <= i < tail_lines(d).len() ==> one_line(#[trigger] tail_lines(d)[i]),
{
    reveal_strlit("        \"");
    reveal_strlit("\",");
    reveal_strlit("\": \"");
    reveal_strlit("    ],");
    reveal_strlit("    settings: {");
    reveal_strlit("    },");
    reveal_strlit(")");
    let items = string_views(d.inventory@).map_values(|item: Seq<char>| item_line(item));
    let sets = setting_lines(d.settings@);
    let t = tail_lines(d);
    assert forall|i: int| 0 <= i < t.len() implies inert(#[trigger] t[i]) && one_line(t[i]) by {
        let l = t[i];
        if i < items.len() {
            let x = d.inventory@[i]@;
            assert(l == item_line(x));
            assert(l[8] == '"' && l.last() == ',');
            assert forall|j: int| 0 <= j < 8 implies is_ws(#[trigger] l[j]) by {}
            lemma_inert_line(l, 8);
            assert forall|j: int| 0 <= j < l.len() implies l[j] != '\n' by {
                if 9 <= j < 9 + x.len() {
                    assert(l[j] == x[j - 9]);
                }
            }
        } else if i < items.len() + 2 {
            assert forall|j: int| 0 <= j < 4 implies is_ws(#[trigger] l[j]) by {}
            lemma_inert_line(l, 4);
        } else if i < items.len() + 2 + sets.len() {
            let e = d.settings@[i - items.len() - 2];
            assert(l == setting_line(e.0, e.1));
            assert(l[8] == '"' && l.last() == ',');
            assert forall|j: int| 0 <= j < 8 implies is_ws(#[trigger] l[j]) by {}
            lemma_inert_line(l, 8);
            assert forall|j: int| 0 <= j < l.len() implies l[j] != '\n' by {
                if 9 <= j < 9 + e.0.len() {
                    assert(l[j] == e.0[j - 9]);
                } else if 9 + e.0.len() + 4 <= j < 9 + e.0.len() + 4 + e.1.len() {
                    assert(l[j] == e.1[j - 9 - e.0.len() - 4]);
                }
            }
        } else if i == items.len() + 2 + sets.len() {
            assert forall|j: int| 0 <= j < 4 implies is_ws(#[trigger] l[j]) by {}
            lemma_inert_line(l, 4);
        } else {
            lemma_inert_line(l, 0);
        }
    }
    lemma_read_inert(g, t);
}

/// Writing save data and reading the text back gives its player name, level,
/// score, health and maximum health, when the name is not empty, no name,
/// inventory item or setting holds a newline, and the score fits in an `i64`.
pub proof fn lemma_ron_roundtrip(d: SaveData)
    requires
        d.player_name@.len() > 0,
        one_line(d.player_name@),
        forall|i: int| 0 <= i < d.inventory@.len() ==> one_line(#[trigger] d.inventory@[i]@),
        forall|i: int|
            0 <= i < d.settings@.len() ==> one_line((#[trigger] d.settings@[i]).0) && one_line(
                d.settings@[i].1,
            ),
        d.score <= i64::MAX,
    ensures
        read_lines(default_fields(), split(join_lines(ron_lines(d)), '\n')) == Ok::<
            SaveFields,
            Seq<char>,
        >(fields_of(d)),
{
    let ls = ron_lines(d);
    let a = head_lines(d);
    let t = tail_lines(d);
    assert(ls =~= a + t);
    lemma_read_head(d);
    lemma_read_tail(d, fields_of(d));
    lemma_read_lines_append(default_fields(), a, t);
    assert forall|i: int| 0 <= i < ls.len() implies one_line(#[trigger] ls[i]) by {
        if i < a.len() {
            assert(ls[i] == a[i]);
        } else {
            assert(ls[i] == t[i - a.len()]);
        }
    }
    let empty = Seq::<char>::empty();
    lemma_split_join(ls, empty);
    assert(join_lines(ls) + empty =~= join_lines(ls));
    assert(ls.push(empty).drop_last() =~= ls);
    assert(ls.push(empty).last() == empty);
    assert(trim(empty) =~= empty);
    lemma_prefix_heads();
}

// ---------------------------------------------------------------------------
// Checkpoints
// ---------------------------------------------------------------------------

/// A save point; `P` is the position type of the game.
#[derive(Clone, Debug)]
pub struct Checkpoint<P> {
    pub id: u32,
    pub position: P,
    pub timestamp: u64,
}

/// The checkpoints of a level and the one last triggered.
pub struct CheckpointSystem<P> {
    checkpoints: Vec<Checkpoint<P>>,
    last_triggered: Option<u32>,
}

/// `i` is the first position of a checkpoint with id `id`.
pub open spec fn first_with_id<P>(cs: Seq<Checkpoint<P>>, id: u32, i: int) -> bool {
    0 <= i < cs.len() && cs[i].id == id && forall|j: int| 0 <= j < i ==> (#[trigger] cs[j]).id != id
}

impl<P> CheckpointSystem<P> {
    /// The checkpoints, in the order they were added.
    pub closed spec fn points(&self) -> Seq<Checkpoint<P>> {
        self.checkpoints@
    }

    /// The id last triggered, if any.
    pub closed spec fn last_id(&self) -> Option<u32> {
        self.last_triggered
    }

    pub fn new() -> (s: Self)
        ensures
            s.points().len() == 0,
            s.last_id() is None,
    {
        CheckpointSystem { checkpoints: Vec::new(), last_triggered: None }
    }

    pub fn add(&mut self, checkpoint: Checkpoint<P>)
        ensures
            final(self).points() == old(self).points().push(checkpoint),
            final(self).last_id() == old(self).last_id(),
    {
        self.checkpoints.push(checkpoint);
    }

    fn find(&self, id: u32) -> (r: Option<usize>)
        ensures
            match r {
                Some(i) => first_with_id(self.points(), id, i as int),
                None => forall|i: int| 0 <= i < self.points().len() ==> (#[trigger] self.points()[i]).id != id,
            },
    {
        let mut i: usize = 0;
        while i < self.checkpoints.len()
            invariant
                i <= self.checkpoints.len(),
                forall|j: int| 0 <= j < i ==> (#[trigger] self.checkpoints@[j]).id != id,
            decreases self.checkpoints.len() - i,
        {
            if self.checkpoints[i].id == id {
                return Some(i);
            }
            i += 1;
        }
        None
    }

    /// Marks checkpoint `id` as the last one reached, when there is one with
    /// that id; tells whether there was.
    pub fn trigger(&mut self, id: u32) -> (found: bool)
        ensures
            found == exists|i: int| 0 <= i < old(self).points().len() && (#[trigger] old(self).points()[i]).id == id,
            final(self).points() == old(self).points(),
            final(self).last_id() == (if found {
                Some(id)
            } else {
                old(self).last_id()
            }),
    {
        if self.find(id).is_some() {
            self.last_triggered = Some(id);
            true
        } else {
            false
        }
    }

    /// The first checkpoint with the id last triggered.
    pub fn last_checkpoint(&self) -> (r: Option<&Checkpoint<P>>)
        ensures
            match self.last_id() {
                None => r is None,
                Some(id) => match r {
                    Some(c) => exists|i: int| first_with_id(self.points(), id, i) && *c == self.points()[i],
                    None => forall|i: int| 0 <= i < self.points().len() ==> (#[trigger] self.points()[i]).id != id,
                },
            },
    {
        match self.last_triggered {
            None => None,
            Some(id) => match self.find(id) {
                Some(i) => Some(&self.checkpoints[i]),
                None => None,
            },
        }
    }
}

impl<P> Default for CheckpointSystem<P> {
    fn default() -> (s: Self)
        ensures
            s.points().len() == 0,
            s.last_id() is None,
    {
        Self::new()
    }
}

} // verus!

//! A complete small game: the scene flow, level unlocking, best scores, and the
//! game state that ties them together.
use vstd::prelude::*;
use std::collections::HashMap;
use crate::text::{owned, push_u64};

verus! {

broadcast use vstd::std_specs::hash::group_hash_axioms;

/// The scenes of the game.
#[derive(Clone, Copy, Debug, PartialEq, Eq, Hash, Structural)]
pub enum GameScene {
    Boot,
    TitleScreen,
    LevelSelect,
    Playing,
    Paused,
    GameOver,
    Victory,
    Credits,
}

/// The scenes reachable from `from` in the game's flow, in order.
pub open spec fn flow_targets(from: GameScene) -> Seq<GameScene> {
    match from {
        GameScene::Boot => seq![GameScene::TitleScreen],
        GameScene::TitleScreen => seq![GameScene::LevelSelect, GameScene::Credits],
        GameScene::LevelSelect => seq![GameScene::Playing, GameScene::TitleScreen],
        GameScene::Playing => seq![GameScene::Paused, GameScene::GameOver, GameScene::Victory],
        GameScene::Paused => seq![GameScene::Playing, GameScene::TitleScreen],
        GameScene::GameOver => seq![GameScene::TitleScreen, GameScene::LevelSelect],
        GameScene::Victory => seq![GameScene::TitleScreen, GameScene::Credits, GameScene::LevelSelect],
        GameScene::Credits => seq![GameScene::TitleScreen],
    }
}

/// The targets listed for `from` in `table`: those of its first entry for
/// `from`, or none.
pub open spec fn targets_in(table: Seq<(GameScene, Seq<GameScene>)>, from: GameScene) -> Seq<
    GameScene,
>
    decreases table.len(),
{
    if table.len() == 0 {
        Seq::empty()
    } else if table[0].0 == from {
        table[0].1
    } else {
        targets_in(table.drop_first(), from)
    }
}

/// Which scene may follow which.
pub struct SceneFlow {
    transitions: Vec<(GameScene, Vec<GameScene>)>,
}

impl SceneFlow {
    /// The transitions, scene by scene.
    pub closed spec fn table(&self) -> Seq<(GameScene, Seq<GameScene>)> {
        self.transitions@.map_values(|e: (GameScene, Vec<GameScene>)| (e.0, e.1@))
    }

    /// Whether `to` may follow `from`.
    pub fn can_transition(&self, from: GameScene, to: GameScene) -> (r: bool)
        ensures
            r == targets_in(self.table(), from).contains(to),
    {
        let targets = self.valid_targets(from);
        let mut i: usize = 0;
        while i < targets.len()
            invariant
                i <= targets.len(),
                targets@ == targets_in(self.table(), from),
                forall|j: int| 0 <= j < i ==> targets@[j] != to,
            decreases targets.len() - i,
        {
            if targets[i] == to {
                assert(targets@[i as int] == to);
                return true;
            }
            i += 1;
        }
        false
    }

    /// The scenes that may follow `from`.
    pub fn valid_targets(&self, from: GameScene) -> (v: Vec<GameScene>)
        ensures
            v@ == targets_in(self.table(), from),
    {
        let mut i: usize = 0;
        assert(self.table().skip(0) =~= self.table());
        while i < self.transitions.len()
            invariant
                i <= self.transitions.len(),
                targets_in(self.table(), from) == targets_in(self.table().skip(i as int), from),
            decreases self.transitions.len() - i,
        {
            let ghost rest = self.table().skip(i as int);
            assert(rest[0] == (self.transitions@[i as int].0, self.transitions@[i as int].1@));
            assert(rest.drop_first() =~= self.table().skip(i + 1));
            if self.transitions[i].0 == from {
                return copy_scenes(&self.transitions[i].1);
            }
            i += 1;
        }
        Vec::new()
    }
}

fn copy_scenes(v: &Vec<GameScene>) -> (r: Vec<GameScene>)
    ensures
        r@ == v@,
{
    let mut r: Vec<GameScene> = Vec::new();
    let mut i: usize = 0;
    while i < v.len()
        invariant
            i <= v.len(),
            r@ == v@.take(i as int),
        decreases v.len() - i,
    {
        r.push(v[i]);
        assert(v@.take(i as int).push(v@[i as int]) =~= v@.take(i + 1));
        i += 1;
    }
    assert(v@.take(v.len() as int) =~= v@);
    r
}

fn scenes1(a: GameScene) -> (v: Vec<GameScene>)
    ensures
        v@ == seq![a],
{
    let mut v = Vec::new();
    v.push(a);
    assert(v@ =~= seq![a]);
    v
}

fn scenes2(a: GameScene, b: GameScene) -> (v: Vec<GameScene>)
    ensures
        v@ == seq![a, b],
{
    let mut v = Vec::new();
    v.push(a);
    v.push(b);
    assert(v@ =~= seq![a, b]);
    v
}

fn scenes3(a: GameScene, b: GameScene, c: GameScene) -> (v: Vec<GameScene>)
    ensures
        v@ == seq![a, b, c],
{
    let mut v = Vec::new();
    v.push(a);
    v.push(b);
    v.push(c);
    assert(v@ =~= seq![a, b, c]);
    v
}

/// The transitions of the game, one entry per scene.
pub open spec fn flow_table() -> Seq<(GameScene, Seq<GameScene>)> {
    seq![
        (GameScene::Boot, flow_targets(GameScene::Boot)),
        (GameScene::TitleScreen, flow_targets(GameScene::TitleScreen)),
        (GameScene::LevelSelect, flow_targets(GameScene::LevelSelect)),
        (GameScene::Playing, flow_targets(GameScene::Playing)),
        (GameScene::Paused, flow_targets(GameScene::Paused)),
        (GameScene::GameOver, flow_targets(GameScene::GameOver)),
        (GameScene::Victory, flow_targets(GameScene::Victory)),
        (GameScene::Credits, flow_targets(GameScene::Credits)),
    ]
}

/// The default flow, scene by scene: boot leads to the title screen; the title
/// screen to level selection or the credits; level selection to play or back
/// to the title; play may pause, end in game over or in victory; a pause goes
/// back to play or to the title; game over to the title or level selection;
/// victory to the title, the credits or level selection; the credits to the
/// title.
pub proof fn lemma_default_flow_targets()
    ensures
        targets_in(flow_table(), GameScene::Boot) == seq![GameScene::TitleScreen],
        targets_in(flow_table(), GameScene::TitleScreen) == seq![
            GameScene::LevelSelect,
            GameScene::Credits,
        ],
        targets_in(flow_table(), GameScene::LevelSelect) == seq![
            GameScene::Playing,
            GameScene::TitleScreen,
        ],
        targets_in(flow_table(), GameScene::Playing) == seq![
            GameScene::Paused,
            GameScene::GameOver,
            GameScene::Victory,
        ],
        targets_in(flow_table(), GameScene::Paused) == seq![
            GameScene::Playing,
            GameScene::TitleScreen,
        ],
        targets_in(flow_table(), GameScene::GameOver) == seq![
            GameScene::TitleScreen,
            GameScene::LevelSelect,
        ],
        targets_in(flow_table(), GameScene::Victory) == seq![
            GameScene::TitleScreen,
            GameScene::Credits,
            GameScene::LevelSelect,
        ],
        targets_in(flow_table(), GameScene::Credits) == seq![GameScene::TitleScreen],
        targets_in(flow_table(), GameScene::Playing).contains(GameScene::GameOver),
        !targets_in(flow_table(), GameScene::Boot).contains(GameScene::Playing),
{
    lemma_flow_table(GameScene::Boot);
    lemma_flow_table(GameScene::TitleScreen);
    lemma_flow_table(GameScene::LevelSelect);
    lemma_flow_table(GameScene::Playing);
    lemma_flow_table(GameScene::Paused);
    lemma_flow_table(GameScene::GameOver);
    lemma_flow_table(GameScene::Victory);
    lemma_flow_table(GameScene::Credits);
    let p = seq![GameScene::Paused, GameScene::GameOver, GameScene::Victory];
    assert(p[1] == GameScene::GameOver);
    let b = seq![GameScene::TitleScreen];
    assert(!b.contains(GameScene::Playing)) by {
        if b.contains(GameScene::Playing) {
            let i = choose|i: int| 0 <= i < b.len() && b[i] == GameScene::Playing;
            assert(i == 0);
        }
    }
}

impl Default for SceneFlow {
    fn default() -> (f: Self)
        ensures
            f.table() == flow_table(),
    {
        let mut t: Vec<(GameScene, Vec<GameScene>)> = Vec::new();
        t.push((GameScene::Boot, scenes1(GameScene::TitleScreen)));
        t.push((GameScene::TitleScreen, scenes2(GameScene::LevelSelect, GameScene::Credits)));
        t.push((GameScene::LevelSelect, scenes2(GameScene::Playing, GameScene::TitleScreen)));
        t.push(
            (
                GameScene::Playing,
                scenes3(GameScene::Paused, GameScene::GameOver, GameScene::Victory),
            ),
        );
        t.push((GameScene::Paused, scenes2(GameScene::Playing, GameScene::TitleScreen)));
        t.push((GameScene::GameOver, scenes2(GameScene::TitleScreen, GameScene::LevelSelect)));
        t.push(
            (
                GameScene::Victory,
                scenes3(GameScene::TitleScreen, GameScene::Credits, GameScene::LevelSelect),
            ),
        );
        t.push((GameScene::Credits, scenes1(GameScene::TitleScreen)));
        let f = SceneFlow { transitions: t };
        assert(f.table() =~= flow_table());
        f
    }
}

/// In the game's flow, the scenes that may follow a scene are those the flow
/// lists for it.
pub proof fn lemma_flow_table(from: GameScene)
    ensures
        targets_in(flow_table(), from) == flow_targets(from),
{
    reveal_with_fuel(targets_in, 9);
    let t = flow_table();
    assert(t.drop_first() =~= t.subrange(1, 8));
    assert(t.subrange(1, 8).drop_first() =~= t.subrange(2, 8));
    assert(t.subrange(2, 8).drop_first() =~= t.subrange(3, 8));
    assert(t.subrange(3, 8).drop_first() =~= t.subrange(4, 8));
    assert(t.subrange(4, 8).drop_first() =~= t.subrange(5, 8));
    assert(t.subrange(5, 8).drop_first() =~= t.subrange(6, 8));
    assert(t.subrange(6, 8).drop_first() =~= t.subrange(7, 8));
}

// ---------------------------------------------------------------------------
// Levels
// ---------------------------------------------------------------------------

/// One level of the game.
#[derive(Clone, Debug)]
pub struct Level {
    pub id: u32,
    pub name: String,
    pub difficulty: u32,
    pub completed: bool,
    pub unlocked: bool,
}

/// `k` is the first level with id `id`.
pub open spec fn first_level(levels: Seq<Level>, id: int, k: int) -> bool {
    0 <= k < levels.len() && levels[k].id == id && forall|j: int|
        0 <= j < k ==> (#[trigger] levels[j]).id != id
}

/// Number of completed levels.
pub open spec fn completed_in(levels: Seq<Level>) -> nat
    decreases levels.len(),
{
    if levels.len() == 0 {
        0
    } else {
        completed_in(levels.drop_last()) + if levels.last().completed {
            1nat
        } else {
            0nat
        }
    }
}

/// `new` is `old` after completing level `id`: the first level with that id
/// is completed and, when there is one, the first level with the next id is
/// unlocked; nothing else changes.
pub open spec fn completes(old: Seq<Level>, new: Seq<Level>, id: u32) -> bool {
    &&& new.len() == old.len()
    &&& forall|i: int|
        0 <= i < old.len() ==> {
            let a = #[trigger] old[i];
            let b = new[i];
            let found = exists|k: int| first_level(old, id as int, k);
            &&& b.id == a.id
            &&& b.name == a.name
            &&& b.difficulty == a.difficulty
            &&& b.completed == (a.completed || first_level(old, id as int, i))
            &&& b.unlocked == (a.unlocked || (found && first_level(old, id + 1, i)))
        }
}

/// The levels of the game, in order.
pub struct LevelManager {
    pub levels: Vec<Level>,
}

fn find_level(levels: &Vec<Level>, id: u32) -> (r: Option<usize>)
    ensures
        match r {
            Some(k) => first_level(levels@, id as int, k as int),
            None => forall|k: int| 0 <= k < levels@.len() ==> (#[trigger] levels@[k]).id != id,
        },
{
    let mut i: usize = 0;
    while i < levels.len()
        invariant
            i <= levels.len(),
            forall|j: int| 0 <= j < i ==> (#[trigger] levels@[j]).id != id,
        decreases levels.len() - i,
    {
        if levels[i].id == id {
            return Some(i);
        }
        i += 1;
    }
    None
}

impl LevelManager {
    /// `count` levels with ids from 0, named `Level 1`, `Level 2`, ..., of
    /// difficulty one more than a third of the id; only the first is unlocked.
    pub fn new(count: u32) -> (m: Self)
        ensures
            m.levels@.len() == count,
            forall|i: int|
                0 <= i < count ==> {
                    let l = #[trigger] m.levels@[i];
                    &&& l.id == i
                    &&& l.name@ == "Level "@ + crate::text::decimal(i + 1)
                    &&& l.difficulty == i / 3 + 1
                    &&& !l.completed
                    &&& l.unlocked == (i == 0)
                },
    {
        let mut levels: Vec<Level> = Vec::new();
        let mut i: u32 = 0;
        while i < count
            invariant
                i <= count,
                levels@.len() == i,
                forall|j: int|
                    0 <= j < i ==> {
                        let l = #[trigger] levels@[j];
                        &&& l.id == j
                        &&& l.name@ == "Level "@ + crate::text::decimal(j + 1)
                        &&& l.difficulty == j / 3 + 1
                        &&& !l.completed
                        &&& l.unlocked == (j == 0)
                    },
            decreases count - i,
        {
            let mut name = owned("Level ");
            push_u64(&mut name, (i + 1) as u64);
            levels.push(
                Level { id: i, name, difficulty: i / 3 + 1, completed: false, unlocked: i == 0 },
            );
            i += 1;
        }
        LevelManager { levels }
    }

    /// Marks level `id` completed and unlocks level `id + 1`.
    pub fn complete_level(&mut self, id: u32)
        requires
            id < u32::MAX || forall|k: int|
                0 <= k < old(self).levels@.len() ==> (#[trigger] old(self).levels@[k]).id != id,
        ensures
            completes(old(self).levels@, final(self).levels@, id),
    {
        match find_level(&self.levels, id) {
            Some(k) => {
                let ghost l0 = self.levels@;
                self.levels[k].completed = true;
                let ghost l1 = self.levels@;
                assert forall|j: int| 0 <= j < l1.len() && j != k implies l1[j] == l0[j] by {}
                match find_level(&self.levels, id + 1) {
                    Some(n) => {
                        self.levels[n].unlocked = true;
                        assert forall|j: int| 0 <= j < self.levels@.len() && j != n implies self.levels@[j]
                            == l1[j] by {}
                        assert(first_level(l0, id + 1, n as int)) by {
                            assert forall|j: int| 0 <= j < n implies (#[trigger] l0[j]).id != id + 1 by {
                                if j != k {
                                    assert(l1[j] == l0[j]);
                                }
                            }
                        }
                        assert forall|i: int| 0 <= i < l0.len() implies !#[trigger] first_level(l0, id + 1, i) || i == n by {
                            if first_level(l0, id + 1, i) && i != n {
                                if i < n {
                                    assert(l0[i].id == id + 1);
                                } else {
                                    assert(l0[n as int].id == id + 1);
                                }
                            }
                        }
                    },
                    None => {
                        assert forall|i: int| 0 <= i < l0.len() implies !#[trigger] first_level(l0, id + 1, i) by {
                            if i != k {
                                assert(l1[i] == l0[i]);
                            }
                        }
                    },
                }
                assert forall|i: int| 0 <= i < l0.len() implies #[trigger] first_level(l0, id as int, i) == (i == k) by {
                    if first_level(l0, id as int, i) && i != k {
                        if i < k {
                            assert(l0[i].id == id);
                        } else {
                            assert(l0[k as int].id == id);
                        }
                    }
                }
            },
            None => {},
        }
    }

    /// Whether level `id` is unlocked; a level that does not exist is not.
    pub fn is_unlocked(&self, id: u32) -> (r: bool)
        ensures
            r == exists|k: int| first_level(self.levels@, id as int, k) && self.levels@[k].unlocked,
    {
        match find_level(&self.levels, id) {
            Some(k) => self.levels[k].unlocked,
            None => false,
        }
    }

    /// Number of completed levels.
    pub fn completed_count(&self) -> (n: usize)
        ensures
            n == completed_in(self.levels@),
    {
        let mut n: usize = 0;
        let mut i: usize = 0;
        while i < self.levels.len()
            invariant
                i <= self.levels.len(),
                n == completed_in(self.levels@.take(i as int)),
                n <= i,
            decreases self.levels.len() - i,
        {
            assert(self.levels@.take(i + 1).drop_last() =~= self.levels@.take(i as int));
            if self.levels[i].completed {
                n += 1;
            }
            i += 1;
        }
        assert(self.levels@.take(self.levels.len() as int) =~= self.levels@);
        n
    }

    /// Whether every level is completed.
    pub fn all_completed(&self) -> (r: bool)
        ensures
            r == forall|i: int| 0 <= i < self.levels@.len() ==> (#[trigger] self.levels@[i]).completed,
    {
        let mut i: usize = 0;
        while i < self.levels.len()
            invariant
                i <= self.levels.len(),
                forall|j: int| 0 <= j < i ==> (#[trigger] self.levels@[j]).completed,
            decreases self.levels.len() - i,
        {
            if !self.levels[i].completed {
                return false;
            }
            i += 1;
        }
        true
    }
}

// ---------------------------------------------------------------------------
// Scores
// ---------------------------------------------------------------------------

/// The best score recorded for a level, 0 when none.
pub open spec fn best_in(scores: Map<u32, u64>, level_id: u32) -> u64 {
    if scores.contains_key(level_id) {
        scores[level_id]
    } else {
        0
    }
}

/// The sum of the best scores over all levels.
pub open spec fn score_sum(scores: Map<u32, u64>) -> int {
    scores.dom().fold(0int, |acc: int, k: u32| acc + scores[k])
}

/// Folding a finite set with two step functions that agree on its elements
/// gives the same result.
proof fn lemma_fold_agree(s: Set<u32>, f: spec_fn(int, u32) -> int, g: spec_fn(int, u32) -> int)
    requires
        s.finite(),
        vstd::set::fold::is_fun_commutative(f),
        vstd::set::fold::is_fun_commutative(g),
        forall|b: int, a: u32| s.contains(a) ==> #[trigger] f(b, a) == g(b, a),
    ensures
        s.fold(0int, f) == s.fold(0int, g),
    decreases s.len(),
{
    if s.len() == 0 {
        assert(s =~= Set::<u32>::empty());
        vstd::set::fold::lemma_fold_empty(0int, f);
        vstd::set::fold::lemma_fold_empty(0int, g);
    } else {
        let a = s.choose();
        let r = s.remove(a);
        assert(r.insert(a) =~= s);
        lemma_fold_agree(r, f, g);
        vstd::set::fold::lemma_fold_insert(r, 0int, f, a);
        vstd::set::fold::lemma_fold_insert(r, 0int, g, a);
    }
}

/// Recording `score` as the best of `level_id` moves the sum from the old best
/// to the new one.
proof fn lemma_score_sum_insert(m: Map<u32, u64>, level_id: u32, score: u64)
    requires
        m.dom().finite(),
    ensures
        score_sum(m.insert(level_id, score)) == score_sum(m) - best_in(m, level_id) + score,
{
    let m2 = m.insert(level_id, score);
    let f = |acc: int, k: u32| acc + m[k];
    let g = |acc: int, k: u32| acc + m2[k];
    assert(vstd::set::fold::is_fun_commutative(f));
    assert(vstd::set::fold::is_fun_commutative(g));
    let r = m.dom().remove(level_id);
    assert forall|b: int, a: u32| r.contains(a) implies #[trigger] f(b, a) == g(b, a) by {}
    lemma_fold_agree(r, f, g);
    assert(m2.dom() =~= r.insert(level_id));
    vstd::set::fold::lemma_fold_insert(r, 0int, g, level_id);
    if m.dom().contains(level_id) {
        assert(m.dom() =~= r.insert(level_id));
        vstd::set::fold::lemma_fold_insert(r, 0int, f, level_id);
    } else {
        assert(m.dom() =~= r);
    }
}

/// The best score of each level and their sum.
pub struct ScoreTracker {
    pub scores: HashMap<u32, u64>,
    pub total_score: u64,
}

impl ScoreTracker {
    pub fn new() -> (t: Self)
        ensures
            t.scores@ == Map::<u32, u64>::empty(),
            t.total_score == 0,
            t.total_score == score_sum(t.scores@),
    {
        let t = ScoreTracker { scores: HashMap::new(), total_score: 0 };
        proof {
            assert(t.scores@.dom() =~= Set::<u32>::empty());
            vstd::set::fold::lemma_fold_empty(0int, |acc: int, k: u32| acc + t.scores@[k]);
        }
        t
    }

    /// Records `score` for the level when it beats its best; tells whether it
    /// did. The total goes from the old best to the new one.
    pub fn record_score(&mut self, level_id: u32, score: u64) -> (new_best: bool)
        requires
            best_in(old(self).scores@, level_id) < score ==> old(self).total_score >= best_in(
                old(self).scores@,
                level_id,
            ) && old(self).total_score - best_in(old(self).scores@, level_id) + score
                <= u64::MAX,
        ensures
            new_best == (best_in(old(self).scores@, level_id) < score),
            new_best ==> final(self).scores@ == old(self).scores@.insert(level_id, score)
                && final(self).total_score == old(self).total_score - best_in(
                old(self).scores@,
                level_id,
            ) + score,
            !new_best ==> final(self).scores@ == old(self).scores@ && final(self).total_score
                == old(self).total_score,
            old(self).total_score == score_sum(old(self).scores@) ==> final(self).total_score
                == score_sum(final(self).scores@),
    {
        proof {
            lemma_score_sum_insert(self.scores@, level_id, score);
        }
        let best = match self.scores.get(&level_id) {
            Some(s) => *s,
            None => 0,
        };
        let is_new_best = best < score;
        if is_new_best {
            let old = self.scores.insert(level_id, score);
            match old {
                Some(old_score) => {
                    self.total_score -= old_score;
                },
                None => {},
            }
            self.total_score += score;
        }
        is_new_best
    }

    /// The best score of the level, 0 when none was recorded.
    pub fn best_score(&self, level_id: u32) -> (s: u64)
        ensures
            s == best_in(self.scores@, level_id),
    {
        match self.scores.get(&level_id) {
            Some(s) => *s,
            None => 0,
        }
    }
}

impl Default for ScoreTracker {
    fn default() -> (t: Self)
        ensures
            t.scores@ == Map::<u32, u64>::empty(),
            t.total_score == 0,
            t.total_score == score_sum(t.scores@),
    {
        Self::new()
    }
}

// ---------------------------------------------------------------------------
// The game
// ---------------------------------------------------------------------------

/// The whole game: the current scene, the levels, the scores and the flow.
pub struct GameState {
    pub current_scene: GameScene,
    pub level_manager: LevelManager,
    pub score_tracker: ScoreTracker,
    pub flow: SceneFlow,
}

impl GameState {
    /// A new game at the boot scene with ten levels.
    pub fn new() -> (g: Self)
        ensures
            g.current_scene == GameScene::Boot,
            g.level_manager.levels@.len() == 10,
            g.score_tracker.scores@ == Map::<u32, u64>::empty(),
            g.score_tracker.total_score == 0,
            g.score_tracker.total_score == score_sum(g.score_tracker.scores@),
            g.flow.table() == flow_table(),
    {
        GameState {
            current_scene: GameScene::Boot,
            level_manager: LevelManager::new(10),
            score_tracker: ScoreTracker::new(),
            flow: SceneFlow::default(),
        }
    }

    /// Moves to `target` when the flow allows it; tells whether it did.
    pub fn transition_to(&mut self, target: GameScene) -> (moved: bool)
        ensures
            moved == targets_in(old(self).flow.table(), old(self).current_scene).contains(target),
            final(self).current_scene == if moved {
                target
            } else {
                old(self).current_scene
            },
            final(self).level_manager == old(self).level_manager,
            final(self).score_tracker == old(self).score_tracker,
            final(self).flow == old(self).flow,
    {
        if self.flow.can_transition(self.current_scene, target) {
            self.current_scene = target;
            true
        } else {
            false
        }
    }

    /// Starts level `level_id` when it is unlocked and the flow allows playing.
    pub fn start_level(&mut self, level_id: u32) -> (started: bool)
        ensures
            started == (old(self).level_manager_unlocked(level_id) && targets_in(
                old(self).flow.table(),
                old(self).current_scene,
            ).contains(GameScene::Playing)),
            final(self).current_scene == if started {
                GameScene::Playing
            } else {
                old(self).current_scene
            },
            final(self).level_manager == old(self).level_manager,
            final(self).score_tracker == old(self).score_tracker,
            final(self).flow == old(self).flow,
    {
        if !self.level_manager.is_unlocked(level_id) {
            return false;
        }
        self.transition_to(GameScene::Playing)
    }

    /// Completes level `level_id` with `score`, then goes to the victory scene
    /// when every level is completed, or back to level selection otherwise, as
    /// far as the flow allows.
    pub fn complete_level(&mut self, level_id: u32, score: u64)
        requires
            level_id < u32::MAX || forall|k: int|
                0 <= k < old(self).level_manager.levels@.len() ==> (#[trigger] old(
                    self,
                ).level_manager.levels@[k]).id != level_id,
            best_in(old(self).score_tracker.scores@, level_id) < score ==> old(
                self,
            ).score_tracker.total_score >= best_in(old(self).score_tracker.scores@, level_id) && old(
                self,
            ).score_tracker.total_score - best_in(old(self).score_tracker.scores@, level_id) + score
                <= u64::MAX,
        ensures
            completes(old(self).level_manager.levels@, final(self).level_manager.levels@, level_id),
            final(self).score_tracker.scores@ == if best_in(
                old(self).score_tracker.scores@,
                level_id,
            ) < score {
                old(self).score_tracker.scores@.insert(level_id, score)
            } else {
                old(self).score_tracker.scores@
            },
            final(self).score_tracker.total_score == if best_in(
                old(self).score_tracker.scores@,
                level_id,
            ) < score {
                old(self).score_tracker.total_score - best_in(old(self).score_tracker.scores@, level_id)
                    + score
            } else {
                old(self).score_tracker.total_score as int
            },
            final(self).flow == old(self).flow,
            old(self).score_tracker.total_score == score_sum(old(self).score_tracker.scores@)
                ==> final(self).score_tracker.total_score == score_sum(
                final(self).score_tracker.scores@,
            ),
            ({
                let next = if forall|i: int|
                    0 <= i < final(self).level_manager.levels@.len()
                        ==> (#[trigger] final(self).level_manager.levels@[i]).completed {
                    GameScene::Victory
                } else {
                    GameScene::LevelSelect
                };
                final(self).current_scene == if targets_in(
                    old(self).flow.table(),
                    old(self).current_scene,
                ).contains(next) {
                    next
                } else {
                    old(self).current_scene
                }
            }),
    {
        self.level_manager.complete_level(level_id);
        self.score_tracker.record_score(level_id, score);
        if self.level_manager.all_completed() {
            self.transition_to(GameScene::Victory);
        } else {
            self.transition_to(GameScene::LevelSelect);
        }
    }

    /// Whether level `level_id` is unlocked.
    pub open spec fn level_manager_unlocked(&self, level_id: u32) -> bool {
        exists|k: int|
            first_level(self.level_manager.levels@, level_id as int, k)
                && self.level_manager.levels@[k].unlocked
    }
}

impl Default for GameState {
    fn default() -> (g: Self)
        ensures
            g.current_scene == GameScene::Boot,
            g.level_manager.levels@.len() == 10,
            g.score_tracker.scores@ == Map::<u32, u64>::empty(),
            g.score_tracker.total_score == 0,
            g.score_tracker.total_score == score_sum(g.score_tracker.scores@),
            g.flow.table() == flow_table(),
    {
        Self::new()
    }
}

} // verus!

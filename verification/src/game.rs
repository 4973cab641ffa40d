//! The match accumulator: replays one segment's actions and derives the
//! final statistics.

use vstd::prelude::*;

use crate::assoc::{
    assoc_bump, assoc_find, assoc_get, lemma_assoc_find_at, lemma_assoc_find_props,
};
use crate::errors::{res_of, LogError};
use crate::player::{Player, PlayerView};
use crate::text::str_eq;

verus! {

/// Reserved attacker id for environment-caused deaths (falling, drowning,
/// crushing, ...); never a connected player.
pub const WORLD: u32 = 1022;

/// The fixed enumeration of kill causes; codes outside the known range
/// fall back to `ModUnknown`.
#[derive(Clone, Copy, Debug, PartialEq, Eq, Hash, Structural)]
pub enum KillMode {
    ModUnknown,
    ModShotgun,
    ModGauntlet,
    ModMachinegun,
    ModGrenade,
    ModGrenadeSplash,
    ModRocket,
    ModRocketSplash,
    ModPlasma,
    ModPlasmaSplash,
    ModRailgun,
    ModLightning,
    ModBfg,
    ModBfgSplash,
    ModWater,
    ModSlime,
    ModLava,
    ModCrush,
    ModTelefrag,
    ModFalling,
    ModSuicide,
    ModTargetLaser,
    ModTriggerHurt,
    ModNail,
    ModChaingun,
    ModProximityMine,
    ModKamikaze,
    ModJuiced,
    ModGrapple,
}

/// The cause a numeric code stands for.
pub open spec fn spec_kill_mode(n: u32) -> KillMode {
    match n {
        0u32 => KillMode::ModUnknown,
        1u32 => KillMode::ModShotgun,
        2u32 => KillMode::ModGauntlet,
        3u32 => KillMode::ModMachinegun,
        4u32 => KillMode::ModGrenade,
        5u32 => KillMode::ModGrenadeSplash,
        6u32 => KillMode::ModRocket,
        7u32 => KillMode::ModRocketSplash,
        8u32 => KillMode::ModPlasma,
        9u32 => KillMode::ModPlasmaSplash,
        10u32 => KillMode::ModRailgun,
        11u32 => KillMode::ModLightning,
        12u32 => KillMode::ModBfg,
        13u32 => KillMode::ModBfgSplash,
        14u32 => KillMode::ModWater,
        15u32 => KillMode::ModSlime,
        16u32 => KillMode::ModLava,
        17u32 => KillMode::ModCrush,
        18u32 => KillMode::ModTelefrag,
        19u32 => KillMode::ModFalling,
        20u32 => KillMode::ModSuicide,
        21u32 => KillMode::ModTargetLaser,
        22u32 => KillMode::ModTriggerHurt,
        23u32 => KillMode::ModNail,
        24u32 => KillMode::ModChaingun,
        25u32 => KillMode::ModProximityMine,
        26u32 => KillMode::ModKamikaze,
        27u32 => KillMode::ModJuiced,
        28u32 => KillMode::ModGrapple,
        _ => KillMode::ModUnknown,
    }
}

impl KillMode {
    pub fn from_u32(n: u32) -> (m: KillMode)
        ensures
            m == spec_kill_mode(n),
    {
        match n {
            0 => KillMode::ModUnknown,
            1 => KillMode::ModShotgun,
            2 => KillMode::ModGauntlet,
            3 => KillMode::ModMachinegun,
            4 => KillMode::ModGrenade,
            5 => KillMode::ModGrenadeSplash,
            6 => KillMode::ModRocket,
            7 => KillMode::ModRocketSplash,
            8 => KillMode::ModPlasma,
            9 => KillMode::ModPlasmaSplash,
            10 => KillMode::ModRailgun,
            11 => KillMode::ModLightning,
            12 => KillMode::ModBfg,
            13 => KillMode::ModBfgSplash,
            14 => KillMode::ModWater,
            15 => KillMode::ModSlime,
            16 => KillMode::ModLava,
            17 => KillMode::ModCrush,
            18 => KillMode::ModTelefrag,
            19 => KillMode::ModFalling,
            20 => KillMode::ModSuicide,
            21 => KillMode::ModTargetLaser,
            22 => KillMode::ModTriggerHurt,
            23 => KillMode::ModNail,
            24 => KillMode::ModChaingun,
            25 => KillMode::ModProximityMine,
            26 => KillMode::ModKamikaze,
            27 => KillMode::ModJuiced,
            28 => KillMode::ModGrapple,
            _ => KillMode::ModUnknown,
        }
    }
}

/// Per-name signed kill scores, in order of first contribution.
#[derive(Clone, Debug, PartialEq, Eq)]
pub struct ScoreMap {
    pub entries: Vec<(String, i128)>,
}

impl View for ScoreMap {
    type V = Seq<(Seq<char>, int)>;

    open spec fn view(&self) -> Seq<(Seq<char>, int)> {
        Seq::new(self.entries@.len(), |i: int| (self.entries@[i].0@, self.entries@[i].1 as int))
    }
}

impl DeepView for ScoreMap {
    type V = Seq<(Seq<char>, int)>;

    open spec fn deep_view(&self) -> Seq<(Seq<char>, int)> {
        self.view()
    }
}

impl ScoreMap {
    pub fn new() -> (m: ScoreMap)
        ensures
            m@ == Seq::<(Seq<char>, int)>::empty(),
    {
        let m = ScoreMap { entries: Vec::new() };
        proof {
            assert(m@ =~= Seq::<(Seq<char>, int)>::empty());
        }
        m
    }

    /// The score recorded for `name`, if any.
    pub fn get(&self, name: &str) -> (r: Option<i128>)
        ensures
            assoc_get(self@, name@) == (match r {
                None => None::<int>,
                Some(v) => Some(v as int),
            }),
    {
        let mut i: usize = 0;
        while i < self.entries.len()
            invariant
                0 <= i <= self.entries@.len(),
                forall|k: int| 0 <= k < i ==> (#[trigger] self@[k]).0 != name@,
            decreases self.entries@.len() - i,
        {
            if str_eq(self.entries[i].0.as_str(), name) {
                proof {
                    lemma_assoc_find_at(self@, name@, i as int);
                }
                return Some(self.entries[i].1);
            }
            i = i + 1;
        }
        proof {
            lemma_assoc_find_at(self@, name@, i as int);
        }
        None
    }

    /// Add `delta` to the score for `name`; a first contribution records
    /// the delta itself.
    pub fn bump(&mut self, name: &String, delta: i128)
        requires
            forall|k: int| 0 <= k < old(self)@.len() ==> i128::MIN <= (#[trigger] old(
                self,
            )@[k]).1 + delta <= i128::MAX,
        ensures
            final(self)@ == assoc_bump(old(self)@, name@, delta as int),
    {
        let mut i: usize = 0;
        while i < self.entries.len()
            invariant
                0 <= i <= self.entries@.len(),
                self == old(self),
                forall|k: int| 0 <= k < i ==> (#[trigger] self@[k]).0 != name@,
                forall|k: int| 0 <= k < self@.len() ==> i128::MIN <= (#[trigger] self@[k]).1
                    + delta <= i128::MAX,
            decreases self.entries@.len() - i,
        {
            if str_eq(self.entries[i].0.as_str(), name) {
                proof {
                    lemma_assoc_find_at(self@, name@, i as int);
                }
                let v = self.entries[i].1;
                let key = self.entries[i].0.clone();
                self.entries[i] = (key, v + delta);
                proof {
                    assert(self@ =~= assoc_bump(old(self)@, name@, delta as int));
                }
                return ;
            }
            i = i + 1;
        }
        proof {
            lemma_assoc_find_at(self@, name@, i as int);
        }
        self.entries.push((name.clone(), delta));
        proof {
            assert(self@ =~= assoc_bump(old(self)@, name@, delta as int));
        }
    }
}

/// Per-cause kill counts, in order of first contribution.
#[derive(Clone, Debug, PartialEq, Eq)]
pub struct ModeMap {
    pub entries: Vec<(KillMode, usize)>,
}

impl View for ModeMap {
    type V = Seq<(KillMode, int)>;

    open spec fn view(&self) -> Seq<(KillMode, int)> {
        Seq::new(self.entries@.len(), |i: int| (self.entries@[i].0, self.entries@[i].1 as int))
    }
}

impl DeepView for ModeMap {
    type V = Seq<(KillMode, int)>;

    open spec fn deep_view(&self) -> Seq<(KillMode, int)> {
        self.view()
    }
}

impl ModeMap {
    pub fn new() -> (m: ModeMap)
        ensures
            m@ == Seq::<(KillMode, int)>::empty(),
    {
        let m = ModeMap { entries: Vec::new() };
        proof {
            assert(m@ =~= Seq::<(KillMode, int)>::empty());
        }
        m
    }

    /// The count recorded for `mode`, if any.
    pub fn get(&self, mode: KillMode) -> (r: Option<usize>)
        ensures
            assoc_get(self@, mode) == (match r {
                None => None::<int>,
                Some(v) => Some(v as int),
            }),
    {
        let mut i: usize = 0;
        while i < self.entries.len()
            invariant
                0 <= i <= self.entries@.len(),
                forall|k: int| 0 <= k < i ==> (#[trigger] self@[k]).0 != mode,
            decreases self.entries@.len() - i,
        {
            if self.entries[i].0 == mode {
                proof {
                    lemma_assoc_find_at(self@, mode, i as int);
                }
                return Some(self.entries[i].1);
            }
            i = i + 1;
        }
        proof {
            lemma_assoc_find_at(self@, mode, i as int);
        }
        None
    }

    /// Count one more kill by `mode`.
    pub fn bump(&mut self, mode: KillMode)
        requires
            forall|k: int| 0 <= k < old(self)@.len() ==> (#[trigger] old(self)@[k]).1
                < usize::MAX,
        ensures
            final(self)@ == assoc_bump(old(self)@, mode, 1),
    {
        let mut i: usize = 0;
        while i < self.entries.len()
            invariant
                0 <= i <= self.entries@.len(),
                self == old(self),
                forall|k: int| 0 <= k < i ==> (#[trigger] self@[k]).0 != mode,
                forall|k: int| 0 <= k < self@.len() ==> (#[trigger] self@[k]).1 < usize::MAX,
            decreases self.entries@.len() - i,
        {
            if self.entries[i].0 == mode {
                proof {
                    lemma_assoc_find_at(self@, mode, i as int);
                }
                let v = self.entries[i].1;
                proof {
                    assert(self@[i as int].1 < usize::MAX);
                }
                self.entries[i] = (mode, v + 1);
                proof {
                    assert(self@ =~= assoc_bump(old(self)@, mode, 1));
                }
                return ;
            }
            i = i + 1;
        }
        proof {
            lemma_assoc_find_at(self@, mode, i as int);
        }
        self.entries.push((mode, 1));
        proof {
            assert(self@ =~= assoc_bump(old(self)@, mode, 1));
        }
    }
}

/// Index of the first player record with the given id.
pub open spec fn find_index(ps: Seq<PlayerView>, id: u32) -> Option<int>
    decreases ps.len(),
{
    if ps.len() == 0 {
        None
    } else if ps[0].id == id {
        Some(0int)
    } else {
        match find_index(ps.drop_first(), id) {
            None => None,
            Some(j) => Some(j + 1),
        }
    }
}

/// The first match stands at `i` when everything before `i` mismatches.
pub proof fn lemma_find_index_at(ps: Seq<PlayerView>, id: u32, i: int)
    requires
        0 <= i <= ps.len(),
        forall|k: int| 0 <= k < i ==> (#[trigger] ps[k]).id != id,
        i < ps.len() ==> ps[i].id == id,
    ensures
        find_index(ps, id) == (if i < ps.len() {
            Some(i)
        } else {
            None::<int>
        }),
    decreases i,
{
    if i == 0 {
    } else {
        assert(ps[0].id != id);
        assert forall|k: int| 0 <= k < i - 1 implies (#[trigger] ps.drop_first()[k]).id != id by {
            assert(ps.drop_first()[k] == ps[k + 1]);
        }
        if i < ps.len() {
            assert(ps.drop_first()[i - 1] == ps[i]);
        }
        lemma_find_index_at(ps.drop_first(), id, i - 1);
    }
}

pub proof fn lemma_find_index_props(ps: Seq<PlayerView>, id: u32)
    ensures
        match find_index(ps, id) {
            None => forall|i: int| 0 <= i < ps.len() ==> (#[trigger] ps[i]).id != id,
            Some(j) => 0 <= j < ps.len() && ps[j].id == id && forall|i: int|
                0 <= i < j ==> (#[trigger] ps[i]).id != id,
        },
    decreases ps.len(),
{
    if ps.len() > 0 && ps[0].id != id {
        lemma_find_index_props(ps.drop_first(), id);
        match find_index(ps.drop_first(), id) {
            None => {
                assert forall|i: int| 0 <= i < ps.len() implies (#[trigger] ps[i]).id != id by {
                    if i > 0 {
                        assert(ps.drop_first()[i - 1] == ps[i]);
                    }
                }
            },
            Some(j) => {
                assert(ps.drop_first()[j] == ps[j + 1]);
                assert forall|i: int| 0 <= i < j + 1 implies (#[trigger] ps[i]).id != id by {
                    if i > 0 {
                        assert(ps.drop_first()[i - 1] == ps[i]);
                    }
                }
            },
        }
    }
}

/// The roster's names in connection order.
pub open spec fn names_of(ps: Seq<PlayerView>) -> Seq<Seq<char>> {
    ps.map_values(|p: PlayerView| p.name)
}

/// Spec-level model of a [`Game`].
pub struct GameView {
    pub total_kills: int,
    pub players: Seq<PlayerView>,
    pub player_list: Seq<Seq<char>>,
    pub kill_score: Seq<(Seq<char>, int)>,
    pub means_of_death: Seq<(KillMode, int)>,
}

impl GameView {
    /// The accumulator's invariant: every tally is bounded by the number
    /// of kills counted so far, and the name list mirrors the roster.
    pub open spec fn wf(self) -> bool {
        &&& self.total_kills >= 0
        &&& forall|i: int| 0 <= i < self.kill_score.len() ==> -self.total_kills <= (
        #[trigger] self.kill_score[i]).1 <= self.total_kills
        &&& forall|i: int| 0 <= i < self.means_of_death.len() ==> 0 <= (
        #[trigger] self.means_of_death[i]).1 <= self.total_kills
        &&& self.player_list == names_of(self.players)
    }

    pub open spec fn empty() -> GameView {
        GameView {
            total_kills: 0,
            players: Seq::empty(),
            player_list: Seq::empty(),
            kill_score: Seq::empty(),
            means_of_death: Seq::empty(),
        }
    }
}

/// Connecting appends a fresh player and an empty name to the list.
pub open spec fn spec_new_player(g: GameView, id: u32) -> GameView {
    GameView {
        players: g.players.push(PlayerView { id, name: Seq::empty(), joined: false }),
        player_list: g.player_list.push(Seq::empty()),
        ..g
    }
}

/// Beginning play marks the first record with the id as joined.
pub open spec fn spec_begin(g: GameView, id: u32) -> (GameView, Option<LogError>) {
    match find_index(g.players, id) {
        None => (g, Some(LogError::UnknownPlayer)),
        Some(j) => (
            GameView {
                players: g.players.update(j, PlayerView { joined: true, ..g.players[j] }),
                ..g
            },
            None,
        ),
    }
}

/// Renaming sets the first record's name and rebuilds the name list.
pub open spec fn spec_rename(g: GameView, id: u32, name: Seq<char>) -> (GameView, Option<
    LogError,
>) {
    match find_index(g.players, id) {
        None => (g, Some(LogError::UnknownPlayer)),
        Some(j) => {
            let ps = g.players.update(j, PlayerView { name, ..g.players[j] });
            (GameView { players: ps, player_list: names_of(ps), ..g }, None)
        },
    }
}

/// A kill always counts toward the total first. An environment kill then
/// penalizes the victim's current name by one; a kill of another player
/// credits the attacker's current name by one; a self-kill changes no
/// score. On success the cause tally is bumped; an unknown attacker or
/// victim aborts before the cause is recorded.
pub open spec fn spec_add_kill(g: GameView, killer_id: u32, killed_id: u32, cause: u32) -> (
    GameView,
    Option<LogError>,
) {
    let g1 = GameView { total_kills: g.total_kills + 1, ..g };
    if killer_id == WORLD {
        match find_index(g1.players, killed_id) {
            None => (g1, Some(LogError::UnknownVictim)),
            Some(j) => {
                let g2 = GameView {
                    kill_score: assoc_bump(g1.kill_score, g1.players[j].name, -1),
                    ..g1
                };
                (
                    GameView {
                        means_of_death: assoc_bump(g2.means_of_death, spec_kill_mode(cause), 1),
                        ..g2
                    },
                    None,
                )
            },
        }
    } else if killed_id != killer_id {
        match find_index(g1.players, killer_id) {
            None => (g1, Some(LogError::UnknownAttacker)),
            Some(j) => {
                let g2 = GameView {
                    kill_score: assoc_bump(g1.kill_score, g1.players[j].name, 1),
                    ..g1
                };
                (
                    GameView {
                        means_of_death: assoc_bump(g2.means_of_death, spec_kill_mode(cause), 1),
                        ..g2
                    },
                    None,
                )
            },
        }
    } else {
        (
            GameView {
                means_of_death: assoc_bump(g1.means_of_death, spec_kill_mode(cause), 1),
                ..g1
            },
            None,
        )
    }
}

/// Bounds on every entry value survive a bump, with room for the delta.
proof fn lemma_bump_bounds<K>(
    entries: Seq<(K, int)>,
    key: K,
    delta: int,
    lo: int,
    hi: int,
    lo2: int,
    hi2: int,
)
    requires
        forall|i: int| 0 <= i < entries.len() ==> lo <= (#[trigger] entries[i]).1 <= hi,
        lo2 <= lo,
        hi2 >= hi,
        lo2 <= lo + delta,
        hi2 >= hi + delta,
        lo2 <= delta,
        hi2 >= delta,
    ensures
        forall|i: int| 0 <= i < assoc_bump(entries, key, delta).len() ==> lo2 <= (
        #[trigger] assoc_bump(entries, key, delta)[i]).1 <= hi2,
{
    lemma_assoc_find_props(entries, key);
    match assoc_find(entries, key) {
        Some(j) => {
            let b = entries.update(j, (key, entries[j].1 + delta));
            assert forall|i: int| 0 <= i < b.len() implies lo2 <= (#[trigger] b[i]).1 <= hi2 by {
                if i != j {
                    assert(b[i] == entries[i]);
                }
            }
        },
        None => {
            let b = entries.push((key, delta));
            assert forall|i: int| 0 <= i < b.len() implies lo2 <= (#[trigger] b[i]).1 <= hi2 by {
                if i < entries.len() {
                    assert(b[i] == entries[i]);
                } else {
                    assert(b[i] == (key, delta));
                }
            }
        },
    }
}

/// Connecting preserves the accumulator invariant and the kill total.
pub proof fn lemma_new_player_wf(g: GameView, id: u32)
    requires
        g.wf(),
    ensures
        spec_new_player(g, id).wf(),
        spec_new_player(g, id).total_kills == g.total_kills,
{
    let g2 = spec_new_player(g, id);
    assert forall|i: int| 0 <= i < g2.player_list.len() implies g2.player_list[i] == names_of(
        g2.players,
    )[i] by {
        if i < g.players.len() {
            assert(g2.players[i] == g.players[i]);
            assert(g.player_list[i] == names_of(g.players)[i]);
        }
    }
    assert(g2.player_list =~= names_of(g2.players));
}

/// Beginning play preserves the accumulator invariant and the kill total.
pub proof fn lemma_begin_wf(g: GameView, id: u32)
    requires
        g.wf(),
    ensures
        spec_begin(g, id).0.wf(),
        spec_begin(g, id).0.total_kills == g.total_kills,
{
    lemma_find_index_props(g.players, id);
    match find_index(g.players, id) {
        None => {},
        Some(j) => {
            let g2 = spec_begin(g, id).0;
            assert forall|i: int| 0 <= i < g2.player_list.len() implies g2.player_list[i]
                == names_of(g2.players)[i] by {
                assert(g.player_list[i] == names_of(g.players)[i]);
                if i != j {
                    assert(g2.players[i] == g.players[i]);
                }
            }
            assert(g2.player_list =~= names_of(g2.players));
        },
    }
}

/// Renaming preserves the accumulator invariant and the kill total.
pub proof fn lemma_rename_wf(g: GameView, id: u32, name: Seq<char>)
    requires
        g.wf(),
    ensures
        spec_rename(g, id, name).0.wf(),
        spec_rename(g, id, name).0.total_kills == g.total_kills,
{
    lemma_find_index_props(g.players, id);
}

/// A kill preserves the accumulator invariant and counts exactly once.
pub proof fn lemma_add_kill_wf(g: GameView, killer_id: u32, killed_id: u32, cause: u32)
    requires
        g.wf(),
    ensures
        spec_add_kill(g, killer_id, killed_id, cause).0.wf(),
        spec_add_kill(g, killer_id, killed_id, cause).0.total_kills == g.total_kills + 1,
{
    let t = g.total_kills;
    let mode = spec_kill_mode(cause);
    if killer_id == WORLD {
        match find_index(g.players, killed_id) {
            None => {},
            Some(j) => {
                lemma_bump_bounds(g.kill_score, g.players[j].name, -1, -t, t, -(t + 1), t + 1);
                lemma_bump_bounds(g.means_of_death, mode, 1, 0, t, 0, t + 1);
            },
        }
    } else if killed_id != killer_id {
        match find_index(g.players, killer_id) {
            None => {},
            Some(j) => {
                lemma_bump_bounds(g.kill_score, g.players[j].name, 1, -t, t, -(t + 1), t + 1);
                lemma_bump_bounds(g.means_of_death, mode, 1, 0, t, 0, t + 1);
            },
        }
    } else {
        lemma_bump_bounds(g.means_of_death, mode, 1, 0, t, 0, t + 1);
    }
}

/// One match segment's running statistics.
#[derive(Clone, Debug, PartialEq, Eq)]
pub struct Game {
    pub total_kills: usize,
    pub player_list: Vec<String>,
    pub kill_score: ScoreMap,
    pub means_of_death: ModeMap,
    pub players: Vec<Player>,
}

impl View for Game {
    type V = GameView;

    open spec fn view(&self) -> GameView {
        GameView {
            total_kills: self.total_kills as int,
            players: self.players.deep_view(),
            player_list: self.player_list.deep_view(),
            kill_score: self.kill_score@,
            means_of_death: self.means_of_death@,
        }
    }
}

impl DeepView for Game {
    type V = GameView;

    open spec fn deep_view(&self) -> GameView {
        self.view()
    }
}

impl Game {
    pub fn new() -> (g: Game)
        ensures
            g@ == GameView::empty(),
            g@.wf(),
    {
        let g = Game {
            total_kills: 0,
            player_list: Vec::new(),
            kill_score: ScoreMap::new(),
            means_of_death: ModeMap::new(),
            players: Vec::new(),
        };
        proof {
            assert(g@.players =~= Seq::<PlayerView>::empty());
            assert(g@.player_list =~= Seq::<Seq<char>>::empty());
            assert(names_of(g@.players) =~= Seq::<Seq<char>>::empty());
        }
        g
    }

    /// Index of the first roster record with the given id.
    fn index_of(&self, id: u32) -> (r: Option<usize>)
        ensures
            find_index(self@.players, id) == (match r {
                None => None::<int>,
                Some(j) => Some(j as int),
            }),
            r matches Some(j) ==> j < self.players@.len() && self@.players[j as int].id == id,
    {
        let mut i: usize = 0;
        while i < self.players.len()
            invariant
                0 <= i <= self.players@.len(),
                forall|k: int| 0 <= k < i ==> (#[trigger] self@.players[k]).id != id,
            decreases self.players@.len() - i,
        {
            if self.players[i].id == id {
                proof {
                    lemma_find_index_at(self@.players, id, i as int);
                }
                return Some(i);
            }
            i = i + 1;
        }
        proof {
            lemma_find_index_at(self@.players, id, i as int);
        }
        None
    }

    /// Register a connection: a fresh record and an empty name-list slot.
    pub fn new_player(&mut self, id: u32)
        ensures
            final(self)@ == spec_new_player(old(self)@, id),
    {
        self.players.push(Player::new(id));
        self.player_list.push(String::new());
        proof {
            assert(self@.players =~= spec_new_player(old(self)@, id).players);
            assert(self@.player_list =~= spec_new_player(old(self)@, id).player_list);
        }
    }

    /// Mark the player as having entered active play.
    pub fn player_joined(&mut self, id: u32) -> (r: Result<(), LogError>)
        ensures
            ({
                let (g2, e) = spec_begin(old(self)@, id);
                final(self)@ == g2 && r == res_of(e)
            }),
    {
        match self.index_of(id) {
            None => Err(LogError::UnknownPlayer),
            Some(j) => {
                let pid = self.players[j].id;
                let pname = self.players[j].name.clone();
                self.players[j] = Player { id: pid, name: pname, joined: true };
                proof {
                    let (g2, e) = spec_begin(old(self)@, id);
                    assert(self@.players =~= g2.players);
                }
                Ok(())
            },
        }
    }

    /// Set the player's display name and rebuild the name list from the
    /// roster, in connection order.
    pub fn rename_player(&mut self, id: u32, name: String) -> (r: Result<(), LogError>)
        ensures
            ({
                let (g2, e) = spec_rename(old(self)@, id, name@);
                final(self)@ == g2 && r == res_of(e)
            }),
    {
        match self.index_of(id) {
            None => Err(LogError::UnknownPlayer),
            Some(j) => {
                let pid = self.players[j].id;
                let pjoined = self.players[j].joined;
                self.players[j] = Player { id: pid, name, joined: pjoined };
                let mut list: Vec<String> = Vec::new();
                let mut k: usize = 0;
                while k < self.players.len()
                    invariant
                        0 <= k <= self.players@.len(),
                        list.deep_view() == names_of(self.players.deep_view()).take(k as int),
                    decreases self.players@.len() - k,
                {
                    let ghost pre = list.deep_view();
                    list.push(self.players[k].name.clone());
                    proof {
                        assert(list.deep_view() =~= pre.push(self.players.deep_view()[k as int].name));
                        assert(names_of(self.players.deep_view()).take(k as int + 1) =~= pre.push(
                            self.players.deep_view()[k as int].name,
                        ));
                    }
                    k = k + 1;
                }
                self.player_list = list;
                proof {
                    let (g2, e) = spec_rename(old(self)@, id, name@);
                    assert(self@.players =~= g2.players);
                    assert(self@.player_list =~= names_of(self@.players));
                }
                Ok(())
            },
        }
    }

    /// Replay one kill: bump the total, apply the scoring rule by the
    /// current name of the actor it concerns, and record the cause.
    pub fn add_kill(&mut self, killer_id: u32, killed_id: u32, means_of_death: u32) -> (r: Result<
        (),
        LogError,
    >)
        requires
            old(self)@.wf(),
            old(self)@.total_kills < usize::MAX,
        ensures
            ({
                let (g2, e) = spec_add_kill(old(self)@, killer_id, killed_id, means_of_death);
                final(self)@ == g2 && r == res_of(e)
            }),
    {
        self.total_kills = self.total_kills + 1;
        if killer_id == WORLD {
            match self.index_of(killed_id) {
                None => {
                    return Err(LogError::UnknownVictim);
                },
                Some(j) => {
                    let name = self.players[j].name.clone();
                    proof {
                        assert forall|k: int| 0 <= k < self.kill_score@.len() implies i128::MIN
                            <= (#[trigger] self.kill_score@[k]).1 + (-1) <= i128::MAX by {
                            assert(-old(self)@.total_kills <= old(self)@.kill_score[k].1 <= old(
                                self,
                            )@.total_kills);
                        }
                    }
                    self.kill_score.bump(&name, -1);
                },
            }
        } else if killed_id != killer_id {
            match self.index_of(killer_id) {
                None => {
                    return Err(LogError::UnknownAttacker);
                },
                Some(j) => {
                    let name = self.players[j].name.clone();
                    proof {
                        assert forall|k: int| 0 <= k < self.kill_score@.len() implies i128::MIN
                            <= (#[trigger] self.kill_score@[k]).1 + 1 <= i128::MAX by {
                            assert(-old(self)@.total_kills <= old(self)@.kill_score[k].1 <= old(
                                self,
                            )@.total_kills);
                        }
                    }
                    self.kill_score.bump(&name, 1);
                },
            }
        }
        proof {
            assert forall|k: int| 0 <= k < self.means_of_death@.len() implies (
            #[trigger] self.means_of_death@[k]).1 < usize::MAX by {
                assert(0 <= old(self)@.means_of_death[k].1 <= old(self)@.total_kills);
            }
        }
        self.add_kill_mode(KillMode::from_u32(means_of_death));
        Ok(())
    }

    /// Count one more kill by the given cause.
    pub fn add_kill_mode(&mut self, mode: KillMode)
        requires
            forall|k: int| 0 <= k < old(self)@.means_of_death.len() ==> (#[trigger] old(
                self,
            )@.means_of_death[k]).1 < usize::MAX,
        ensures
            final(self)@ == (GameView {
                means_of_death: assoc_bump(old(self)@.means_of_death, mode, 1),
                ..old(self)@
            }),
    {
        proof {
            assert forall|k: int| 0 <= k < self.means_of_death@.len() implies (
            #[trigger] self.means_of_death@[k]).1 < usize::MAX by {
                assert(old(self)@.means_of_death[k] == self.means_of_death@[k]);
            }
        }
        self.means_of_death.bump(mode);
    }
}

} // verus!

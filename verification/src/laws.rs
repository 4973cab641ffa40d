//! Laws of the pipeline, stated over the spec-level models and proved
//! from the transition functions.

use vstd::prelude::*;

use crate::actions::{
    lemma_apply_wf, lemma_empty_wf, spec_apply, spec_parse_game, spec_run, ActionView,
};
use crate::assoc::{assoc_get, lemma_assoc_bump_get_other, lemma_assoc_bump_get_same};
use crate::errors::LogError;
use crate::game::{
    find_index, lemma_find_index_props, spec_add_kill, spec_kill_mode, GameView, WORLD,
};
use crate::player::PlayerView;
use crate::parser::spec_parse;
use crate::text::spec_splitn;

verus! {

/// The number of kill events in an action sequence.
pub open spec fn count_kills(actions: Seq<ActionView>) -> int
    decreases actions.len(),
{
    if actions.len() == 0 {
        0
    } else {
        (if actions[0] is Kill {
            1int
        } else {
            0int
        }) + count_kills(actions.drop_first())
    }
}

proof fn lemma_run_total(g: GameView, actions: Seq<ActionView>)
    ensures
        match spec_run(g, actions) {
            Ok(g2) => g2.total_kills == g.total_kills + count_kills(actions),
            Err(_) => true,
        },
    decreases actions.len(),
{
    if actions.len() > 0 {
        let (g1, e) = spec_apply(g, actions[0]);
        if e is None {
            match actions[0] {
                ActionView::Kill(_, _, _) => {
                    assert(g1.total_kills == g.total_kills + 1);
                },
                _ => {
                    assert(g1.total_kills == g.total_kills);
                },
            }
            lemma_run_total(g1, actions.drop_first());
        }
    }
}

/// Every successfully replayed segment's total is exactly the number of
/// its kill events.
pub proof fn law_total_kills(actions: Seq<ActionView>)
    ensures
        match spec_parse_game(actions) {
            Ok(g) => g.total_kills == count_kills(actions),
            Err(_) => true,
        },
{
    lemma_run_total(GameView::empty(), actions);
}

/// A self-kill that is not an environment kill counts toward the total
/// and the cause tally but never changes any score, and never fails.
pub proof fn law_self_kill(g: GameView, id: u32, cause: u32)
    requires
        id != WORLD,
    ensures
        ({
            let (g2, e) = spec_add_kill(g, id, id, cause);
            &&& e is None
            &&& g2.kill_score == g.kill_score
            &&& g2.total_kills == g.total_kills + 1
            &&& assoc_get(g2.means_of_death, spec_kill_mode(cause)) == Some(
                (match assoc_get(g.means_of_death, spec_kill_mode(cause)) {
                    None => 0int,
                    Some(v) => v,
                }) + 1,
            )
        }),
{
    lemma_assoc_bump_get_same(g.means_of_death, spec_kill_mode(cause), 1);
}

/// An environment kill decrements the victim's current name by exactly
/// one and changes no other score — in particular it credits no attacker.
/// A victim with no record is fatal and leaves every score unchanged.
pub proof fn law_world_kill(g: GameView, victim: u32, cause: u32)
    ensures
        ({
            let (g2, e) = spec_add_kill(g, WORLD, victim, cause);
            match find_index(g.players, victim) {
                None => e == Some(LogError::UnknownVictim) && g2.kill_score == g.kill_score,
                Some(j) => {
                    let name = g.players[j].name;
                    &&& e is None
                    &&& g2.total_kills == g.total_kills + 1
                    &&& assoc_get(g2.kill_score, name) == Some(
                        (match assoc_get(g.kill_score, name) {
                            None => 0int,
                            Some(v) => v,
                        }) - 1,
                    )
                    &&& forall|q: Seq<char>|
                        q != name ==> #[trigger] assoc_get(g2.kill_score, q) == assoc_get(
                            g.kill_score,
                            q,
                        )
                },
            }
        }),
{
    match find_index(g.players, victim) {
        None => {},
        Some(j) => {
            let name = g.players[j].name;
            let (g2, e) = spec_add_kill(g, WORLD, victim, cause);
            lemma_assoc_bump_get_same(g.kill_score, name, -1);
            assert forall|q: Seq<char>| q != name implies #[trigger] assoc_get(g2.kill_score, q)
                == assoc_get(g.kill_score, q) by {
                lemma_assoc_bump_get_other(g.kill_score, name, -1, q);
            }
        },
    }
}

/// The ids of the connect events, in first-seen order.
pub open spec fn connect_ids(actions: Seq<ActionView>) -> Seq<u32>
    decreases actions.len(),
{
    if actions.len() == 0 {
        Seq::empty()
    } else {
        match actions[0] {
            ActionView::ClientConnect(id) => seq![id] + connect_ids(actions.drop_first()),
            _ => connect_ids(actions.drop_first()),
        }
    }
}

/// The roster's ids, in connection order.
pub open spec fn ids_of(ps: Seq<PlayerView>) -> Seq<u32> {
    ps.map_values(|p: PlayerView| p.id)
}

proof fn lemma_run_roster(g: GameView, actions: Seq<ActionView>)
    requires
        g.wf(),
    ensures
        match spec_run(g, actions) {
            Ok(g2) => g2.wf() && ids_of(g2.players) == ids_of(g.players) + connect_ids(actions),
            Err(_) => true,
        },
    decreases actions.len(),
{
    if actions.len() == 0 {
        assert(ids_of(g.players) + connect_ids(actions) =~= ids_of(g.players));
    } else {
        let (g1, e) = spec_apply(g, actions[0]);
        if e is None {
            lemma_apply_wf(g, actions[0]);
            lemma_run_roster(g1, actions.drop_first());
            match spec_run(g1, actions.drop_first()) {
                Err(_) => {},
                Ok(g2) => {
                    match actions[0] {
                        ActionView::ClientConnect(id) => {
                            assert(ids_of(g1.players) =~= ids_of(g.players).push(id));
                            assert(ids_of(g.players).push(id) + connect_ids(actions.drop_first())
                                =~= ids_of(g.players) + (seq![id] + connect_ids(
                                actions.drop_first(),
                            )));
                        },
                        ActionView::ClientBegin(bid) => {
                            lemma_find_index_props(g.players, bid);
                            match find_index(g.players, bid) {
                                None => {},
                                Some(j) => {
                                    assert forall|i: int| 0 <= i < g.players.len() implies (
                                    #[trigger] g1.players[i]).id == g.players[i].id by {
                                        if i != j {
                                            assert(g1.players[i] == g.players[i]);
                                        }
                                    }
                                    assert(ids_of(g1.players) =~= ids_of(g.players));
                                },
                            }
                        },
                        ActionView::ClientUserinfoChanged(rid, raw) => {
                            lemma_find_index_props(g.players, rid);
                            match find_index(g.players, rid) {
                                None => {},
                                Some(j) => {
                                    assert forall|i: int| 0 <= i < g.players.len() implies (
                                    #[trigger] g1.players[i]).id == g.players[i].id by {
                                        if i != j {
                                            assert(g1.players[i] == g.players[i]);
                                        }
                                    }
                                    assert(ids_of(g1.players) =~= ids_of(g.players));
                                },
                            }
                        },
                        _ => {
                            assert(ids_of(g1.players) =~= ids_of(g.players));
                        },
                    }
                },
            }
        }
    }
}

/// The name list has one slot per connect event, in first-seen order, and
/// the roster records the connect ids in order, whatever disconnects
/// happened. When the connect ids are distinct, its length is therefore
/// the number of distinct connected ids.
pub proof fn law_player_names(actions: Seq<ActionView>)
    ensures
        match spec_parse_game(actions) {
            Ok(g) => g.player_list.len() == connect_ids(actions).len() && g.players.len()
                == connect_ids(actions).len() && forall|i: int|
                0 <= i < g.players.len() ==> (#[trigger] g.players[i]).id == connect_ids(
                    actions,
                )[i],
            Err(_) => true,
        },
{
    lemma_empty_wf();
    lemma_run_roster(GameView::empty(), actions);
    match spec_parse_game(actions) {
        Err(_) => {},
        Ok(g) => {
            assert(ids_of(GameView::empty().players) + connect_ids(actions) =~= connect_ids(
                actions,
            ));
            assert(g.player_list.len() == g.players.len());
        },
    }
}

/// When no id reconnects within a segment, the name list's length is
/// exactly the number of distinct connected ids.
pub proof fn law_player_names_distinct(actions: Seq<ActionView>)
    requires
        connect_ids(actions).no_duplicates(),
    ensures
        match spec_parse_game(actions) {
            Ok(g) => g.player_list.len() == connect_ids(actions).to_set().len(),
            Err(_) => true,
        },
{
    law_player_names(actions);
    connect_ids(actions).unique_seq_to_set();
}

/// Ids are untouched by an update that keeps the record's id.
proof fn lemma_find_index_same_ids(ps1: Seq<PlayerView>, ps2: Seq<PlayerView>, id: u32)
    requires
        ps1.len() == ps2.len(),
        forall|i: int| 0 <= i < ps1.len() ==> (#[trigger] ps1[i]).id == ps2[i].id,
    ensures
        find_index(ps1, id) == find_index(ps2, id),
    decreases ps1.len(),
{
    if ps1.len() > 0 {
        assert(ps1[0].id == ps2[0].id);
        assert forall|i: int| 0 <= i < ps1.drop_first().len() implies (#[trigger] ps1.drop_first()[
            i
        ]).id == ps2.drop_first()[i].id by {
            assert(ps1.drop_first()[i] == ps1[i + 1]);
            assert(ps2.drop_first()[i] == ps2[i + 1]);
        }
        lemma_find_index_same_ids(ps1.drop_first(), ps2.drop_first(), id);
    }
}

/// A kill after a rename is credited to the new name, and every other
/// entry — in particular anything scored under the old name — stays as
/// it was.
pub proof fn law_rename_attribution(
    g: GameView,
    id: u32,
    raw: Seq<char>,
    victim: u32,
    cause: u32,
)
    requires
        id != WORLD,
        victim != id,
        spec_splitn(raw, '\\', 3).len() >= 3,
        find_index(g.players, id) is Some,
    ensures
        ({
            let name2 = spec_splitn(raw, '\\', 3)[1];
            let (g1, e1) = spec_apply(g, ActionView::ClientUserinfoChanged(id, raw));
            let (g2, e2) = spec_apply(g1, ActionView::Kill(id, victim, cause));
            &&& e1 is None
            &&& e2 is None
            &&& assoc_get(g2.kill_score, name2) == Some(
                (match assoc_get(g.kill_score, name2) {
                    None => 0int,
                    Some(v) => v,
                }) + 1,
            )
            &&& forall|q: Seq<char>|
                q != name2 ==> #[trigger] assoc_get(g2.kill_score, q) == assoc_get(
                    g.kill_score,
                    q,
                )
        }),
{
    let name2 = spec_splitn(raw, '\\', 3)[1];
    lemma_find_index_props(g.players, id);
    match find_index(g.players, id) {
        None => {},
        Some(j) => {
            let (g1, e1) = spec_apply(g, ActionView::ClientUserinfoChanged(id, raw));
            assert forall|i: int| 0 <= i < g.players.len() implies (#[trigger] g.players[i]).id
                == g1.players[i].id by {}
            lemma_find_index_same_ids(g.players, g1.players, id);
            assert(g1.players[j].name == name2);
            let (g2, e2) = spec_apply(g1, ActionView::Kill(id, victim, cause));
            lemma_assoc_bump_get_same(g1.kill_score, name2, 1);
            assert forall|q: Seq<char>| q != name2 implies #[trigger] assoc_get(g2.kill_score, q)
                == assoc_get(g.kill_score, q) by {
                lemma_assoc_bump_get_other(g1.kill_score, name2, 1, q);
            }
        },
    }
}

/// The pipeline is a function of its input alone: two runs on the same
/// lines yield the same summaries, so re-running it can change nothing.
pub proof fn law_deterministic(
    lines1: Seq<Seq<char>>,
    lines2: Seq<Seq<char>>,
    r1: Result<Seq<GameView>, LogError>,
    r2: Result<Seq<GameView>, LogError>,
)
    requires
        lines1 == lines2,
        r1 == spec_parse(lines1),
        r2 == spec_parse(lines2),
    ensures
        r1 == r2,
{
}

} // verus!

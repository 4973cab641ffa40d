//! Typed log events and their effect on a match accumulator.

use vstd::prelude::*;

use crate::errors::{res_of, LogError};
use crate::game::{
    lemma_add_kill_wf, lemma_begin_wf, lemma_new_player_wf, lemma_rename_wf, names_of,
    spec_add_kill, spec_begin, spec_new_player, spec_rename, Game, GameView,
};
use crate::player::PlayerView;
use crate::text::{spec_splitn, splitn3};

verus! {

/// Spec-level model of an [`Action`].
pub enum ActionView {
    InitGame,
    Kill(u32, u32, u32),
    ClientConnect(u32),
    ClientBegin(u32),
    ClientUserinfoChanged(u32, Seq<char>),
    ClientDisconnect(u32),
    ShutdownGame,
}

/// One typed event tokenized from a log line: match markers, connection
/// lifecycle, identity changes and kills.
#[derive(Debug, PartialEq, Eq)]
pub enum Action {
    InitGame,
    Kill(u32, u32, u32),
    ClientConnect(u32),
    ClientBegin(u32),
    ClientUserinfoChanged(u32, String),
    ClientDisconnect(u32),
    ShutdownGame,
}

impl DeepView for Action {
    type V = ActionView;

    open spec fn deep_view(&self) -> ActionView {
        match self {
            Action::InitGame => ActionView::InitGame,
            Action::Kill(killer, killed, cause) => ActionView::Kill(*killer, *killed, *cause),
            Action::ClientConnect(id) => ActionView::ClientConnect(*id),
            Action::ClientBegin(id) => ActionView::ClientBegin(*id),
            Action::ClientUserinfoChanged(id, raw) => ActionView::ClientUserinfoChanged(
                *id,
                raw@,
            ),
            Action::ClientDisconnect(id) => ActionView::ClientDisconnect(*id),
            Action::ShutdownGame => ActionView::ShutdownGame,
        }
    }
}

impl Clone for Action {
    fn clone(&self) -> (r: Action)
        ensures
            r == self,
    {
        match self {
            Action::InitGame => Action::InitGame,
            Action::Kill(killer, killed, cause) => Action::Kill(*killer, *killed, *cause),
            Action::ClientConnect(id) => Action::ClientConnect(*id),
            Action::ClientBegin(id) => Action::ClientBegin(*id),
            Action::ClientUserinfoChanged(id, raw) => Action::ClientUserinfoChanged(
                *id,
                raw.clone(),
            ),
            Action::ClientDisconnect(id) => Action::ClientDisconnect(*id),
            Action::ShutdownGame => Action::ShutdownGame,
        }
    }
}

/// The effect of one action on the accumulator: the next state, and the
/// fatal error if the action cannot be replayed.
pub open spec fn spec_apply(g: GameView, a: ActionView) -> (GameView, Option<LogError>) {
    match a {
        ActionView::InitGame => (g, None),
        ActionView::ShutdownGame => (g, None),
        ActionView::ClientConnect(id) => (spec_new_player(g, id), None),
        ActionView::ClientBegin(id) => spec_begin(g, id),
        ActionView::ClientUserinfoChanged(id, raw) => {
            let parts = spec_splitn(raw, '\\', 3);
            if parts.len() < 3 {
                (g, Some(LogError::MalformedIdentity))
            } else {
                spec_rename(g, id, parts[1])
            }
        },
        ActionView::ClientDisconnect(_) => (g, None),
        ActionView::Kill(killer, killed, cause) => spec_add_kill(g, killer, killed, cause),
    }
}

/// Replaying any action preserves the invariant and counts at most one
/// kill.
pub proof fn lemma_apply_wf(g: GameView, a: ActionView)
    requires
        g.wf(),
    ensures
        spec_apply(g, a).0.wf(),
        g.total_kills <= spec_apply(g, a).0.total_kills <= g.total_kills + 1,
{
    match a {
        ActionView::InitGame => {},
        ActionView::ShutdownGame => {},
        ActionView::ClientConnect(id) => {
            lemma_new_player_wf(g, id);
        },
        ActionView::ClientBegin(id) => {
            lemma_begin_wf(g, id);
        },
        ActionView::ClientUserinfoChanged(id, raw) => {
            let parts = spec_splitn(raw, '\\', 3);
            if parts.len() >= 3 {
                lemma_rename_wf(g, id, parts[1]);
            }
        },
        ActionView::ClientDisconnect(_) => {},
        ActionView::Kill(killer, killed, cause) => {
            lemma_add_kill_wf(g, killer, killed, cause);
        },
    }
}

/// The empty accumulator satisfies its invariant.
pub proof fn lemma_empty_wf()
    ensures
        GameView::empty().wf(),
{
    assert(names_of(Seq::<PlayerView>::empty()) =~= Seq::<Seq<char>>::empty());
}

/// Replaying a whole segment from state `g`, stopping at the first fatal
/// error.
pub open spec fn spec_run(g: GameView, actions: Seq<ActionView>) -> Result<GameView, LogError>
    decreases actions.len(),
{
    if actions.len() == 0 {
        Ok(g)
    } else {
        let (g2, e) = spec_apply(g, actions[0]);
        match e {
            Some(err) => Err(err),
            None => spec_run(g2, actions.drop_first()),
        }
    }
}

/// The statistics a whole segment derives, from a fresh accumulator.
pub open spec fn spec_parse_game(actions: Seq<ActionView>) -> Result<GameView, LogError> {
    spec_run(GameView::empty(), actions)
}

impl Action {
    /// Replay this action against the accumulator.
    pub fn parse(&self, game: &mut Game) -> (r: Result<(), LogError>)
        requires
            old(game)@.wf(),
            old(game)@.total_kills < usize::MAX,
        ensures
            ({
                let (g2, e) = spec_apply(old(game)@, self.deep_view());
                final(game)@ == g2 && r == res_of(e)
            }),
    {
        match self {
            Action::InitGame => Ok(()),
            Action::ClientConnect(client) => {
                game.new_player(*client);
                Ok(())
            },
            Action::Kill(killer, killed, means_of_death) => {
                match game.add_kill(*killer, *killed, *means_of_death) {
                    Ok(()) => Ok(()),
                    Err(e) => Err(e),
                }
            },
            Action::ClientUserinfoChanged(player, metadata) => {
                let parts = splitn3(metadata.as_str(), '\\');
                if parts.len() < 3 {
                    return Err(LogError::MalformedIdentity);
                }
                let name = parts[1].clone();
                game.rename_player(*player, name)
            },
            Action::ClientBegin(id) => game.player_joined(*id),
            Action::ClientDisconnect(_) => Ok(()),
            Action::ShutdownGame => Ok(()),
        }
    }

    /// Replay a whole segment from a fresh accumulator and return its
    /// statistics, or the first fatal error.
    pub fn parse_game(actions: Vec<Action>) -> (r: Result<Game, LogError>)
        ensures
            match r {
                Ok(g) => spec_parse_game(actions.deep_view()) == Ok::<GameView, LogError>(g@),
                Err(e) => spec_parse_game(actions.deep_view()) == Err::<GameView, LogError>(e),
            },
    {
        let ghost all = actions.deep_view();
        let mut game = Game::new();
        proof {
            lemma_empty_wf();
            assert(all.skip(0) =~= all);
        }
        let mut i: usize = 0;
        while i < actions.len()
            invariant
                0 <= i <= actions@.len(),
                all == actions.deep_view(),
                game@.wf(),
                game@.total_kills <= i,
                spec_parse_game(all) == spec_run(game@, all.skip(i as int)),
            decreases actions@.len() - i,
        {
            let ghost pre = game@;
            proof {
                assert(all.skip(i as int)[0] == all[i as int]);
                assert(all.skip(i as int).drop_first() =~= all.skip(i as int + 1));
            }
            let a = &actions[i];
            match a.parse(&mut game) {
                Ok(()) => {
                    proof {
                        lemma_apply_wf(pre, all[i as int]);
                    }
                },
                Err(e) => {
                    return Err(e);
                },
            }
            i = i + 1;
        }
        proof {
            assert(all.skip(actions@.len() as int) =~= Seq::<ActionView>::empty());
        }
        Ok(game)
    }
}

} // verus!

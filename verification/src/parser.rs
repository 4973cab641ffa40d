//! The three-stage pipeline: tokenize raw lines into actions, group the
//! actions into match segments, and replay each segment into statistics.

use vstd::prelude::*;

use crate::actions::{spec_parse_game, Action, ActionView};
use crate::errors::LogError;
use crate::game::{Game, GameView};
use crate::text::{
    join_from, parse_u32, spec_join, spec_parse_u32, spec_split, spec_trim, spec_trim_colons,
    split_char, str_eq, trim, trim_colons,
};

verus! {

/// The action a single log line stands for: `Ok(None)` for lines that are
/// skipped silently, `Ok(Some(..))` for recognized events, and an error
/// for malformed lines that abort the whole run.
///
/// A line is whitespace-trimmed and split on single spaces; the first
/// field is a timestamp and is ignored, the second is the event keyword.
/// `ClientConnect:` and `ClientBegin:` skip an unparseable id silently;
/// `ClientUserinfoChanged:` and `ClientDisconnect:` treat one as fatal.
pub open spec fn spec_line_action(line: Seq<char>) -> Result<Option<ActionView>, LogError> {
    let parts = spec_split(spec_trim(line), ' ');
    if parts.len() < 2 {
        Ok(None)
    } else {
        let kw = parts[1];
        if kw == "InitGame:"@ {
            Ok(Some(ActionView::InitGame))
        } else if kw == "ShutdownGame:"@ {
            Ok(Some(ActionView::ShutdownGame))
        } else if kw == "Kill:"@ {
            if parts.len() < 5 {
                Err(LogError::MalformedLine)
            } else {
                match (
                    spec_parse_u32(parts[2]),
                    spec_parse_u32(parts[3]),
                    spec_parse_u32(spec_trim_colons(parts[4])),
                ) {
                    (Some(killer), Some(killed), Some(cause)) => Ok(
                        Some(ActionView::Kill(killer, killed, cause)),
                    ),
                    _ => Err(LogError::MalformedLine),
                }
            }
        } else if kw == "ClientConnect:"@ {
            if parts.len() < 3 {
                Err(LogError::MalformedLine)
            } else {
                match spec_parse_u32(parts[2]) {
                    Some(id) => Ok(Some(ActionView::ClientConnect(id))),
                    None => Ok(None),
                }
            }
        } else if kw == "ClientBegin:"@ {
            if parts.len() < 3 {
                Err(LogError::MalformedLine)
            } else {
                match spec_parse_u32(parts[2]) {
                    Some(id) => Ok(Some(ActionView::ClientBegin(id))),
                    None => Ok(None),
                }
            }
        } else if kw == "ClientUserinfoChanged:"@ {
            if parts.len() < 3 {
                Err(LogError::MalformedLine)
            } else {
                match spec_parse_u32(parts[2]) {
                    Some(id) => Ok(
                        Some(
                            ActionView::ClientUserinfoChanged(id, spec_join(parts.skip(3), ' ')),
                        ),
                    ),
                    None => Err(LogError::MalformedLine),
                }
            }
        } else if kw == "ClientDisconnect:"@ {
            if parts.len() < 3 {
                Err(LogError::MalformedLine)
            } else {
                match spec_parse_u32(parts[2]) {
                    Some(id) => Ok(Some(ActionView::ClientDisconnect(id))),
                    None => Err(LogError::MalformedLine),
                }
            }
        } else {
            Ok(None)
        }
    }
}

/// The actions of a whole input, in line order, or the first fatal error.
pub open spec fn spec_tokenize(lines: Seq<Seq<char>>) -> Result<Seq<ActionView>, LogError>
    decreases lines.len(),
{
    if lines.len() == 0 {
        Ok(Seq::empty())
    } else {
        match spec_line_action(lines[0]) {
            Err(e) => Err(e),
            Ok(opt) => match spec_tokenize(lines.drop_first()) {
                Err(e) => Err(e),
                Ok(rest) => Ok(
                    (match opt {
                        None => Seq::<ActionView>::empty(),
                        Some(a) => seq![a],
                    }) + rest,
                ),
            },
        }
    }
}

/// Tokenize one line.
fn line_to_action(line: &String) -> (r: Result<Option<Action>, LogError>)
    ensures
        match r {
            Ok(opt) => spec_line_action(line@) == Ok::<Option<ActionView>, LogError>(
                opt.deep_view(),
            ),
            Err(e) => spec_line_action(line@) == Err::<Option<ActionView>, LogError>(e),
        },
{
    let trimmed = trim(line.as_str());
    let parts = split_char(trimmed.as_str(), ' ');
    if parts.len() < 2 {
        return Ok(None);
    }
    proof {
        assert(parts.deep_view()[1] == parts@[1]@);
    }
    let kw = parts[1].as_str();
    if str_eq(kw, "InitGame:") {
        Ok(Some(Action::InitGame))
    } else if str_eq(kw, "ShutdownGame:") {
        Ok(Some(Action::ShutdownGame))
    } else if str_eq(kw, "Kill:") {
        if parts.len() < 5 {
            return Err(LogError::MalformedLine);
        }
        proof {
            assert(parts.deep_view()[2] == parts@[2]@);
            assert(parts.deep_view()[3] == parts@[3]@);
            assert(parts.deep_view()[4] == parts@[4]@);
        }
        let killer = match parse_u32(parts[2].as_str()) {
            Some(v) => v,
            None => {
                return Err(LogError::MalformedLine);
            },
        };
        let killed = match parse_u32(parts[3].as_str()) {
            Some(v) => v,
            None => {
                return Err(LogError::MalformedLine);
            },
        };
        let cause_field = trim_colons(parts[4].as_str());
        let cause = match parse_u32(cause_field.as_str()) {
            Some(v) => v,
            None => {
                return Err(LogError::MalformedLine);
            },
        };
        Ok(Some(Action::Kill(killer, killed, cause)))
    } else if str_eq(kw, "ClientConnect:") {
        if parts.len() < 3 {
            return Err(LogError::MalformedLine);
        }
        proof {
            assert(parts.deep_view()[2] == parts@[2]@);
        }
        match parse_u32(parts[2].as_str()) {
            Some(id) => Ok(Some(Action::ClientConnect(id))),
            None => Ok(None),
        }
    } else if str_eq(kw, "ClientBegin:") {
        if parts.len() < 3 {
            return Err(LogError::MalformedLine);
        }
        proof {
            assert(parts.deep_view()[2] == parts@[2]@);
        }
        match parse_u32(parts[2].as_str()) {
            Some(id) => Ok(Some(Action::ClientBegin(id))),
            None => Ok(None),
        }
    } else if str_eq(kw, "ClientUserinfoChanged:") {
        if parts.len() < 3 {
            return Err(LogError::MalformedLine);
        }
        proof {
            assert(parts.deep_view()[2] == parts@[2]@);
        }
        match parse_u32(parts[2].as_str()) {
            Some(id) => {
                let rest = join_from(&parts, 3);
                Ok(Some(Action::ClientUserinfoChanged(id, rest)))
            },
            None => Err(LogError::MalformedLine),
        }
    } else if str_eq(kw, "ClientDisconnect:") {
        if parts.len() < 3 {
            return Err(LogError::MalformedLine);
        }
        proof {
            assert(parts.deep_view()[2] == parts@[2]@);
        }
        match parse_u32(parts[2].as_str()) {
            Some(id) => Ok(Some(Action::ClientDisconnect(id))),
            None => Err(LogError::MalformedLine),
        }
    } else {
        Ok(None)
    }
}

/// Tokenize every line, in order, aborting at the first malformed line.
pub fn parse_into_actions(buf: Vec<String>) -> (r: Result<Vec<Action>, LogError>)
    ensures
        match r {
            Ok(v) => spec_tokenize(buf.deep_view()) == Ok::<Seq<ActionView>, LogError>(
                v.deep_view(),
            ),
            Err(e) => spec_tokenize(buf.deep_view()) == Err::<Seq<ActionView>, LogError>(e),
        },
{
    let ghost all = buf.deep_view();
    let mut actions: Vec<Action> = Vec::new();
    let mut i: usize = 0;
    proof {
        assert(all.skip(0) =~= all);
        match spec_tokenize(all) {
            Ok(rest) => {
                assert(actions.deep_view() + rest =~= rest);
            },
            Err(_) => {},
        }
    }
    while i < buf.len()
        invariant
            0 <= i <= buf@.len(),
            all == buf.deep_view(),
            spec_tokenize(all) == (match spec_tokenize(all.skip(i as int)) {
                Ok(rest) => Ok::<Seq<ActionView>, LogError>(actions.deep_view() + rest),
                Err(e) => Err::<Seq<ActionView>, LogError>(e),
            }),
        decreases buf@.len() - i,
    {
        proof {
            assert(all.skip(i as int)[0] == all[i as int]);
            assert(all.skip(i as int).drop_first() =~= all.skip(i as int + 1));
            assert(all[i as int] == buf@[i as int]@);
        }
        let ghost adv = actions.deep_view();
        match line_to_action(&buf[i]) {
            Err(e) => {
                return Err(e);
            },
            Ok(None) => {
                proof {
                    match spec_tokenize(all.skip(i as int + 1)) {
                        Ok(rest) => {
                            assert(Seq::<ActionView>::empty() + rest =~= rest);
                        },
                        Err(_) => {},
                    }
                }
            },
            Ok(Some(a)) => {
                let ghost av = a.deep_view();
                actions.push(a);
                proof {
                    assert(actions.deep_view() =~= adv.push(av));
                    match spec_tokenize(all.skip(i as int + 1)) {
                        Ok(rest) => {
                            assert(adv + (seq![av] + rest) =~= adv.push(av) + rest);
                        },
                        Err(_) => {},
                    }
                }
            },
        }
        i = i + 1;
    }
    proof {
        assert(all.skip(buf@.len() as int) =~= Seq::<Seq<char>>::empty());
        match spec_tokenize(all) {
            Ok(rest) => {},
            Err(_) => {},
        }
        assert(actions.deep_view() + Seq::<ActionView>::empty() =~= actions.deep_view());
    }
    Ok(actions)
}

/// Grouping from a partially filled open buffer: a start marker flushes a
/// non-empty buffer and opens a fresh one; an end marker flushes the
/// buffer including itself; every other action joins the open buffer. A
/// trailing buffer with no end marker is discarded.
pub open spec fn spec_group_from(actions: Seq<ActionView>, cur: Seq<ActionView>) -> Seq<
    Seq<ActionView>,
>
    decreases actions.len(),
{
    if actions.len() == 0 {
        Seq::empty()
    } else {
        match actions[0] {
            ActionView::InitGame => {
                if cur.len() > 0 {
                    seq![cur] + spec_group_from(
                        actions.drop_first(),
                        seq![ActionView::InitGame],
                    )
                } else {
                    spec_group_from(actions.drop_first(), seq![ActionView::InitGame])
                }
            },
            ActionView::ShutdownGame => seq![cur.push(ActionView::ShutdownGame)]
                + spec_group_from(actions.drop_first(), Seq::empty()),
            _ => spec_group_from(actions.drop_first(), cur.push(actions[0])),
        }
    }
}

/// The match segments of an action stream, in input order.
pub open spec fn spec_group(actions: Seq<ActionView>) -> Seq<Seq<ActionView>> {
    spec_group_from(actions, Seq::empty())
}

/// Split the action stream into match segments.
pub fn group_by_game(actions: Vec<Action>) -> (r: Vec<Vec<Action>>)
    ensures
        r.deep_view() == spec_group(actions.deep_view()),
{
    let ghost all = actions.deep_view();
    let mut grouped: Vec<Vec<Action>> = Vec::new();
    let mut game: Vec<Action> = Vec::new();
    let mut i: usize = 0;
    proof {
        assert(all.skip(0) =~= all);
        assert(game.deep_view() =~= Seq::<ActionView>::empty());
        assert(grouped.deep_view() + spec_group_from(all, game.deep_view()) =~= spec_group_from(
            all,
            game.deep_view(),
        ));
    }
    while i < actions.len()
        invariant
            0 <= i <= actions@.len(),
            all == actions.deep_view(),
            spec_group(all) == grouped.deep_view() + spec_group_from(
                all.skip(i as int),
                game.deep_view(),
            ),
        decreases actions@.len() - i,
    {
        proof {
            assert(all.skip(i as int)[0] == all[i as int]);
            assert(all.skip(i as int).drop_first() =~= all.skip(i as int + 1));
        }
        let ghost gdv = game.deep_view();
        let ghost grdv = grouped.deep_view();
        let a = actions[i].clone();
        match &a {
            Action::InitGame => {
                if game.len() > 0 {
                    let flushed = game;
                    game = Vec::new();
                    grouped.push(flushed);
                    proof {
                        assert(grouped.deep_view() =~= grdv.push(gdv));
                        assert(game.deep_view() =~= Seq::<ActionView>::empty());
                    }
                }
                let ghost gdv2 = game.deep_view();
                game.push(a);
                proof {
                    assert(game.deep_view() =~= gdv2.push(ActionView::InitGame));
                    assert(gdv2.push(ActionView::InitGame) =~= seq![ActionView::InitGame]);
                    if gdv.len() > 0 {
                        assert(grdv + (seq![gdv] + spec_group_from(
                            all.skip(i as int + 1),
                            seq![ActionView::InitGame],
                        )) =~= grdv.push(gdv) + spec_group_from(
                            all.skip(i as int + 1),
                            seq![ActionView::InitGame],
                        ));
                    }
                }
            },
            Action::ShutdownGame => {
                game.push(a);
                proof {
                    assert(game.deep_view() =~= gdv.push(ActionView::ShutdownGame));
                }
                let flushed = game;
                game = Vec::new();
                grouped.push(flushed);
                proof {
                    assert(grouped.deep_view() =~= grdv.push(gdv.push(ActionView::ShutdownGame)));
                    assert(game.deep_view() =~= Seq::<ActionView>::empty());
                    assert(grdv + (seq![gdv.push(ActionView::ShutdownGame)] + spec_group_from(
                        all.skip(i as int + 1),
                        Seq::empty(),
                    )) =~= grdv.push(gdv.push(ActionView::ShutdownGame)) + spec_group_from(
                        all.skip(i as int + 1),
                        Seq::empty(),
                    ));
                }
            },
            _ => {
                let ghost av = a.deep_view();
                game.push(a);
                proof {
                    assert(game.deep_view() =~= gdv.push(av));
                }
            },
        }
        i = i + 1;
    }
    proof {
        assert(all.skip(actions@.len() as int) =~= Seq::<ActionView>::empty());
        assert(grouped.deep_view() + Seq::<Seq<ActionView>>::empty() =~= grouped.deep_view());
    }
    grouped
}

/// Each segment's statistics, in segment order, or the first fatal error.
pub open spec fn spec_parse_games(groups: Seq<Seq<ActionView>>) -> Result<Seq<GameView>, LogError>
    decreases groups.len(),
{
    if groups.len() == 0 {
        Ok(Seq::empty())
    } else {
        match spec_parse_game(groups[0]) {
            Err(e) => Err(e),
            Ok(g) => match spec_parse_games(groups.drop_first()) {
                Err(e) => Err(e),
                Ok(gs) => Ok(seq![g] + gs),
            },
        }
    }
}

/// The whole pipeline: tokenize, group, replay each segment.
pub open spec fn spec_parse(lines: Seq<Seq<char>>) -> Result<Seq<GameView>, LogError> {
    match spec_tokenize(lines) {
        Err(e) => Err(e),
        Ok(actions) => spec_parse_games(spec_group(actions)),
    }
}

/// Parse a whole log: one statistics record per match segment, in input
/// order, or the first fatal error, which aborts the entire run.
pub fn parse(buf: Vec<String>) -> (r: Result<Vec<Game>, LogError>)
    ensures
        match r {
            Ok(games) => spec_parse(buf.deep_view()) == Ok::<Seq<GameView>, LogError>(
                games.deep_view(),
            ),
            Err(e) => spec_parse(buf.deep_view()) == Err::<Seq<GameView>, LogError>(e),
        },
{
    let ghost lines = buf.deep_view();
    let actions = match parse_into_actions(buf) {
        Ok(a) => a,
        Err(e) => {
            return Err(e);
        },
    };
    let ghost acts = actions.deep_view();
    let mut groups = group_by_game(actions);
    let ghost allgroups = groups.deep_view();
    let mut games: Vec<Game> = Vec::new();
    proof {
        assert(spec_parse(lines) == spec_parse_games(allgroups));
        match spec_parse_games(allgroups) {
            Ok(rest) => {
                assert(games.deep_view() + rest =~= rest);
            },
            Err(_) => {},
        }
    }
    while groups.len() > 0
        invariant
            lines == buf.deep_view(),
            spec_parse(lines) == spec_parse_games(allgroups),
            spec_parse_games(allgroups) == (match spec_parse_games(groups.deep_view()) {
                Ok(rest) => Ok::<Seq<GameView>, LogError>(games.deep_view() + rest),
                Err(e) => Err::<Seq<GameView>, LogError>(e),
            }),
        decreases groups@.len(),
    {
        let ghost gs = groups.deep_view();
        let ghost gamesdv = games.deep_view();
        let segment = groups.remove(0);
        proof {
            assert(segment.deep_view() == gs[0]);
            assert(groups.deep_view() =~= gs.drop_first());
        }
        match Action::parse_game(segment) {
            Ok(game) => {
                let ghost gv = game@;
                games.push(game);
                proof {
                    assert(games.deep_view() =~= gamesdv.push(gv));
                    match spec_parse_games(gs.drop_first()) {
                        Ok(rest) => {
                            assert(gamesdv + (seq![gv] + rest) =~= gamesdv.push(gv) + rest);
                        },
                        Err(_) => {},
                    }
                }
            },
            Err(e) => {
                return Err(e);
            },
        }
    }
    proof {
        assert(groups.deep_view() =~= Seq::<Seq<ActionView>>::empty());
        assert(games.deep_view() + Seq::<GameView>::empty() =~= games.deep_view());
    }
    Ok(games)
}

} // verus!

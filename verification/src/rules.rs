//! What a step guarantees: which way the game can go from each mode, and
//! that a player's body at the exit goes on to the level that follows.
use vstd::prelude::*;
use crate::contact::{contacts_of, genuine, lemma_contacts_exact, ColliderID, Mobile, Wall};
use crate::geometry::{lemma_overlap_iff_touching, touching};
use crate::grid::over;
use crate::settling::{lemma_pass_keeps_sizes, lemma_unnamed_body_stays, names};
use crate::state::{GameView, Mode};
use crate::step::{
    after_click, after_reply, clicked_cell, collided, entered, level_after, moved, stepped, Input,
};

verus! {

/// The board as a step of play leaves it.
pub open spec fn board_after(v: GameView, input: Input, r: usize, c: usize) -> Seq<Seq<usize>> {
    let click = after_click(v.grid, v.player, clicked_cell(v.mouse_down, input));
    after_reply(click.0, click.1, r, c).0
}

/// The game goes from the title screen to play, from play to its end, and
/// from its end back to play, and no other way. It leaves the title screen
/// when the start key or the load key is held, play when a line is held or
/// the board is full, and the end when the start key is held.
pub proof fn lemma_transitions(v: GameView, input: Input, r: usize, c: usize)
    ensures
        v.mode == Mode::TitleScreen ==> stepped(v, input, r, c).mode == if input.start
            || input.load {
            Mode::GamePlay
        } else {
            Mode::TitleScreen
        },
        v.mode == Mode::GamePlay ==> stepped(v, input, r, c).mode == if over(
            board_after(v, input, r, c),
        ) {
            Mode::EndGame
        } else {
            Mode::GamePlay
        },
        v.mode == Mode::EndGame ==> stepped(v, input, r, c).mode == if input.start {
            Mode::GamePlay
        } else {
            Mode::EndGame
        },
{
}

/// Whatever the step, the levels, the places where a new game finds the
/// bodies, and the number of bodies stay as they are, and the state stays one
/// that a step can work on.
pub proof fn lemma_step_keeps_shape(v: GameView, input: Input, r: usize, c: usize)
    requires
        v.wf(),
        r < 3,
        c < 3,
    ensures
        stepped(v, input, r, c).levels == v.levels,
        stepped(v, input, r, c).initial_mobiles == v.initial_mobiles,
        stepped(v, input, r, c).mobiles.len() == v.mobiles.len(),
        stepped(v, input, r, c).mouse_down == input.mouse_held,
        stepped(v, input, r, c).wf(),
{
    if v.mode == Mode::GamePlay {
        let walls = v.levels[v.current_level as int].gamemap@;
        let bodies = moved(v.mobiles, input);
        lemma_collided_count(walls, bodies);
    }
}

/// Contacts and their correction keep the number of bodies.
pub proof fn lemma_collided_count(walls: Seq<Wall>, bodies: Seq<Mobile>)
    ensures
        collided(walls, bodies).len() == bodies.len(),
{
    lemma_pass_keeps_sizes(walls, bodies, contacts_of(walls, bodies));
}

/// A player's body that, once moved, touches the exit of its level and
/// touches neither a wall nor another body goes on: the level that follows
/// becomes the current one, and the body stands at that level's entry.
pub proof fn lemma_exit_leads_on(v: GameView, input: Input, r: usize, c: usize)
    requires
        v.wf(),
        v.mode == Mode::GamePlay,
        v.mobiles.len() <= usize::MAX,
        v.levels[v.current_level as int].gamemap@.len() <= usize::MAX,
        touching(moved(v.mobiles, input)[0].rect, v.levels[v.current_level as int].exit),
        forall|k: int|
            0 <= k < v.levels[v.current_level as int].gamemap@.len() ==> !touching(
                moved(v.mobiles, input)[0].rect,
                (#[trigger] v.levels[v.current_level as int].gamemap@[k]).rect,
            ),
        forall|j: int|
            0 < j < v.mobiles.len() ==> !touching(
                moved(v.mobiles, input)[0].rect,
                (#[trigger] moved(v.mobiles, input)[j]).rect,
            ),
    ensures
        stepped(v, input, r, c).current_level == level_after(v.current_level, v.levels.len()),
        stepped(v, input, r, c).mobiles[0] == entered(
            moved(v.mobiles, input)[0],
            v.levels[level_after(v.current_level, v.levels.len()) as int].position,
        ),
{
    let walls = v.levels[v.current_level as int].gamemap@;
    let bodies = moved(v.mobiles, input);
    let contacts = contacts_of(walls, bodies);
    lemma_contacts_exact(walls, bodies);
    assert forall|k: int| 0 <= k < contacts.len() implies !names(#[trigger] contacts[k], 0) by {
        let found = contacts[k];
        assert(genuine(walls, bodies, found));
        if names(found, 0) {
            match found.b {
                ColliderID::Static(w) => {
                    lemma_overlap_iff_touching(bodies[0].rect, walls[w as int].rect);
                    assert(touching(bodies[0].rect, walls[w as int].rect));
                },
                ColliderID::Dynamic(j) => {
                    lemma_overlap_iff_touching(bodies[0].rect, bodies[j as int].rect);
                    assert(touching(bodies[0].rect, bodies[j as int].rect));
                },
            }
        }
    }
    lemma_unnamed_body_stays(walls, bodies, contacts, 0);
}

} // verus!

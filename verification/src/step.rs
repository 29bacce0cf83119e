//! One step of the game: what the player asked for is applied, the bodies
//! move, contacts are found and corrected, and the rules decide what the game
//! does next.
use rand::Rng;
use vstd::prelude::*;
use crate::contact::{
    contacts_of, gather_contacts, genuine, lemma_contacts_exact, Contact, Mobile, Wall,
};
use crate::geometry::{rect_touching, touching, Rect, Vec2i};
use crate::grid::{
    cell_at, cell_under, has_won, is_full, over, set_cell, with_cell, CIRCLE, CROSS, EMPTY,
};
use crate::persist::{decode_model, decoded, encode_model, json_text};
use crate::resolve::{clamp_coord, clamp_to_coord, contact_valid, resolved, restitute};
use crate::sprite::Sprite;
use crate::state::{GameState, GameView, Mode, ResetGame};

verus! {

/// What the player and the outside world hand to one step.
pub struct Input {
    /// The key that starts or restarts a game is held.
    pub start: bool,
    /// The key that asks for the saved board is held.
    pub load: bool,
    /// The key that asks for the board to be saved is held.
    pub save: bool,
    /// The pointer's button is held.
    pub mouse_held: bool,
    /// Where the pointer is, in pixels of the framebuffer, if it is over it.
    pub mouse_pixel: Option<(usize, usize)>,
    /// The velocity asked of the player's body, in pixels per step.
    pub move_x: i32,
    pub move_y: i32,
    /// The text of the saved board, if there is one to be had.
    pub saved: Option<String>,
}

impl Input {
    /// The saved text as a sequence of characters.
    pub open spec fn saved_text(self) -> Option<Seq<char>> {
        match self.saved {
            Some(s) => Some(s@),
            None => None,
        }
    }
}

/// The cell that the player has just chosen: the one under the pointer at the
/// moment its button is let go.
pub open spec fn clicked_cell(mouse_down: bool, input: Input) -> Option<(usize, usize)> {
    if mouse_down && !input.mouse_held {
        match input.mouse_pixel {
            Some((x, y)) => cell_under(x, y),
            None => None,
        }
    } else {
        None
    }
}

/// The board and the mark to move after the circles have chosen a cell: the
/// mark is placed if it is the circles' move and the cell is empty, and the
/// move passes to the crosses.
pub open spec fn after_click(grid: Seq<Seq<usize>>, player: usize, cell: Option<(usize, usize)>)
    -> (Seq<Seq<usize>>, usize) {
    match cell {
        Some((r, c)) => if player == CIRCLE && grid[r as int][c as int] == EMPTY {
            (with_cell(grid, r as int, c as int, CIRCLE), CROSS)
        } else {
            (grid, player)
        },
        None => (grid, player),
    }
}

/// The board and the mark to move after the crosses have tried the cell that
/// chance gave them: the mark is placed if it is the crosses' move and the
/// cell is empty, and the move passes to the circles.
pub open spec fn after_reply(grid: Seq<Seq<usize>>, player: usize, r: usize, c: usize) -> (
    Seq<Seq<usize>>,
    usize,
) {
    if player == CROSS && grid[r as int][c as int] == EMPTY {
        (with_cell(grid, r as int, c as int, CROSS), CIRCLE)
    } else {
        (grid, player)
    }
}

/// A body one step later: moved by its velocity, within the coordinate type.
pub open spec fn advanced(m: Mobile) -> Mobile {
    Mobile {
        rect: Rect {
            x: clamp_coord(m.rect.x + m.vx),
            y: clamp_coord(m.rect.y + m.vy),
            w: m.rect.w,
            h: m.rect.h,
        },
        vx: m.vx,
        vy: m.vy,
    }
}

/// The bodies after movement: the player's body takes the velocity that the
/// input asks for, then every body moves by its velocity.
pub open spec fn moved(mobiles: Seq<Mobile>, input: Input) -> Seq<Mobile> {
    Seq::new(
        mobiles.len(),
        |i: int|
            if i == 0 {
                advanced(Mobile { rect: mobiles[0].rect, vx: input.move_x, vy: input.move_y })
            } else {
                advanced(mobiles[i])
            },
    )
}

/// The bodies after the contacts among them and with the walls have been
/// found and corrected.
pub open spec fn collided(walls: Seq<Wall>, bodies: Seq<Mobile>) -> Seq<Mobile> {
    resolved(walls, bodies, contacts_of(walls, bodies))
}

/// The level that follows `current`: the next one, or the first after the
/// last.
pub open spec fn level_after(current: usize, count: nat) -> usize {
    if current + 1 < count {
        (current + 1) as usize
    } else {
        0
    }
}

/// A body put at the place where a level is entered.
pub open spec fn entered(m: Mobile, at: Vec2i) -> Mobile {
    Mobile { rect: Rect { x: at.0, y: at.1, w: m.rect.w, h: m.rect.h }, vx: m.vx, vy: m.vy }
}

/// A sprite moved by an offset, within the coordinate type.
pub open spec fn drifted(s: Sprite, dx: int, dy: int) -> Sprite {
    Sprite {
        position: Vec2i(clamp_coord(s.position.0 + dx), clamp_coord(s.position.1 + dy)),
        ..s
    }
}

/// The board after the player has asked for the saved one: the saved board
/// where there is a text and it reads as a board, the present one otherwise.
pub open spec fn loaded(grid: Seq<Seq<usize>>, saved: Option<Seq<char>>) -> Seq<Seq<usize>> {
    match saved {
        Some(text) => match decoded(text) {
            Ok(g) => g,
            Err(_) => grid,
        },
        None => grid,
    }
}

/// A step on the title screen: the start key begins the game; failing that,
/// the load key takes the saved board and begins the game.
pub open spec fn titled(v: GameView, input: Input) -> GameView {
    if input.start {
        GameView { mode: Mode::GamePlay, mouse_down: input.mouse_held, ..v }
    } else if input.load {
        GameView {
            mode: Mode::GamePlay,
            grid: loaded(v.grid, input.saved_text()),
            mouse_down: input.mouse_held,
            ..v
        }
    } else {
        GameView { mouse_down: input.mouse_held, ..v }
    }
}

/// A step of play. The circles' choice and the crosses' reply are placed; the
/// bodies move and their contacts with each other and with the walls of the
/// level are corrected; a player's body that touches the exit goes to the
/// entry of the level that follows; and the game ends when a line is held or
/// the board is full.
pub open spec fn played(v: GameView, input: Input, r: usize, c: usize) -> GameView {
    let click = after_click(v.grid, v.player, clicked_cell(v.mouse_down, input));
    let reply = after_reply(click.0, click.1, r, c);
    let level = v.levels[v.current_level as int];
    let bodies = collided(level.gamemap@, moved(v.mobiles, input));
    let next = level_after(v.current_level, v.levels.len());
    let out = touching(bodies[0].rect, level.exit);
    GameView {
        grid: reply.0,
        player: reply.1,
        mobiles: if out {
            bodies.update(0, entered(bodies[0], v.levels[next as int].position))
        } else {
            bodies
        },
        current_level: if out {
            next
        } else {
            v.current_level
        },
        mode: if over(reply.0) {
            Mode::EndGame
        } else {
            Mode::GamePlay
        },
        mouse_down: input.mouse_held,
        ..v
    }
}

/// A step after the end of a game: the two sprites of the end screen drift,
/// and the start key begins a new game.
pub open spec fn ended(v: GameView, input: Input) -> GameView {
    let sprites = v.sprites.update(0, drifted(v.sprites[0], 1, 1)).update(
        1,
        drifted(v.sprites[1], 1, -1),
    );
    let w = GameView { sprites: sprites, mouse_down: input.mouse_held, ..v };
    if input.start {
        GameView { mode: Mode::GamePlay, ..w.reset() }
    } else {
        w
    }
}

/// The state after one step, given the cell that chance offers the crosses.
pub open spec fn stepped(v: GameView, input: Input, r: usize, c: usize) -> GameView {
    match v.mode {
        Mode::TitleScreen => titled(v, input),
        Mode::GamePlay => played(v, input, r, c),
        Mode::EndGame => ended(v, input),
    }
}

/// The text that a step hands out to be saved: the board as the step found
/// it, during play and while the save key is held.
pub open spec fn written(v: GameView, input: Input) -> Option<Seq<char>> {
    if v.mode == Mode::GamePlay && input.save {
        json_text(v.grid)
    } else {
        None
    }
}

/// Gives the player's body the velocity asked for and moves every body by
/// its velocity.
fn move_bodies(mobiles: &mut Vec<Mobile>, input: &Input)
    requires
        old(mobiles)@.len() >= 1,
    ensures
        final(mobiles)@ == moved(old(mobiles)@, *input),
{
    let ghost before = mobiles@;
    let n: usize = mobiles.len();
    let mut i: usize = 0;
    while i < n
        invariant
            i <= n,
            n == before.len(),
            mobiles@.len() == n,
            n >= 1,
            forall|k: int| 0 <= k < i ==> mobiles@[k] == moved(before, *input)[k],
            forall|k: int| i <= k < n ==> mobiles@[k] == before[k],
        decreases n - i,
    {
        let m: Mobile = mobiles[i];
        let vx: i32 = if i == 0 { input.move_x } else { m.vx };
        let vy: i32 = if i == 0 { input.move_y } else { m.vy };
        mobiles[i] = Mobile {
            rect: Rect {
                x: clamp_to_coord(m.rect.x as i64 + vx as i64),
                y: clamp_to_coord(m.rect.y as i64 + vy as i64),
                w: m.rect.w,
                h: m.rect.h,
            },
            vx,
            vy,
        };
        i = i + 1;
    }
    assert(mobiles@ =~= moved(before, *input));
}

/// Finds the contacts among the bodies and with the walls, and corrects them.
pub fn collide(walls: &[Wall], mobiles: &mut Vec<Mobile>)
    ensures
        final(mobiles)@ == collided(walls@, old(mobiles)@),
        final(mobiles)@.len() == old(mobiles)@.len(),
{
    let mut contacts: Vec<Contact> = Vec::new();
    gather_contacts(walls, mobiles.as_slice(), &mut contacts);
    proof {
        assert(mobiles.len() == mobiles@.len() && walls.len() == walls@.len());
        lemma_contacts_exact(walls@, mobiles@);
        assert(contacts@ =~= contacts_of(walls@, mobiles@));
        assert forall|i: int| 0 <= i < contacts@.len() implies contact_valid(
            #[trigger] contacts@[i],
            walls@.len(),
            mobiles@.len(),
        ) by {
            assert(genuine(walls@, mobiles@, contacts@[i]));
        }
    }
    restitute(walls, mobiles.as_mut_slice(), contacts.as_mut_slice());
}

/// A step on the title screen.
fn title_step(state: &mut GameState, input: &Input)
    requires
        old(state).wf(),
        old(state).mode == Mode::TitleScreen,
    ensures
        final(state)@ == titled(old(state)@, *input),
        final(state).wf(),
{
    if input.start {
        state.mode = Mode::GamePlay;
    } else if input.load {
        match &input.saved {
            Some(text) => {
                match decode_model(text.as_str()) {
                    Ok(model) => {
                        state.model = model;
                    },
                    Err(_) => {},
                }
            },
            None => {},
        }
        state.mode = Mode::GamePlay;
    }
    state.mouse_down = input.mouse_held;
    assert(state@ =~= titled(old(state)@, *input));
}

/// A step of play.
fn play_step(state: &mut GameState, input: &Input, r: usize, c: usize)
    requires
        old(state).wf(),
        old(state).mode == Mode::GamePlay,
        r < 3,
        c < 3,
    ensures
        final(state)@ == played(old(state)@, *input, r, c),
        final(state).wf(),
{
    let ghost v = state@;
    if state.mouse_down && !input.mouse_held {
        if let Some((x, y)) = input.mouse_pixel {
            if let Some((cr, cc)) = cell_at(x, y) {
                if state.player == CIRCLE && state.model[cr][cc] == EMPTY {
                    set_cell(&mut state.model, cr, cc, CIRCLE);
                    state.player = CROSS;
                }
            }
        }
    }
    assert(state@.grid == after_click(v.grid, v.player, clicked_cell(v.mouse_down, *input)).0);
    assert(state.player == after_click(v.grid, v.player, clicked_cell(v.mouse_down, *input)).1);
    let ghost click = (state@.grid, state.player);
    if state.player == CROSS && state.model[r][c] == EMPTY {
        set_cell(&mut state.model, r, c, CROSS);
        state.player = CIRCLE;
    }
    assert(state@.grid == after_reply(click.0, click.1, r, c).0);
    assert(state.player == after_reply(click.0, click.1, r, c).1);
    move_bodies(&mut state.mobiles, input);
    let current: usize = state.current_level;
    collide(state.levels[current].gamemap.as_slice(), &mut state.mobiles);
    let body: Mobile = state.mobiles[0];
    if rect_touching(body.rect, state.levels[current].exit) {
        let count: usize = state.levels.len();
        let next: usize = if current + 1 < count {
            current + 1
        } else {
            0
        };
        let at: Vec2i = state.levels[next].position;
        state.mobiles[0] = Mobile {
            rect: Rect { x: at.0, y: at.1, w: body.rect.w, h: body.rect.h },
            vx: body.vx,
            vy: body.vy,
        };
        state.current_level = next;
    }
    if has_won(&state.model, CIRCLE) || has_won(&state.model, CROSS) || is_full(&state.model) {
        state.mode = Mode::EndGame;
    }
    state.mouse_down = input.mouse_held;
    assert(state@ =~= played(v, *input, r, c));
}

/// A step after the end of a game.
fn end_step(state: &mut GameState, input: &Input)
    requires
        old(state).wf(),
        old(state).mode == Mode::EndGame,
    ensures
        final(state)@ == ended(old(state)@, *input),
        final(state).wf(),
{
    let ghost v = state@;
    let first: Vec2i = state.sprites[0].position;
    state.sprites[0].position = Vec2i(
        clamp_to_coord(first.0 as i64 + 1),
        clamp_to_coord(first.1 as i64 + 1),
    );
    let second: Vec2i = state.sprites[1].position;
    state.sprites[1].position = Vec2i(
        clamp_to_coord(second.0 as i64 + 1),
        clamp_to_coord(second.1 as i64 - 1),
    );
    state.mouse_down = input.mouse_held;
    let ghost w = state@;
    assert(w =~= (GameView {
        sprites: v.sprites.update(0, drifted(v.sprites[0], 1, 1)).update(
            1,
            drifted(v.sprites[1], 1, -1),
        ),
        mouse_down: input.mouse_held,
        ..v
    }));
    if input.start {
        ResetGame(state);
        state.mode = Mode::GamePlay;
    }
    assert(state@ =~= ended(v, *input));
}

/// One step of the game, with the cell that chance offers the crosses given.
/// Returns the text to be saved, if the step asks for the board to be saved
/// and the encoder gives one.
pub fn step_game(state: &mut GameState, input: &Input, r: usize, c: usize) -> (text: Option<
    String,
>)
    requires
        old(state).wf(),
        r < 3,
        c < 3,
    ensures
        final(state)@ == stepped(old(state)@, *input, r, c),
        final(state).wf(),
        match text {
            Some(t) => written(old(state)@, *input) == Some(t@),
            None => written(old(state)@, *input).is_none(),
        },
{
    match state.mode {
        Mode::TitleScreen => {
            title_step(state, input);
            None
        },
        Mode::GamePlay => {
            let text: Option<String> = if input.save {
                encode_model(&state.model)
            } else {
                None
            };
            play_step(state, input, r, c);
            text
        },
        Mode::EndGame => {
            end_step(state, input);
            None
        },
    }
}

/// `Rng::gen_range` of `rand`, on the generator that `rand::thread_rng`
/// hands out: a number drawn by chance that is at least `low` and less than
/// `high`. The contract says no more than that; two calls may differ.
#[verifier::external_body]
fn random_between(low: usize, high: usize) -> (n: usize)
    requires
        low < high,
    ensures
        low <= n < high,
{
    rand::thread_rng().gen_range(low, high)
}

/// `after` is what one step makes of `before` for some cell that chance may
/// offer the crosses.
pub open spec fn step_of(before: GameView, input: Input, after: GameView) -> bool {
    exists|r: usize, c: usize| r < 3 && c < 3 && #[trigger] stepped(before, input, r, c) == after
}

/// Chance decides a step only where the crosses are to reply: on the title
/// screen, after the end of a game, and during play while the move is not
/// theirs once the circles' choice is placed, every cell offered gives the
/// same state.
pub proof fn lemma_chance_only_in_reply(v: GameView, input: Input, r: usize, c: usize)
    requires
        v.mode == Mode::GamePlay ==> after_click(
            v.grid,
            v.player,
            clicked_cell(v.mouse_down, input),
        ).1 != CROSS,
    ensures
        stepped(v, input, r, c) == stepped(v, input, 0, 0),
{
}

/// One step of the game. The cell that the crosses try is drawn by chance;
/// everything else is fixed by the state and the input. Returns the text to
/// be saved, if the step asks for the board to be saved and the encoder
/// gives one. `frame` counts the steps made so far and decides nothing.
pub fn update_game(state: &mut GameState, input: &Input, frame: usize) -> (text: Option<String>)
    requires
        old(state).wf(),
    ensures
        step_of(old(state)@, *input, final(state)@),
        final(state).wf(),
        match text {
            Some(t) => written(old(state)@, *input) == Some(t@),
            None => written(old(state)@, *input).is_none(),
        },
{
    let r: usize = random_between(0, 3);
    let c: usize = random_between(0, 3);
    step_game(state, input, r, c)
}

} // verus!

//! The state of a game and the rules that read it: who holds a line, whether
//! the board is tied, and what a new game starts from.
use std::rc::Rc;
use vstd::prelude::*;
use crate::contact::{Mobile, Wall};
use crate::geometry::{Rect, Vec2i};
use crate::grid::{
    blank, has_won, is_board, is_full, is_grid, set_cell, tied, won, CIRCLE, CROSS, EMPTY,
};
use crate::sprite::{Animation, Sprite, Texture};

verus! {

/// What the game is doing: waiting to start, being played, or over.
#[derive(Clone, Copy, PartialEq, Eq, Debug, Structural)]
pub enum Mode {
    TitleScreen,
    GamePlay,
    EndGame,
}

/// One level: its walls, the rectangle that leads out of it, and the place
/// where the player's body enters it.
pub struct Level {
    pub gamemap: Vec<Wall>,
    pub exit: Rect,
    pub position: Vec2i,
}

/// Everything that a step of the game reads or changes.
pub struct GameState {
    /// The mark that moves next.
    pub player: usize,
    pub animations: Vec<Animation>,
    pub textures: Vec<Rc<Texture>>,
    pub sprites: Vec<Sprite>,
    pub levels: Vec<Level>,
    pub current_level: usize,
    pub mode: Mode,
    /// The board, indexed by column of the screen and then by row.
    pub model: Vec<Vec<usize>>,
    /// Whether the pointer's button was held at the end of the last step.
    pub mouse_down: bool,
    /// The bodies; the first is the player's.
    pub mobiles: Vec<Mobile>,
    /// The bodies as a new game finds them.
    pub initial_mobiles: Vec<Mobile>,
}

/// The state of a game as plain mathematical values.
#[verifier::ext_equal]
pub struct GameView {
    pub player: usize,
    pub animations: Seq<Animation>,
    pub textures: Seq<Rc<Texture>>,
    pub sprites: Seq<Sprite>,
    pub levels: Seq<Level>,
    pub current_level: usize,
    pub mode: Mode,
    pub grid: Seq<Seq<usize>>,
    pub mouse_down: bool,
    pub mobiles: Seq<Mobile>,
    pub initial_mobiles: Seq<Mobile>,
}

impl View for GameState {
    type V = GameView;

    open spec fn view(&self) -> GameView {
        GameView {
            player: self.player,
            animations: self.animations@,
            textures: self.textures@,
            sprites: self.sprites@,
            levels: self.levels@,
            current_level: self.current_level,
            mode: self.mode,
            grid: self.model.deep_view(),
            mouse_down: self.mouse_down,
            mobiles: self.mobiles@,
            initial_mobiles: self.initial_mobiles@,
        }
    }
}

impl GameView {
    /// The state is one that a step can work on: the board is three by
    /// three, there is a current level, there is a player's body, each body
    /// has a place to start from, and the two sprites of the end screen exist.
    pub open spec fn wf(self) -> bool {
        &&& is_grid(self.grid)
        &&& self.current_level < self.levels.len()
        &&& self.mobiles.len() >= 1
        &&& self.initial_mobiles.len() == self.mobiles.len()
        &&& self.sprites.len() >= 2
    }

    /// The state from which a new game starts: an empty board, the first
    /// mark to move, and every body where a new game finds it. The mode, the
    /// current level and everything else stay as they are.
    pub open spec fn reset(self) -> GameView {
        GameView { player: CIRCLE, grid: blank(), mobiles: self.initial_mobiles, ..self }
    }
}

impl GameState {
    /// The state is one that a step can work on.
    pub open spec fn wf(&self) -> bool {
        self@.wf()
    }

    /// Whether the state is one that a step can work on.
    pub fn is_valid(&self) -> (b: bool)
        ensures
            b == self.wf(),
    {
        is_board(&self.model) && self.current_level < self.levels.len() && self.mobiles.len() >= 1
            && self.initial_mobiles.len() == self.mobiles.len() && self.sprites.len() >= 2
    }

    /// The state in which a program starts: the title screen, an empty
    /// board, the circles to move, the first level, and the bodies where
    /// they are given, which is where every new game will find them. There
    /// must be a level, a body for the player and the two sprites of the
    /// end screen; otherwise there is no such state.
    pub fn new(
        levels: Vec<Level>,
        mobiles: Vec<Mobile>,
        sprites: Vec<Sprite>,
        animations: Vec<Animation>,
        textures: Vec<Rc<Texture>>,
    ) -> (made: Option<GameState>)
        ensures
            made.is_some() <==> levels@.len() >= 1 && mobiles@.len() >= 1 && sprites@.len() >= 2,
            made matches Some(state) ==> state.wf() && state@ == (GameView {
                player: CIRCLE,
                animations: animations@,
                textures: textures@,
                sprites: sprites@,
                levels: levels@,
                current_level: 0,
                mode: Mode::TitleScreen,
                grid: blank(),
                mouse_down: false,
                mobiles: mobiles@,
                initial_mobiles: mobiles@,
            }),
    {
        if levels.len() < 1 || mobiles.len() < 1 || sprites.len() < 2 {
            return None;
        }
        let n: usize = mobiles.len();
        let mut initial_mobiles: Vec<Mobile> = Vec::new();
        let mut k: usize = 0;
        while k < n
            invariant
                k <= n,
                n == mobiles@.len(),
                initial_mobiles@ == mobiles@.take(k as int),
            decreases n - k,
        {
            initial_mobiles.push(mobiles[k]);
            assert(mobiles@.take(k as int).push(mobiles@[k as int]) =~= mobiles@.take(k + 1));
            k = k + 1;
        }
        assert(mobiles@.take(n as int) =~= mobiles@);
        let mut model: Vec<Vec<usize>> = Vec::new();
        let mut r: usize = 0;
        while r < 3
            invariant
                r <= 3,
                model@.len() == r,
                forall|i: int| 0 <= i < r ==> (#[trigger] model@[i])@ =~= seq![EMPTY, EMPTY, EMPTY],
            decreases 3 - r,
        {
            let mut row: Vec<usize> = Vec::new();
            row.push(EMPTY);
            row.push(EMPTY);
            row.push(EMPTY);
            model.push(row);
            r = r + 1;
        }
        assert(model.deep_view() =~~= blank()) by {
            assert forall|i: int| 0 <= i < 3 implies model.deep_view()[i] =~= blank()[i] by {
                assert(model@[i]@ =~= seq![EMPTY, EMPTY, EMPTY]);
            }
        }
        let state = GameState {
            player: CIRCLE,
            animations,
            textures,
            sprites,
            levels,
            current_level: 0,
            mode: Mode::TitleScreen,
            model,
            mouse_down: false,
            mobiles,
            initial_mobiles,
        };
        Some(state)
    }
}

/// Whether the circles hold a line. The state is not changed.
pub fn gameOverCircle(state: &mut GameState) -> (b: bool)
    requires
        is_grid(old(state)@.grid),
    ensures
        b == won(old(state)@.grid, CIRCLE),
        *final(state) == *old(state),
{
    has_won(&state.model, CIRCLE)
}

/// Whether the crosses hold a line. The state is not changed.
pub fn gameOverCross(state: &mut GameState) -> (b: bool)
    requires
        is_grid(old(state)@.grid),
    ensures
        b == won(old(state)@.grid, CROSS),
        *final(state) == *old(state),
{
    has_won(&state.model, CROSS)
}

/// Whether the game is tied: the board is full and neither mark holds a
/// line. The state is not changed.
pub fn tie(state: &mut GameState) -> (b: bool)
    requires
        is_grid(old(state)@.grid),
    ensures
        b == tied(old(state)@.grid),
        *final(state) == *old(state),
{
    is_full(&state.model) && !has_won(&state.model, CIRCLE) && !has_won(&state.model, CROSS)
}

/// A new game has no winner and is not tied, and starting it twice is
/// starting it once.
pub proof fn lemma_reset(v: GameView)
    ensures
        is_grid(v.reset().grid),
        !won(v.reset().grid, CIRCLE),
        !won(v.reset().grid, CROSS),
        !tied(v.reset().grid),
        v.reset().reset() == v.reset(),
        v.reset().mode == v.mode,
        v.reset().current_level == v.current_level,
        v.reset().levels == v.levels,
        v.reset().mouse_down == v.mouse_down,
        v.reset().initial_mobiles == v.initial_mobiles,
        v.wf() ==> v.reset().wf(),
{
    let g = v.reset().grid;
    assert(g[0][0] == EMPTY);
}

/// Starts a new game: empties the board, gives the move to the circles and
/// puts every body back where a new game finds it. The mode and the current
/// level are left as they are. The board must be three by three, and each
/// body must have a place to start from.
pub fn ResetGame(state: &mut GameState)
    requires
        is_grid(old(state)@.grid),
        old(state)@.initial_mobiles.len() == old(state)@.mobiles.len(),
    ensures
        final(state)@ == old(state)@.reset(),
        old(state).wf() ==> final(state).wf(),
{
    let mut i: usize = 0;
    while i < 3
        invariant
            i <= 3,
            is_grid(state@.grid),
            forall|r: int, c: int| 0 <= r < i && 0 <= c < 3 ==> state@.grid[r][c] == EMPTY,
            state@ == (GameView { grid: state@.grid, ..old(state)@ }),
        decreases 3 - i,
    {
        let mut j: usize = 0;
        while j < 3
            invariant
                i < 3,
                j <= 3,
                is_grid(state@.grid),
                forall|r: int, c: int| 0 <= r < i && 0 <= c < 3 ==> state@.grid[r][c] == EMPTY,
                forall|c: int| 0 <= c < j ==> state@.grid[i as int][c] == EMPTY,
                state@ == (GameView { grid: state@.grid, ..old(state)@ }),
            decreases 3 - j,
        {
            set_cell(&mut state.model, i, j, EMPTY);
            j = j + 1;
        }
        i = i + 1;
    }
    state.player = CIRCLE;
    let n: usize = state.mobiles.len();
    let mut k: usize = 0;
    while k < n
        invariant
            k <= n,
            n == state.mobiles@.len(),
            n == state.initial_mobiles@.len(),
            forall|m: int| 0 <= m < k ==> state.mobiles@[m] == state.initial_mobiles@[m],
            state@ == (GameView {
                grid: state@.grid,
                mobiles: state@.mobiles,
                player: CIRCLE,
                ..old(state)@
            }),
            state@.grid =~~= blank(),
        decreases n - k,
    {
        let start: Mobile = state.initial_mobiles[k];
        state.mobiles[k] = start;
        k = k + 1;
    }
    assert(state@.mobiles =~= old(state)@.initial_mobiles);
    assert(state@ =~= old(state)@.reset());
}

} // verus!

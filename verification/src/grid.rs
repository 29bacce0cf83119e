//! The rules of the mark game: a board of three by three cells, two kinds of
//! mark, eight winning lines, and the tie.
use vstd::prelude::*;
use crate::draw::{HEIGHT, WIDTH};

verus! {

/// A cell that holds no mark.
pub const EMPTY: usize = 0;

/// The mark of the player who moves first.
pub const CIRCLE: usize = 1;

/// The mark of the player who replies.
pub const CROSS: usize = 2;

/// A board: three rows of three cells.
pub open spec fn is_grid(g: Seq<Seq<usize>>) -> bool {
    &&& g.len() == 3
    &&& g[0].len() == 3
    &&& g[1].len() == 3
    &&& g[2].len() == 3
}

/// The three cells hold `mark`.
pub open spec fn line_of(g: Seq<Seq<usize>>, a: (int, int), b: (int, int), c: (int, int), mark: usize)
    -> bool {
    g[a.0][a.1] == mark && g[b.0][b.1] == mark && g[c.0][c.1] == mark
}

/// `mark` holds one of the eight lines: three along the first index, three
/// along the second, two diagonals.
pub open spec fn won(g: Seq<Seq<usize>>, mark: usize) -> bool {
    ||| line_of(g, (0, 0), (0, 1), (0, 2), mark)
    ||| line_of(g, (1, 0), (1, 1), (1, 2), mark)
    ||| line_of(g, (2, 0), (2, 1), (2, 2), mark)
    ||| line_of(g, (0, 0), (1, 0), (2, 0), mark)
    ||| line_of(g, (0, 1), (1, 1), (2, 1), mark)
    ||| line_of(g, (0, 2), (1, 2), (2, 2), mark)
    ||| line_of(g, (0, 0), (1, 1), (2, 2), mark)
    ||| line_of(g, (0, 2), (1, 1), (2, 0), mark)
}

/// No cell is empty.
pub open spec fn full(g: Seq<Seq<usize>>) -> bool {
    forall|r: int, c: int| 0 <= r < 3 && 0 <= c < 3 ==> g[r][c] != EMPTY
}

/// The game is tied: the board is full and neither mark holds a line.
pub open spec fn tied(g: Seq<Seq<usize>>) -> bool {
    full(g) && !won(g, CIRCLE) && !won(g, CROSS)
}

/// The game is over: a line is held or the board is full.
pub open spec fn over(g: Seq<Seq<usize>>) -> bool {
    won(g, CIRCLE) || won(g, CROSS) || full(g)
}

/// The board with one cell changed.
pub open spec fn with_cell(g: Seq<Seq<usize>>, r: int, c: int, mark: usize) -> Seq<Seq<usize>> {
    g.update(r, g[r].update(c, mark))
}

/// The board on which nothing has been played.
pub open spec fn blank() -> Seq<Seq<usize>> {
    Seq::new(3, |r: int| Seq::new(3, |c: int| EMPTY))
}

/// The cell under a pixel of the framebuffer: the board covers the frame in
/// three equal bands each way. The last pixels of each axis, which the bands
/// leave over, belong to no cell.
pub open spec fn cell_under(x: usize, y: usize) -> Option<(usize, usize)> {
    if x / (WIDTH / 3) < 3 && y / (HEIGHT / 3) < 3 {
        Some((x / (WIDTH / 3), y / (HEIGHT / 3)))
    } else {
        None
    }
}

/// Whether the rows make a board of three by three.
pub fn is_board(model: &Vec<Vec<usize>>) -> (b: bool)
    ensures
        b == is_grid(model.deep_view()),
{
    model.len() == 3 && model[0].len() == 3 && model[1].len() == 3 && model[2].len() == 3
}

/// Whether the three cells hold `mark`.
fn holds_line(
    model: &Vec<Vec<usize>>,
    a: (usize, usize),
    b: (usize, usize),
    c: (usize, usize),
    mark: usize,
) -> (held: bool)
    requires
        is_grid(model.deep_view()),
        a.0 < 3 && a.1 < 3 && b.0 < 3 && b.1 < 3 && c.0 < 3 && c.1 < 3,
    ensures
        held == line_of(
            model.deep_view(),
            (a.0 as int, a.1 as int),
            (b.0 as int, b.1 as int),
            (c.0 as int, c.1 as int),
            mark,
        ),
{
    model[a.0][a.1] == mark && model[b.0][b.1] == mark && model[c.0][c.1] == mark
}

/// Whether `mark` holds one of the eight lines.
pub fn has_won(model: &Vec<Vec<usize>>, mark: usize) -> (b: bool)
    requires
        is_grid(model.deep_view()),
    ensures
        b == won(model.deep_view(), mark),
{
    if holds_line(model, (0, 0), (0, 1), (0, 2), mark) {
        return true;
    } else if holds_line(model, (1, 0), (1, 1), (1, 2), mark) {
        return true;
    } else if holds_line(model, (2, 0), (2, 1), (2, 2), mark) {
        return true;
    } else if holds_line(model, (0, 0), (1, 0), (2, 0), mark) {
        return true;
    } else if holds_line(model, (0, 1), (1, 1), (2, 1), mark) {
        return true;
    } else if holds_line(model, (0, 2), (1, 2), (2, 2), mark) {
        return true;
    } else if holds_line(model, (0, 0), (1, 1), (2, 2), mark) {
        return true;
    } else if holds_line(model, (0, 2), (1, 1), (2, 0), mark) {
        return true;
    }
    return false;
}

/// Whether no cell is empty.
pub fn is_full(model: &Vec<Vec<usize>>) -> (b: bool)
    requires
        is_grid(model.deep_view()),
    ensures
        b == full(model.deep_view()),
{
    let ghost g = model.deep_view();
    let mut filled: bool = true;
    let mut i: usize = 0;
    while i < 3
        invariant
            i <= 3,
            g == model.deep_view(),
            is_grid(g),
            filled <==> forall|r: int, c: int| 0 <= r < i && 0 <= c < 3 ==> g[r][c] != EMPTY,
        decreases 3 - i,
    {
        let mut j: usize = 0;
        let ghost above = filled;
        while j < 3
            invariant
                i < 3,
                j <= 3,
                g == model.deep_view(),
                is_grid(g),
                filled <==> above && forall|c: int| 0 <= c < j ==> g[i as int][c] != EMPTY,
            decreases 3 - j,
        {
            assert(model[i as int][j as int] == g[i as int][j as int]);
            if model[i][j] == EMPTY {
                filled = false;
            }
            j = j + 1;
        }
        i = i + 1;
    }
    filled
}

/// The cell under a pixel of the framebuffer, if any.
pub fn cell_at(x: usize, y: usize) -> (cell: Option<(usize, usize)>)
    ensures
        cell == cell_under(x, y),
        cell matches Some((r, c)) ==> r < 3 && c < 3,
{
    let r: usize = x / (WIDTH / 3);
    let c: usize = y / (HEIGHT / 3);
    if r < 3 && c < 3 {
        Some((r, c))
    } else {
        None
    }
}

/// Puts `mark` into one cell of the board and leaves the others as they are.
pub fn set_cell(model: &mut Vec<Vec<usize>>, r: usize, c: usize, mark: usize)
    requires
        is_grid(old(model).deep_view()),
        r < 3,
        c < 3,
    ensures
        final(model).deep_view() == with_cell(old(model).deep_view(), r as int, c as int, mark),
        is_grid(final(model).deep_view()),
{
    let ghost before = model.deep_view();
    let ghost rows = model@;
    model[r][c] = mark;
    proof {
        let after = model.deep_view();
        let want = with_cell(before, r as int, c as int, mark);
        assert(model@.len() == rows.len());
        assert(model@[r as int]@ == rows[r as int]@.update(c as int, mark));
        assert forall|i: int| 0 <= i < after.len() implies after[i] =~= want[i] by {
            if i != r {
                assert(model@[i] == rows[i]);
            }
        }
        assert(after =~= want);
    }
}

} // verus!

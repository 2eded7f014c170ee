//! Giant squid bingo: numbers are drawn in order, marked on every board,
//! and boards win by a fully marked row or column.  The first winner scores
//! one part, the last winner the other.

use crate::text::dec_val;
use crate::text::find_blank;
use crate::text::find_blank_str;
use crate::text::is_dec;
use crate::text::lemma_find_blank;
use crate::text::parse_u64;
use crate::text::split_blank;
use crate::text::split_blank_str;
use crate::text::split_char;
use crate::text::split_str;
use crate::text::words_of;
use crate::text::words_str;
use vstd::prelude::*;
use vstd::string::StrSliceExecFns;

verus! {

/// One board cell: its number, whether it was drawn, and where it sits.
#[derive(Debug, Clone, Copy, PartialEq, Eq, Structural)]
pub struct Space {
    pub value: u64,
    pub picked: bool,
    pub row: usize,
    pub col: usize,
}

/// One bingo board, with its win flag and the number that completed it.
#[derive(Debug, Clone, PartialEq)]
pub struct Board {
    pub spaces: Vec<Space>,
    pub winner: bool,
    pub last_pick: Option<u64>,
}

/// A board drawing that could not be read.
#[derive(Debug, PartialEq, Eq, Structural, Clone, Copy)]
pub struct BoardParseError;

/// The whole game: the draw order, the boards, and the boards that have won
/// so far, in the order they won.
#[derive(Debug, Clone, PartialEq)]
pub struct Bingo {
    pub picks: Vec<u64>,
    pub boards: Vec<Board>,
    pub winners: Vec<Board>,
    pub dimension: usize,
}

/// The mathematical shape of a board.
pub struct BoardModel {
    pub spaces: Seq<Space>,
    pub winner: bool,
    pub last_pick: Option<u64>,
}

pub open spec fn board_model(b: Board) -> BoardModel {
    BoardModel { spaces: b.spaces@, winner: b.winner, last_pick: b.last_pick }
}

pub open spec fn board_models(bs: Seq<Board>) -> Seq<BoardModel> {
    bs.map_values(|b: Board| board_model(b))
}

/// Marking one space: it is picked once its number is drawn.
pub open spec fn mark_space(s: Space, pick: u64) -> Space {
    if s.value == pick {
        Space { picked: true, ..s }
    } else {
        s
    }
}

/// Marking one board: boards that already won are left alone.
pub open spec fn mark_board(b: BoardModel, pick: u64) -> BoardModel {
    if b.winner {
        b
    } else {
        BoardModel { spaces: b.spaces.map_values(|s: Space| mark_space(s, pick)), ..b }
    }
}

pub open spec fn mark_all(bs: Seq<BoardModel>, pick: u64) -> Seq<BoardModel> {
    bs.map_values(|b: BoardModel| mark_board(b, pick))
}

/// Every space of row `idx` is picked.
pub open spec fn row_won(b: BoardModel, idx: int) -> bool {
    forall|j: int| 0 <= j < b.spaces.len() && (#[trigger] b.spaces[j]).row == idx ==> b.spaces[j].picked
}

/// Every space of column `idx` is picked.
pub open spec fn col_won(b: BoardModel, idx: int) -> bool {
    forall|j: int| 0 <= j < b.spaces.len() && (#[trigger] b.spaces[j]).col == idx ==> b.spaces[j].picked
}

/// A board wins on any fully picked row or column below the dimension.
pub open spec fn board_wins(b: BoardModel, dim: int) -> bool {
    exists|i: int| 0 <= i < dim && (row_won(b, i) || col_won(b, i))
}

/// A freshly winning board is crowned: flagged, with the winning number.
pub open spec fn crown(b: BoardModel, pick: u64, dim: int) -> BoardModel {
    if !b.winner && board_wins(b, dim) {
        BoardModel { winner: true, last_pick: Some(pick), ..b }
    } else {
        b
    }
}

pub open spec fn crown_all(bs: Seq<BoardModel>, pick: u64, dim: int) -> Seq<BoardModel> {
    bs.map_values(|b: BoardModel| crown(b, pick, dim))
}

/// The boards that win on this draw, crowned, in board order.
pub open spec fn new_winners(bs: Seq<BoardModel>, pick: u64, dim: int) -> Seq<BoardModel>
    decreases bs.len(),
{
    if bs.len() == 0 {
        Seq::empty()
    } else {
        new_winners(bs.drop_last(), pick, dim) + if !bs.last().winner && board_wins(
            bs.last(),
            dim,
        ) {
            seq![crown(bs.last(), pick, dim)]
        } else {
            Seq::empty()
        }
    }
}

/// One draw: every live board is marked, and the boards that completed a
/// line are crowned and appended to the winners.
pub open spec fn play_step(
    boards: Seq<BoardModel>,
    winners: Seq<BoardModel>,
    pick: u64,
    dim: int,
) -> (Seq<BoardModel>, Seq<BoardModel>) {
    let marked = mark_all(boards, pick);
    (crown_all(marked, pick, dim), winners + new_winners(marked, pick, dim))
}

/// The game state after playing the draws from `i` on.
pub open spec fn play_from(
    boards: Seq<BoardModel>,
    winners: Seq<BoardModel>,
    picks: Seq<u64>,
    i: int,
    dim: int,
) -> (Seq<BoardModel>, Seq<BoardModel>)
    decreases picks.len() - i,
{
    if i < 0 || i >= picks.len() {
        (boards, winners)
    } else {
        let next = play_step(boards, winners, picks[i], dim);
        play_from(next.0, next.1, picks, i + 1, dim)
    }
}

/// The sum of the numbers a board never had drawn.
pub open spec fn unmarked_sum(spaces: Seq<Space>) -> int
    decreases spaces.len(),
{
    if spaces.len() == 0 {
        0
    } else {
        unmarked_sum(spaces.drop_last()) + if !spaces.last().picked {
            spaces.last().value as int
        } else {
            0
        }
    }
}

/// Checks one row of a board.
pub fn check_row_win(board: &Board, index: usize) -> (r: bool)
    ensures
        r == row_won(board_model(*board), index as int),
{
    let n = board.spaces.len();
    let mut j: usize = 0;
    while j < n
        invariant
            0 <= j <= n,
            n == board.spaces@.len(),
            forall|q: int|
                0 <= q < j && (#[trigger] board.spaces@[q]).row == index ==> board.spaces@[q].picked,
        decreases n - j,
    {
        let s = board.spaces[j];
        if s.row == index && !s.picked {
            proof {
                assert((board_model(*board).spaces[j as int]).row == index && !(board_model(
                    *board,
                ).spaces[j as int]).picked);
            }
            return false;
        }
        j = j + 1;
    }
    true
}

/// Checks one column of a board.
pub fn check_col_win(board: &Board, index: usize) -> (r: bool)
    ensures
        r == col_won(board_model(*board), index as int),
{
    let n = board.spaces.len();
    let mut j: usize = 0;
    while j < n
        invariant
            0 <= j <= n,
            n == board.spaces@.len(),
            forall|q: int|
                0 <= q < j && (#[trigger] board.spaces@[q]).col == index ==> board.spaces@[q].picked,
        decreases n - j,
    {
        let s = board.spaces[j];
        if s.col == index && !s.picked {
            proof {
                assert((board_model(*board).spaces[j as int]).col == index && !(board_model(
                    *board,
                ).spaces[j as int]).picked);
            }
            return false;
        }
        j = j + 1;
    }
    true
}

/// A fresh copy of a board's spaces.
fn copy_spaces(spaces: &Vec<Space>) -> (r: Vec<Space>)
    ensures
        r@ == spaces@,
{
    let mut out: Vec<Space> = Vec::new();
    let mut i: usize = 0;
    while i < spaces.len()
        invariant
            0 <= i <= spaces@.len(),
            out@.len() == i,
            forall|j: int| 0 <= j < i ==> out@[j] == spaces@[j],
        decreases spaces@.len() - i,
    {
        out.push(spaces[i]);
        i = i + 1;
    }
    proof {
        assert(out@ =~= spaces@);
    }
    out
}

/// The sum of a board's undrawn numbers.
pub fn sum_unmarked_spaces(board: &Board) -> (r: u64)
    requires
        unmarked_sum(board.spaces@) <= u64::MAX,
    ensures
        r == unmarked_sum(board.spaces@),
{
    let n = board.spaces.len();
    let mut acc: u64 = 0;
    let mut i: usize = 0;
    proof {
        lemma_unmarked_sum_prefix(board.spaces@, 0);
    }
    while i < n
        invariant
            0 <= i <= n,
            n == board.spaces@.len(),
            unmarked_sum(board.spaces@) <= u64::MAX,
            acc == unmarked_sum(board.spaces@.subrange(0, i as int)),
        decreases n - i,
    {
        proof {
            let pre = board.spaces@.subrange(0, i as int);
            let cur = board.spaces@.subrange(0, i + 1);
            assert(cur.drop_last() =~= pre);
            assert(cur.last() == board.spaces@[i as int]);
            lemma_unmarked_sum_prefix(board.spaces@, i + 1);
        }
        let s = board.spaces[i];
        if !s.picked {
            acc = acc + s.value;
        }
        i = i + 1;
    }
    proof {
        assert(board.spaces@.subrange(0, n as int) =~= board.spaces@);
    }
    acc
}

proof fn lemma_unmarked_sum_nonneg(spaces: Seq<Space>)
    ensures
        unmarked_sum(spaces) >= 0,
    decreases spaces.len(),
{
    if spaces.len() > 0 {
        lemma_unmarked_sum_nonneg(spaces.drop_last());
    }
}

proof fn lemma_unmarked_sum_prefix(spaces: Seq<Space>, k: int)
    requires
        0 <= k <= spaces.len(),
    ensures
        0 <= unmarked_sum(spaces.subrange(0, k)) <= unmarked_sum(spaces),
    decreases spaces.len() - k,
{
    lemma_unmarked_sum_nonneg(spaces.subrange(0, k));
    if k < spaces.len() {
        assert(spaces.subrange(0, k + 1).drop_last() =~= spaces.subrange(0, k));
        lemma_unmarked_sum_prefix(spaces, k + 1);
    } else {
        assert(spaces.subrange(0, k) =~= spaces);
    }
}

/// True when every word of every row of a board drawing is a number the
/// machine can hold.
pub open spec fn board_text_ok(board: Seq<char>) -> bool {
    forall|y: int, x: int|
        0 <= y < split_char(board, '\n').len() && 0 <= x < words_of(
            #[trigger] split_char(board, '\n')[y],
        ).len() ==> is_dec(#[trigger] words_of(split_char(board, '\n')[y])[x]) && dec_val(
            words_of(split_char(board, '\n')[y])[x],
        ) <= u64::MAX
}

impl Board {
    /// Reads one board drawing: each line a row of numbers, each number a
    /// space, with its row and column recorded.
    pub fn from_str(board: &str) -> (r: Result<Board, BoardParseError>)
        requires
            board_text_ok(board@),
        ensures
            match r {
                Ok(b) => {
                    &&& b.spaces@ == board_spaces(board@)
                    &&& !b.winner
                    &&& b.last_pick is None
                },
                Err(_) => false,
            },
    {
        let ghost rv = split_char(board@, '\n');
        let rows = split_str(board, '\n');
        let n = rows.len();
        let mut spaces: Vec<Space> = Vec::new();
        let mut y: usize = 0;
        proof {
            assert(rv.len() == n);
            assert(spaces@ =~= spaces_upto(rv, 0));
        }
        while y < n
            invariant
                0 <= y <= n,
                n == rows@.len(),
                rows.deep_view() =~= rv,
                rv == split_char(board@, '\n'),
                rv.len() == n,
                forall|y2: int, x: int|
                    0 <= y2 < rv.len() && 0 <= x < words_of(#[trigger] rv[y2]).len() ==> is_dec(
                        #[trigger] words_of(rv[y2])[x],
                    ) && dec_val(words_of(rv[y2])[x]) <= u64::MAX,
                spaces@ == spaces_upto(rv, y as int),
            decreases n - y,
        {
            proof {
                assert(rows.deep_view()[y as int] == rows@[y as int]@);
            }
            let words = words_str(rows[y].as_str());
            let m = words.len();
            let mut x: usize = 0;
            proof {
                assert(words.deep_view().len() == words@.len());
                assert(row_spaces(rv[y as int], y as int).subrange(0, 0) =~= Seq::<Space>::empty());
                assert(spaces@ =~= spaces_upto(rv, y as int) + row_spaces(
                    rv[y as int],
                    y as int,
                ).subrange(0, 0));
            }
            while x < m
                invariant
                    0 <= x <= m,
                    0 <= y < n,
                    m == words@.len(),
                    words.deep_view() =~= words_of(rv[y as int]),
                    rv == split_char(board@, '\n'),
                    rv.len() == n,
                    forall|y2: int, x2: int|
                        0 <= y2 < rv.len() && 0 <= x2 < words_of(#[trigger] rv[y2]).len()
                            ==> is_dec(#[trigger] words_of(rv[y2])[x2]) && dec_val(
                            words_of(rv[y2])[x2],
                        ) <= u64::MAX,
                    spaces@ == spaces_upto(rv, y as int) + row_spaces(
                        rv[y as int],
                        y as int,
                    ).subrange(0, x as int),
                decreases m - x,
            {
                proof {
                    assert(words.deep_view()[x as int] == words@[x as int]@);
                    assert(words@[x as int]@ == words_of(rv[y as int])[x as int]);
                }
                let value = match parse_u64(words[x].as_str()) {
                    Ok(v) => v,
                    Err(_) => {
                        proof {
                            assert(false);
                        }
                        0
                    },
                };
                let space = Space { value, picked: false, row: y, col: x };
                proof {
                    let rs = row_spaces(rv[y as int], y as int);
                    assert(rs[x as int] == space);
                    assert(rs.subrange(0, x + 1) =~= rs.subrange(0, x as int).push(space));
                    assert((spaces_upto(rv, y as int) + rs.subrange(0, x as int)).push(space)
                        =~= spaces_upto(rv, y as int) + rs.subrange(0, x + 1));
                }
                spaces.push(space);
                x = x + 1;
            }
            proof {
                let rs = row_spaces(rv[y as int], y as int);
                assert(rs.subrange(0, rs.len() as int) =~= rs);
                assert(spaces@ =~= spaces_upto(rv, y + 1));
            }
            y = y + 1;
        }
        Ok(Board { spaces, winner: false, last_pick: None })
    }
}

/// The spaces of one row of the drawing.
pub open spec fn row_spaces(l: Seq<char>, y: int) -> Seq<Space> {
    Seq::new(
        words_of(l).len(),
        |x: int|
            Space {
                value: dec_val(words_of(l)[x]) as u64,
                picked: false,
                row: y as usize,
                col: x as usize,
            },
    )
}

/// The spaces of the first `y` rows of the drawing, row by row.
pub open spec fn spaces_upto(rows: Seq<Seq<char>>, y: int) -> Seq<Space>
    decreases y,
{
    if y <= 0 {
        Seq::empty()
    } else {
        spaces_upto(rows, y - 1) + row_spaces(rows[y - 1], y - 1)
    }
}

/// All spaces of a board drawing.
pub open spec fn board_spaces(text: Seq<char>) -> Seq<Space> {
    spaces_upto(split_char(text, '\n'), split_char(text, '\n').len() as int)
}

impl Bingo {
    /// Marks the drawn number on every board that has not won yet.
    pub fn mark_spaces(&mut self, pick: u64)
        ensures
            board_models(final(self).boards@) == mark_all(board_models(old(self).boards@), pick),
            final(self).picks == old(self).picks,
            final(self).winners == old(self).winners,
            final(self).dimension == old(self).dimension,
    {
        let ghost before = board_models(self.boards@);
        let n = self.boards.len();
        let mut i: usize = 0;
        proof {
            assert(before.len() == n);
        }
        while i < n
            invariant
                0 <= i <= n,
                self.boards@.len() == n,
                before.len() == n,
                before == board_models(old(self).boards@),
                self.picks == old(self).picks,
                self.winners == old(self).winners,
                self.dimension == old(self).dimension,
                forall|q: int|
                    i <= q < n ==> #[trigger] board_model(self.boards@[q]) == before[q],
                forall|q: int|
                    0 <= q < i ==> #[trigger] board_model(self.boards@[q]) == mark_board(
                        before[q],
                        pick,
                    ),
            decreases n - i,
        {
            if !self.boards[i].winner {
                let m = self.boards[i].spaces.len();
                let mut marked: Vec<Space> = Vec::new();
                let ghost old_spaces = self.boards@[i as int].spaces@;
                let mut j: usize = 0;
                while j < m
                    invariant
                        0 <= j <= m,
                        0 <= i < n == self.boards@.len(),
                        m == self.boards@[i as int].spaces@.len(),
                        old_spaces == self.boards@[i as int].spaces@,
                        marked@.len() == j,
                        forall|q: int|
                            0 <= q < j ==> #[trigger] marked@[q] == mark_space(old_spaces[q], pick),
                    decreases m - j,
                {
                    let s = self.boards[i].spaces[j];
                    if s.value == pick {
                        marked.push(Space { picked: true, ..s });
                    } else {
                        marked.push(s);
                    }
                    j = j + 1;
                }
                proof {
                    assert(marked@ =~= old_spaces.map_values(|s: Space| mark_space(s, pick)));
                }
                let winner = self.boards[i].winner;
                let last_pick = self.boards[i].last_pick;
                self.boards[i] = Board { spaces: marked, winner, last_pick };
                proof {
                    assert(board_model(self.boards@[i as int]) == mark_board(before[i as int], pick));
                }
            } else {
                proof {
                    assert(board_model(self.boards@[i as int]) == mark_board(before[i as int], pick));
                }
            }
            i = i + 1;
        }
        proof {
            assert(board_models(self.boards@) =~= mark_all(before, pick));
        }
    }

    /// Crowns every board that completed a row or column on this draw and
    /// appends a copy of it to the winners, in board order.
    pub fn check_winners(&mut self, pick: u64)
        ensures
            board_models(final(self).boards@) == crown_all(
                board_models(old(self).boards@),
                pick,
                old(self).dimension as int,
            ),
            board_models(final(self).winners@) == board_models(old(self).winners@) + new_winners(
                board_models(old(self).boards@),
                pick,
                old(self).dimension as int,
            ),
            final(self).picks == old(self).picks,
            final(self).dimension == old(self).dimension,
    {
        let ghost before = board_models(self.boards@);
        let ghost w0 = board_models(self.winners@);
        let ghost dim = self.dimension as int;
        let n = self.boards.len();
        let mut i: usize = 0;
        proof {
            assert(before.len() == n);
            assert(before.subrange(0, 0) =~= Seq::<BoardModel>::empty());
            assert(new_winners(before.subrange(0, 0), pick, dim) =~= Seq::<BoardModel>::empty());
            assert(w0 + Seq::<BoardModel>::empty() =~= w0);
        }
        while i < n
            invariant
                0 <= i <= n,
                self.boards@.len() == n,
                before.len() == n,
                before == board_models(old(self).boards@),
                w0 == board_models(old(self).winners@),
                dim == self.dimension as int,
                self.picks == old(self).picks,
                self.dimension == old(self).dimension,
                forall|q: int|
                    i <= q < n ==> #[trigger] board_model(self.boards@[q]) == before[q],
                forall|q: int|
                    0 <= q < i ==> #[trigger] board_model(self.boards@[q]) == crown(
                        before[q],
                        pick,
                        dim,
                    ),
                board_models(self.winners@) == w0 + new_winners(
                    before.subrange(0, i as int),
                    pick,
                    dim,
                ),
            decreases n - i,
        {
            proof {
                let pre = before.subrange(0, i as int);
                let cur = before.subrange(0, i + 1);
                assert(cur.drop_last() =~= pre);
                assert(cur.last() == before[i as int]);
            }
            if !self.boards[i].winner {
                let dimension = self.dimension;
                let mut won = false;
                let mut idx: usize = 0;
                while idx < dimension && !won
                    invariant
                        0 <= idx <= dimension,
                        0 <= i < n == self.boards@.len(),
                        board_model(self.boards@[i as int]) == before[i as int],
                        dim == dimension as int,
                        !won ==> forall|i2: int|
                            0 <= i2 < idx ==> !row_won(before[i as int], i2) && !col_won(
                                before[i as int],
                                i2,
                            ),
                        won ==> board_wins(before[i as int], dim),
                    decreases dimension - idx + if won {
                        0int
                    } else {
                        1int
                    },
                {
                    if check_row_win(&self.boards[i], idx) || check_col_win(&self.boards[i], idx) {
                        won = true;
                    } else {
                        idx = idx + 1;
                    }
                }
                if won {
                    let spaces = copy_spaces(&self.boards[i].spaces);
                    let crowned = Board { spaces, winner: true, last_pick: Some(pick) };
                    let spaces2 = copy_spaces(&self.boards[i].spaces);
                    let crowned2 = Board { spaces: spaces2, winner: true, last_pick: Some(pick) };
                    let ghost prev_w = board_models(self.winners@);
                    self.boards[i] = crowned;
                    self.winners.push(crowned2);
                    proof {
                        assert(board_model(self.boards@[i as int]) == crown(
                            before[i as int],
                            pick,
                            dim,
                        ));
                        assert(board_model(crowned2) == crown(before[i as int], pick, dim));
                        assert(board_models(self.winners@) =~= prev_w.push(board_model(crowned2)));
                        assert(new_winners(before.subrange(0, i + 1), pick, dim) == new_winners(
                            before.subrange(0, i as int),
                            pick,
                            dim,
                        ) + seq![crown(before[i as int], pick, dim)]);
                        assert(board_models(self.winners@) =~= w0 + new_winners(
                            before.subrange(0, i + 1),
                            pick,
                            dim,
                        ));
                    }
                } else {
                    proof {
                        assert(!board_wins(before[i as int], dim));
                        assert(board_model(self.boards@[i as int]) == crown(
                            before[i as int],
                            pick,
                            dim,
                        ));
                        assert(board_models(self.winners@) =~= w0 + new_winners(
                            before.subrange(0, i + 1),
                            pick,
                            dim,
                        ));
                    }
                }
            } else {
                proof {
                    assert(board_model(self.boards@[i as int]) == crown(before[i as int], pick, dim));
                    assert(board_models(self.winners@) =~= w0 + new_winners(
                        before.subrange(0, i + 1),
                        pick,
                        dim,
                    ));
                }
            }
            i = i + 1;
        }
        proof {
            assert(before.subrange(0, n as int) =~= before);
            assert(board_models(self.boards@) =~= crown_all(before, pick, dim));
        }
    }

    /// Plays the whole draw order: mark, then crown, for every pick.
    pub fn play(&mut self)
        ensures
            ({
                let end = play_from(
                    board_models(old(self).boards@),
                    board_models(old(self).winners@),
                    old(self).picks@,
                    0,
                    old(self).dimension as int,
                );
                board_models(final(self).boards@) == end.0 && board_models(final(self).winners@)
                    == end.1
            }),
            final(self).picks == old(self).picks,
            final(self).dimension == old(self).dimension,
    {
        let ghost picks = self.picks@;
        let ghost dim = self.dimension as int;
        let n = self.picks.len();
        let mut t: usize = 0;
        while t < n
            invariant
                0 <= t <= n,
                self.picks@.len() == n,
                self.picks == old(self).picks,
                self.dimension == old(self).dimension,
                picks == self.picks@,
                dim == self.dimension as int,
                play_from(
                    board_models(self.boards@),
                    board_models(self.winners@),
                    picks,
                    t as int,
                    dim,
                ) == play_from(
                    board_models(old(self).boards@),
                    board_models(old(self).winners@),
                    picks,
                    0,
                    dim,
                ),
            decreases n - t,
        {
            let pick = self.picks[t];
            self.mark_spaces(pick);
            self.check_winners(pick);
            t = t + 1;
        }
    }
}

/// The final game state: a shorthand for the parts' contracts.
pub open spec fn played(b: Bingo) -> (Seq<BoardModel>, Seq<BoardModel>) {
    play_from(board_models(b.boards@), board_models(b.winners@), b.picks@, 0, b.dimension as int)
}

/// A deep copy of the game, so a part can play it out without touching the
/// caller's state.
fn copy_bingo(bingo: &Bingo) -> (r: Bingo)
    ensures
        board_models(r.boards@) == board_models(bingo.boards@),
        board_models(r.winners@) == board_models(bingo.winners@),
        r.picks@ == bingo.picks@,
        r.dimension == bingo.dimension,
{
    let mut picks: Vec<u64> = Vec::new();
    let mut i: usize = 0;
    while i < bingo.picks.len()
        invariant
            0 <= i <= bingo.picks@.len(),
            picks@.len() == i,
            forall|j: int| 0 <= j < i ==> picks@[j] == bingo.picks@[j],
        decreases bingo.picks@.len() - i,
    {
        picks.push(bingo.picks[i]);
        i = i + 1;
    }
    let mut boards: Vec<Board> = Vec::new();
    let mut b: usize = 0;
    while b < bingo.boards.len()
        invariant
            0 <= b <= bingo.boards@.len(),
            boards@.len() == b,
            forall|j: int|
                0 <= j < b ==> #[trigger] board_model(boards@[j]) == board_model(bingo.boards@[j]),
        decreases bingo.boards@.len() - b,
    {
        let src = &bingo.boards[b];
        let copied = Board {
            spaces: copy_spaces(&src.spaces),
            winner: src.winner,
            last_pick: src.last_pick,
        };
        boards.push(copied);
        b = b + 1;
    }
    let mut winners: Vec<Board> = Vec::new();
    let mut w: usize = 0;
    while w < bingo.winners.len()
        invariant
            0 <= w <= bingo.winners@.len(),
            winners@.len() == w,
            forall|j: int|
                0 <= j < w ==> #[trigger] board_model(winners@[j]) == board_model(
                    bingo.winners@[j],
                ),
        decreases bingo.winners@.len() - w,
    {
        let src = &bingo.winners[w];
        let copied = Board {
            spaces: copy_spaces(&src.spaces),
            winner: src.winner,
            last_pick: src.last_pick,
        };
        winners.push(copied);
        w = w + 1;
    }
    let out = Bingo { picks, boards, winners, dimension: bingo.dimension };
    proof {
        assert(out.picks@ =~= bingo.picks@);
        assert(board_models(out.boards@) =~= board_models(bingo.boards@));
        assert(board_models(out.winners@) =~= board_models(bingo.winners@));
    }
    out
}

/// The numbers drawn, in order: the comma-separated list before the first
/// blank line.
pub open spec fn picks_of(text: Seq<char>) -> Seq<u64> {
    split_char(text, ',').map_values(|p: Seq<char>| dec_val(p) as u64)
}

/// Every drawn number can be read.
pub open spec fn picks_ok(text: Seq<char>) -> bool {
    forall|i: int|
        0 <= i < split_char(text, ',').len() ==> is_dec(#[trigger] split_char(text, ',')[i])
            && dec_val(split_char(text, ',')[i]) <= u64::MAX
}

/// A board drawing read into a fresh board.
pub open spec fn fresh_board(text: Seq<char>) -> BoardModel {
    BoardModel { spaces: board_spaces(text), winner: false, last_pick: None }
}

/// Reads the whole input: the draw order before the first blank line, then
/// the boards, separated by blank lines, on five-by-five grids.
pub fn input_generator(input: &str) -> (r: Bingo)
    requires
        find_blank(input@) >= 0,
        picks_ok(input@.subrange(0, find_blank(input@))),
        forall|b: int|
            0 <= b < split_blank(input@.subrange(find_blank(input@) + 2, input@.len() as int)).len()
                ==> board_text_ok(
                #[trigger] split_blank(
                    input@.subrange(find_blank(input@) + 2, input@.len() as int),
                )[b],
            ),
    ensures
        r.picks@ == picks_of(input@.subrange(0, find_blank(input@))),
        board_models(r.boards@) =~= split_blank(
            input@.subrange(find_blank(input@) + 2, input@.len() as int),
        ).map_values(|t: Seq<char>| fresh_board(t)),
        r.winners@.len() == 0,
        r.dimension == 5,
{
    let n = input.unicode_len();
    let blank = match find_blank_str(input) {
        Some(k) => k,
        None => {
            proof {
                assert(false);
            }
            0
        },
    };
    proof {
        lemma_find_blank(input@);
    }
    let picks_text = input.substring_char(0, blank);
    let boards_text = input.substring_char(blank + 2, n);
    let ghost pv = split_char(picks_text@, ',');
    let pick_pieces = split_str(picks_text, ',');
    let mut picks: Vec<u64> = Vec::new();
    let mut i: usize = 0;
    proof {
        assert(pv.len() == pick_pieces@.len());
    }
    while i < pick_pieces.len()
        invariant
            0 <= i <= pick_pieces@.len(),
            pick_pieces.deep_view() =~= pv,
            pv == split_char(picks_text@, ','),
            picks_ok(picks_text@),
            picks@.len() == i,
            forall|j: int| 0 <= j < i ==> picks@[j] == dec_val(pv[j]) as u64,
        decreases pick_pieces@.len() - i,
    {
        proof {
            assert(pick_pieces.deep_view()[i as int] == pick_pieces@[i as int]@);
        }
        match parse_u64(pick_pieces[i].as_str()) {
            Ok(v) => {
                picks.push(v);
            },
            Err(_) => {
                proof {
                    assert(false);
                }
            },
        }
        i = i + 1;
    }
    let ghost bv = split_blank(boards_text@);
    let board_pieces = split_blank_str(boards_text);
    let mut boards: Vec<Board> = Vec::new();
    let mut b: usize = 0;
    proof {
        assert(bv.len() == board_pieces@.len());
    }
    while b < board_pieces.len()
        invariant
            0 <= b <= board_pieces@.len(),
            board_pieces.deep_view() =~= bv,
            bv == split_blank(boards_text@),
            forall|j: int| 0 <= j < bv.len() ==> board_text_ok(#[trigger] bv[j]),
            boards@.len() == b,
            forall|j: int|
                0 <= j < b ==> #[trigger] board_model(boards@[j]) == fresh_board(bv[j]),
        decreases board_pieces@.len() - b,
    {
        proof {
            assert(board_pieces.deep_view()[b as int] == board_pieces@[b as int]@);
        }
        match Board::from_str(board_pieces[b].as_str()) {
            Ok(board) => {
                boards.push(board);
            },
            Err(_) => {
                proof {
                    assert(false);
                }
            },
        }
        b = b + 1;
    }
    let bingo = Bingo { picks, boards, winners: Vec::new(), dimension: 5 };
    proof {
        assert(bingo.picks@ =~= picks_of(picks_text@));
        assert(board_models(bingo.boards@) =~= bv.map_values(|t: Seq<char>| fresh_board(t)));
    }
    bingo
}

/// The score of the first board to win: its unmarked sum times the number
/// that completed it; 0 when nobody wins.
pub fn part1(bingo: &Bingo) -> (r: u64)
    requires
        ({
            let w = played(*bingo).1;
            w.len() > 0 ==> w[0].last_pick is Some && 0 <= unmarked_sum(w[0].spaces)
                <= u64::MAX && unmarked_sum(w[0].spaces) * (w[0].last_pick->0 as int) <= u64::MAX
        }),
    ensures
        ({
            let w = played(*bingo).1;
            if w.len() > 0 {
                r == unmarked_sum(w[0].spaces) * (w[0].last_pick->0 as int)
            } else {
                r == 0
            }
        }),
{
    let mut game = copy_bingo(bingo);
    game.play();
    let ghost w = played(*bingo).1;
    if game.winners.len() > 0 {
        proof {
            assert(board_model(game.winners@[0]) == w[0]);
        }
        let winner = &game.winners[0];
        let sum = sum_unmarked_spaces(winner);
        let pick = match winner.last_pick {
            Some(p) => p,
            None => vstd::pervasive::unreached(),
        };
        proof {
            assert(0 <= sum * pick <= u64::MAX);
        }
        sum * pick
    } else {
        0
    }
}

/// The score of the last board to win; 0 when nobody wins.
pub fn part2(bingo: &Bingo) -> (r: u64)
    requires
        ({
            let w = played(*bingo).1;
            w.len() > 0 ==> w.last().last_pick is Some && 0 <= unmarked_sum(w.last().spaces)
                <= u64::MAX && unmarked_sum(w.last().spaces) * (w.last().last_pick->0 as int)
                <= u64::MAX
        }),
    ensures
        ({
            let w = played(*bingo).1;
            if w.len() > 0 {
                r == unmarked_sum(w.last().spaces) * (w.last().last_pick->0 as int)
            } else {
                r == 0
            }
        }),
{
    let mut game = copy_bingo(bingo);
    game.play();
    let ghost w = played(*bingo).1;
    if game.winners.len() > 0 {
        let k = game.winners.len() - 1;
        proof {
            assert(board_model(game.winners@[k as int]) == w.last());
        }
        let winner = &game.winners[k];
        let sum = sum_unmarked_spaces(winner);
        let pick = match winner.last_pick {
            Some(p) => p,
            None => vstd::pervasive::unreached(),
        };
        proof {
            assert(0 <= sum * pick <= u64::MAX);
        }
        sum * pick
    } else {
        0
    }
}

} // verus!

//! A rectangular board of cells, addressed by column and row.

use vstd::prelude::*;

verus! {

/// The type of a coordinate.
pub type Scalar = i64;

/// A place on a board: the column `x` and the row `y`.
#[derive(Clone, Copy, Debug, PartialEq, Eq, Structural)]
pub struct Xy {
    pub x: Scalar,
    pub y: Scalar,
}

impl Xy {
    /// The place in column `x` and row `y`.
    pub fn new(x: Scalar, y: Scalar) -> (xy: Xy)
        ensures
            xy == (Xy { x, y }),
    {
        Xy { x, y }
    }

    /// The place `step` away from this one, with coordinates as integers.
    pub open spec fn moved(self, step: Xy) -> (int, int) {
        (self.x + step.x, self.y + step.y)
    }

    /// The sum of the two coordinates fits in a `Scalar`.
    pub open spec fn can_move(self, step: Xy) -> bool {
        &&& i64::MIN <= self.x + step.x <= i64::MAX
        &&& i64::MIN <= self.y + step.y <= i64::MAX
    }

    /// The place `step` away from this one.
    pub fn plus(self, step: Xy) -> (xy: Xy)
        requires
            self.can_move(step),
        ensures
            (xy.x as int, xy.y as int) == self.moved(step),
    {
        Xy { x: self.x + step.x, y: self.y + step.y }
    }
}

/// One of the four directions on a board. North is towards row 0.
#[derive(Debug, Clone, Copy, PartialEq, Eq, PartialOrd, Ord, Hash, Structural)]
pub enum Direction {
    North,
    East,
    South,
    West,
}

impl Direction {
    /// The four directions, clockwise from north.
    pub const ALL: [Direction; 4] = [
        Direction::North,
        Direction::East,
        Direction::South,
        Direction::West,
    ];

    /// The arrow that stands for the direction.
    pub open spec fn arrow(self) -> char {
        match self {
            Direction::North => '^',
            Direction::East => '>',
            Direction::South => 'v',
            Direction::West => '<',
        }
    }

    /// The step that leads to the next place in the direction.
    pub open spec fn offset(self) -> Xy {
        match self {
            Direction::North => Xy { x: 0, y: -1i64 },
            Direction::East => Xy { x: 1, y: 0 },
            Direction::South => Xy { x: 0, y: 1 },
            Direction::West => Xy { x: -1i64, y: 0 },
        }
    }

    /// The direction a quarter turn clockwise from this one.
    pub open spec fn clockwise(self) -> Direction {
        match self {
            Direction::North => Direction::East,
            Direction::East => Direction::South,
            Direction::South => Direction::West,
            Direction::West => Direction::North,
        }
    }

    /// `c` is one of the four arrows.
    pub open spec fn is_arrow(c: char) -> bool {
        c == '^' || c == '>' || c == 'v' || c == '<'
    }

    /// The arrow that stands for the direction: `^`, `>`, `v` or `<`.
    pub fn to_char(self) -> (c: char)
        ensures
            c == self.arrow(),
    {
        match self {
            Direction::North => '^',
            Direction::East => '>',
            Direction::South => 'v',
            Direction::West => '<',
        }
    }

    /// The step that leads to the next place in the direction.
    pub fn to_offset(self) -> (step: Xy)
        ensures
            step == self.offset(),
    {
        match self {
            Direction::North => Xy::new(0, -1),
            Direction::East => Xy::new(1, 0),
            Direction::South => Xy::new(0, 1),
            Direction::West => Xy::new(-1, 0),
        }
    }

    /// The direction that the arrow `c` stands for.
    pub fn from_char(c: char) -> (d: Direction)
        requires
            Direction::is_arrow(c),
        ensures
            d.arrow() == c,
    {
        if c == '^' {
            Direction::North
        } else if c == '>' {
            Direction::East
        } else if c == 'v' {
            Direction::South
        } else {
            Direction::West
        }
    }

    /// The direction a quarter turn clockwise from this one.
    pub fn cw(&self) -> (d: Direction)
        ensures
            d == self.clockwise(),
    {
        match self {
            Direction::North => Direction::East,
            Direction::East => Direction::South,
            Direction::South => Direction::West,
            Direction::West => Direction::North,
        }
    }

    /// The direction a quarter turn counterclockwise from this one: the
    /// one from which a clockwise turn leads back here.
    pub fn ccw(&self) -> (d: Direction)
        ensures
            d.clockwise() == *self,
            d == self.clockwise().clockwise().clockwise(),
    {
        match self {
            Direction::North => Direction::West,
            Direction::East => Direction::North,
            Direction::South => Direction::East,
            Direction::West => Direction::South,
        }
    }
}

/// What can stand on a board: a value that is read from one character and
/// written as one.
pub trait BoardContent: Sized {
    /// The value that `c` stands for, if any.
    spec fn of_char(c: char) -> Option<Self>;

    /// The character that stands for the value.
    spec fn glyph(self) -> char;

    /// The value that `c` stands for, if any.
    fn try_from_char(c: char) -> (r: Option<Self>)
        ensures
            r == Self::of_char(c),
    ;

    /// The character that stands for the value.
    fn to_glyph(&self) -> (c: char)
        ensures
            c == self.glyph(),
    ;
}

impl BoardContent for char {
    open spec fn of_char(c: char) -> Option<char> {
        Some(c)
    }

    open spec fn glyph(self) -> char {
        self
    }

    fn try_from_char(c: char) -> (r: Option<char>) {
        Some(c)
    }

    fn to_glyph(&self) -> (c: char) {
        *self
    }
}

/// A board of cells in rows. The row `y` of the board is `board[y]`, and
/// the cell in its column `x` is `board[y][x]`.
#[derive(Debug, Clone)]
pub struct Board<T> {
    pub board: Vec<Vec<T>>,
}

impl<T> View for Board<T> {
    type V = Seq<Seq<T>>;

    open spec fn view(&self) -> Seq<Seq<T>> {
        Seq::new(self.board@.len(), |y: int| self.board@[y]@)
    }
}

/// The rows hold at least one row, all rows are as long as the first, and
/// the numbers of rows and columns fit in a `Scalar`.
pub open spec fn is_rectangle<T>(rows: Seq<Seq<T>>) -> bool {
    &&& 0 < rows.len() <= i64::MAX
    &&& rows[0].len() <= i64::MAX
    &&& forall|y: int| 0 <= y < rows.len() ==> (#[trigger] rows[y]).len() == rows[0].len()
}

/// The cell in column `xy.x` of row `xy.y`, or `None` where there is no
/// such row or it is outside the first row's length.
pub open spec fn cell_in<T>(rows: Seq<Seq<T>>, xy: Xy) -> Option<T> {
    if 0 <= xy.x < rows[0].len() && 0 <= xy.y < rows.len() {
        Some(rows[xy.y as int][xy.x as int])
    } else {
        None
    }
}

/// The characters that stand for the cells of a row.
pub open spec fn glyphs<T: BoardContent>(row: Seq<T>) -> Seq<char> {
    Seq::new(row.len(), |x: int| row[x].glyph())
}

/// Every character of every string stands for a cell.
pub open spec fn all_cells<T: BoardContent>(strings: Seq<Seq<char>>) -> bool {
    forall|y: int, x: int|
        0 <= y < strings.len() && 0 <= x < strings[y].len() ==> T::of_char(
            #[trigger] strings[y][x],
        ) is Some
}

impl<T: BoardContent + Copy> Board<T> {
    /// The number of rows.
    pub open spec fn rows(&self) -> nat {
        self@.len()
    }

    /// The number of columns: the length of the first row.
    pub open spec fn columns(&self) -> nat {
        self@[0].len()
    }

    /// The board has a row, all its rows are as long as the first, and the
    /// numbers of its rows and columns fit in a `Scalar`.
    pub open spec fn is_grid(&self) -> bool {
        is_rectangle(self@)
    }

    /// The cell at `xy`.
    pub open spec fn cell(&self, xy: Xy) -> T {
        self@[xy.y as int][xy.x as int]
    }

    /// The cell at `xy`, or `None` where `xy` is no place on the board.
    pub open spec fn maybe_cell(&self, xy: Xy) -> Option<T> {
        cell_in(self@, xy)
    }

    /// The number of rows.
    pub fn height(&self) -> (h: usize)
        ensures
            h == self.rows(),
    {
        self.board.len()
    }

    /// The number of columns.
    pub fn width(&self) -> (w: usize)
        requires
            self.rows() > 0,
        ensures
            w == self.columns(),
    {
        assert(self@[0] == self.board@[0]@);
        self.board[0].len()
    }

    /// The numbers of columns and of rows.
    pub fn dimensions(&self) -> (d: Xy)
        requires
            self.is_grid(),
        ensures
            d.x == self.columns(),
            d.y == self.rows(),
    {
        Xy::new(self.width() as Scalar, self.height() as Scalar)
    }

    /// The cell at `xy`.
    pub fn at(&self, xy: Xy) -> (c: T)
        requires
            0 <= xy.y < self.rows(),
            0 <= xy.x < self@[xy.y as int].len(),
        ensures
            c == self.cell(xy),
    {
        let h = self.board.len();
        let y = xy.y as usize;
        assert(self@[y as int] == self.board@[y as int]@);
        let w = self.board[y].len();
        self.board[y][xy.x as usize]
    }

    /// The cell at `xy`, or `None` where `xy` is no place on the board.
    pub fn maybe_at(&self, xy: Xy) -> (c: Option<T>)
        requires
            self.is_grid(),
        ensures
            c == self.maybe_cell(xy),
    {
        if xy.x < 0 || xy.x >= self.width() as Scalar || xy.y < 0 || xy.y >= self.height() as Scalar {
            None
        } else {
            assert(self@[xy.y as int] == self.board@[xy.y as int]@);
            Some(self.board[xy.y as usize][xy.x as usize])
        }
    }

    /// Puts `c` in the cell at `xy`.
    pub fn set_at(&mut self, xy: Xy, c: T)
        requires
            0 <= xy.y < old(self).rows(),
            0 <= xy.x < old(self)@[xy.y as int].len(),
        ensures
            final(self)@ == old(self)@.update(
                xy.y as int,
                old(self)@[xy.y as int].update(xy.x as int, c),
            ),
    {
        let h = self.board.len();
        let y = xy.y as usize;
        assert(self@[y as int] == self.board@[y as int]@);
        let w = self.board[y].len();
        let x = xy.x as usize;
        self.board[y][x] = c;
        assert(self@ =~= old(self)@.update(
            xy.y as int,
            old(self)@[xy.y as int].update(xy.x as int, c),
        ));
    }

    /// Writes each row of the board as a string, one character for a cell.
    pub fn to_strings(&self) -> (strings: Vec<String>)
        ensures
            strings.len() == self.rows(),
            forall|y: int| 0 <= y < self.rows() ==> (#[trigger] strings[y])@ == glyphs(self@[y]),
    {
        let mut result: Vec<String> = Vec::new();
        let mut y: usize = 0;
        while y < self.board.len()
            invariant
                y <= self.board.len(),
                result.len() == y,
                forall|k: int| 0 <= k < y ==> (#[trigger] result[k])@ == glyphs(self@[k]),
            decreases self.board.len() - y,
        {
            let row = &self.board[y];
            let mut text = String::new();
            let mut x: usize = 0;
            while x < row.len()
                invariant
                    x <= row.len(),
                    text@ == glyphs(row@.take(x as int)),
                decreases row.len() - x,
            {
                text.push(row[x].to_glyph());
                assert(text@ =~= glyphs(row@.take(x + 1)));
                x = x + 1;
            }
            assert(row@.take(row.len() as int) =~= row@);
            result.push(text);
            y = y + 1;
        }
        result
    }

    /// Reads a board from strings: one row for each string and one cell
    /// for each of its characters.
    pub fn from_strings(strings: &Vec<String>) -> (b: Board<T>)
        requires
            all_cells::<T>(strings.deep_view()),
        ensures
            b.rows() == strings.len(),
            forall|y: int|
                0 <= y < strings.len() ==> (#[trigger] b@[y]).len() == strings[y]@.len(),
            forall|y: int, x: int|
                0 <= y < strings.len() && 0 <= x < strings[y]@.len() ==> T::of_char(
                    strings[y]@[x],
                ) == Some(#[trigger] b@[y][x]),
    {
        let mut result: Board<T> = Board { board: Vec::new() };
        let mut y: usize = 0;
        while y < strings.len()
            invariant
                y <= strings.len(),
                all_cells::<T>(strings.deep_view()),
                result.board.len() == y,
                forall|k: int| 0 <= k < y ==> (#[trigger] result@[k]).len() == strings[k]@.len(),
                forall|k: int, x: int|
                    0 <= k < y && 0 <= x < strings[k]@.len() ==> T::of_char(strings[k]@[x])
                        == Some(#[trigger] result@[k][x]),
            decreases strings.len() - y,
        {
            let row_string = strings[y].as_str();
            let mut row: Vec<T> = Vec::new();
            for c in iter: row_string.chars()
                invariant
                    iter.seq() == row_string@,
                    row_string@ == strings[y as int]@,
                    y < strings.len(),
                    all_cells::<T>(strings.deep_view()),
                    row.len() == iter.index(),
                    forall|k: int|
                        0 <= k < iter.index() ==> T::of_char(row_string@[k]) == Some(
                            #[trigger] row[k],
                        ),
            {
                assert(strings.deep_view()[y as int][iter.index() as int] == c);
                let read = T::try_from_char(c);
                assert(read is Some);
                if let Some(cell) = read {
                    row.push(cell);
                }
            }
            let ghost before = result@;
            result.board.push(row);
            assert forall|k: int| 0 <= k < y + 1 implies (#[trigger] result@[k]).len()
                == strings[k]@.len() by {
                if k < y {
                    assert(result@[k] == before[k]);
                }
            }
            assert forall|k: int, x: int|
                0 <= k < y + 1 && 0 <= x < strings[k]@.len() implies T::of_char(strings[k]@[x])
                == Some(#[trigger] result@[k][x]) by {
                if k < y {
                    assert(result@[k] == before[k]);
                }
            }
            y = y + 1;
        }
        result
    }

    /// Every place of the board, row by row.
    pub fn all_coords(&self) -> (coords: Vec<Xy>)
        requires
            self.is_grid(),
        ensures
            coords.len() == self.rows() * self.columns(),
            forall|y: int, x: int|
                0 <= y < self.rows() && 0 <= x < self.columns() ==> #[trigger] coords[y
                    * self.columns() + x] == (Xy { x: x as i64, y: y as i64 }),
    {
        let h = self.height();
        let w = self.width();
        let mut result: Vec<Xy> = Vec::new();
        let mut y: usize = 0;
        while y < h
            invariant
                y <= h <= i64::MAX,
                w <= i64::MAX,
                h == self.rows(),
                w == self.columns(),
                result.len() == y * w,
                forall|r: int, x: int|
                    0 <= r < y && 0 <= x < w ==> #[trigger] result[r * w + x] == (Xy {
                        x: x as i64,
                        y: r as i64,
                    }),
            decreases h - y,
        {
            let mut x: usize = 0;
            while x < w
                invariant
                    y < h <= i64::MAX,
                    x <= w <= i64::MAX,
                    result.len() == y * w + x,
                    forall|r: int, c: int|
                        0 <= r < y && 0 <= c < w ==> #[trigger] result[r * w + c] == (Xy {
                            x: c as i64,
                            y: r as i64,
                        }),
                    forall|c: int|
                        0 <= c < x ==> #[trigger] result[y * w + c] == (Xy {
                            x: c as i64,
                            y: y as i64,
                        }),
                decreases w - x,
            {
                let ghost before = result@;
                result.push(Xy::new(x as Scalar, y as Scalar));
                proof {
                    assert forall|r: int, c: int| 0 <= r < y && 0 <= c < w implies #[trigger] result[r
                        * w + c] == (Xy { x: c as i64, y: r as i64 }) by {
                        lemma_row_major(r, c, y as int, w as int);
                        assert(result[r * w + c] == before[r * w + c]);
                    }
                }
                x = x + 1;
            }
            proof {
                assert((y + 1) * w == y * w + w) by (nonlinear_arith);
                assert forall|r: int, c: int| 0 <= r < y + 1 && 0 <= c < w implies #[trigger] result[r
                    * w + c] == (Xy { x: c as i64, y: r as i64 }) by {
                    if r == y {
                        assert(result[y * w + c] == (Xy { x: c as i64, y: y as i64 }));
                    }
                }
            }
            y = y + 1;
        }
        result
    }

    /// The rectangle from `ul` up to, not including, `br` has no place, or
    /// all its places are on the board.
    pub open spec fn takes_rect(&self, ul: Xy, br: Xy) -> bool {
        ul.x >= br.x || ul.y >= br.y || (0 <= ul.x && br.x <= self.columns() && 0 <= ul.y && br.y
            <= self.rows())
    }

    /// Puts `c` in every cell from `ul` up to, not including, `br`.
    pub fn fill_rect(&mut self, ul: Xy, br: Xy, c: T)
        requires
            old(self).is_grid(),
            old(self).takes_rect(ul, br),
        ensures
            final(self).is_grid(),
            final(self).rows() == old(self).rows(),
            final(self).columns() == old(self).columns(),
            forall|y: int, x: int|
                0 <= y < old(self).rows() && 0 <= x < old(self).columns() ==> #[trigger] final(self)@[y][x] == (if in_rect(ul, br, x, y) {
                    c
                } else {
                    old(self)@[y][x]
                }),
    {
        if ul.x >= br.x {
            return ;
        }
        let mut y: Scalar = ul.y;
        while y < br.y
            invariant
                ul.x < br.x,
                old(self).is_grid(),
                old(self).takes_rect(ul, br),
                ul.y <= y,
                ul.y < br.y ==> y <= br.y,
                self.is_grid(),
                self.rows() == old(self).rows(),
                self.columns() == old(self).columns(),
                forall|r: int, x: int|
                    0 <= r < self.rows() && 0 <= x < self.columns() ==> #[trigger] self@[r][x] == (
                    if in_rect(ul, br, x, r) && r < y {
                        c
                    } else {
                        old(self)@[r][x]
                    }),
            decreases br.y - y,
        {
            let mut x: Scalar = ul.x;
            while x < br.x
                invariant
                    ul.x <= x <= br.x,
                    ul.y <= y < br.y,
                    old(self).is_grid(),
                    old(self).takes_rect(ul, br),
                    self.is_grid(),
                    self.rows() == old(self).rows(),
                    self.columns() == old(self).columns(),
                    forall|r: int, k: int|
                        0 <= r < self.rows() && 0 <= k < self.columns() ==> #[trigger] self@[r][k]
                            == (if in_rect(ul, br, k, r) && (r < y || (r == y && k < x)) {
                            c
                        } else {
                            old(self)@[r][k]
                        }),
                decreases br.x - x,
            {
                self.set_at(Xy::new(x, y), c);
                x = x + 1;
            }
            y = y + 1;
        }
    }

    /// Puts in every cell from `ul` up to, not including, `br` what `f`
    /// makes of the cell.
    pub fn update_rect<F: Fn(T) -> T>(&mut self, ul: Xy, br: Xy, f: F)
        requires
            old(self).is_grid(),
            old(self).takes_rect(ul, br),
            forall|y: int, x: int|
                0 <= y < old(self).rows() && 0 <= x < old(self).columns() && in_rect(ul, br, x, y)
                    ==> f.requires((#[trigger] old(self)@[y][x],)),
        ensures
            final(self).is_grid(),
            final(self).rows() == old(self).rows(),
            final(self).columns() == old(self).columns(),
            forall|y: int, x: int|
                0 <= y < old(self).rows() && 0 <= x < old(self).columns() ==> (if in_rect(
                    ul,
                    br,
                    x,
                    y,
                ) {
                    f.ensures((old(self)@[y][x],), #[trigger] final(self)@[y][x])
                } else {
                    final(self)@[y][x] == old(self)@[y][x]
                }),
    {
        if ul.x >= br.x {
            return ;
        }
        let mut y: Scalar = ul.y;
        while y < br.y
            invariant
                ul.x < br.x,
                old(self).is_grid(),
                old(self).takes_rect(ul, br),
                forall|r: int, k: int|
                    0 <= r < old(self).rows() && 0 <= k < old(self).columns() && in_rect(
                        ul,
                        br,
                        k,
                        r,
                    ) ==> f.requires((#[trigger] old(self)@[r][k],)),
                ul.y <= y,
                ul.y < br.y ==> y <= br.y,
                self.is_grid(),
                self.rows() == old(self).rows(),
                self.columns() == old(self).columns(),
                forall|r: int, k: int|
                    0 <= r < self.rows() && 0 <= k < self.columns() ==> (if in_rect(ul, br, k, r)
                        && r < y {
                        f.ensures((old(self)@[r][k],), #[trigger] self@[r][k])
                    } else {
                        self@[r][k] == old(self)@[r][k]
                    }),
            decreases br.y - y,
        {
            let mut x: Scalar = ul.x;
            while x < br.x
                invariant
                    ul.x <= x <= br.x,
                    ul.y <= y < br.y,
                    old(self).is_grid(),
                    old(self).takes_rect(ul, br),
                    forall|r: int, k: int|
                        0 <= r < old(self).rows() && 0 <= k < old(self).columns() && in_rect(
                            ul,
                            br,
                            k,
                            r,
                        ) ==> f.requires((#[trigger] old(self)@[r][k],)),
                    self.is_grid(),
                    self.rows() == old(self).rows(),
                    self.columns() == old(self).columns(),
                    forall|r: int, k: int|
                        0 <= r < self.rows() && 0 <= k < self.columns() ==> (if in_rect(
                            ul,
                            br,
                            k,
                            r,
                        ) && (r < y || (r == y && k < x)) {
                            f.ensures((old(self)@[r][k],), #[trigger] self@[r][k])
                        } else {
                            self@[r][k] == old(self)@[r][k]
                        }),
                decreases br.x - x,
            {
                let xy = Xy::new(x, y);
                let old_value = self.at(xy);
                assert(old_value == old(self)@[y as int][x as int]);
                let new_value = f(old_value);
                self.set_at(xy, new_value);
                x = x + 1;
            }
            y = y + 1;
        }
    }

    /// The cells at the four places next to the corner `(0, 0)`, clockwise
    /// from the north, as far as they are on the board.
    pub fn neighbors(&self) -> (cells: Vec<T>)
        requires
            self.is_grid(),
        ensures
            cells@ == present(Seq::new(4, |i: int| self.maybe_cell(compass()[i].offset()))),
    {
        let ghost found = Seq::new(4, |i: int| self.maybe_cell(compass()[i].offset()));
        let mut result: Vec<T> = Vec::new();
        let all = Direction::ALL;
        let mut i: usize = 0;
        assert(found.take(0) =~= Seq::empty());
        while i < 4
            invariant
                i <= 4,
                self.is_grid(),
                forall|k: int| 0 <= k < 4 ==> #[trigger] all@[k] == compass()[k],
                found == Seq::new(4, |i: int| self.maybe_cell(compass()[i].offset())),
                result@ == present(found.take(i as int)),
            decreases 4 - i,
        {
            let offset = all[i].to_offset();
            assert(all@[i as int] == compass()[i as int]);
            assert(found.take(i + 1).drop_last() =~= found.take(i as int));
            assert(found.take(i + 1).last() == self.maybe_cell(offset));
            if let Some(c) = self.maybe_at(offset) {
                result.push(c);
            }
            i = i + 1;
        }
        assert(found.take(4) =~= found);
        result
    }

    /// The cells at the eight places around `loc`, as far as they are on
    /// the board: first the one to the east, then on through south, west
    /// and north.
    pub fn neighbors8(&self, loc: Xy) -> (cells: Vec<T>)
        requires
            self.is_grid(),
            i64::MIN < loc.x < i64::MAX,
            i64::MIN < loc.y < i64::MAX,
        ensures
            cells@ == present(Seq::new(8, |i: int| self.maybe_cell(around(loc, i)))),
    {
        let ghost found = Seq::new(8, |i: int| self.maybe_cell(around(loc, i)));
        let mut result: Vec<T> = Vec::new();
        let dirs8: [Xy; 8] = [
            Xy::new(1, 0),
            Xy::new(1, 1),
            Xy::new(0, 1),
            Xy::new(-1, 1),
            Xy::new(-1, 0),
            Xy::new(-1, -1),
            Xy::new(0, -1),
            Xy::new(1, -1),
        ];
        let mut i: usize = 0;
        assert(found.take(0) =~= Seq::empty());
        while i < 8
            invariant
                i <= 8,
                self.is_grid(),
                i64::MIN < loc.x < i64::MAX,
                i64::MIN < loc.y < i64::MAX,
                forall|k: int| 0 <= k < 8 ==> #[trigger] dirs8@[k] == ring()[k],
                found == Seq::new(8, |i: int| self.maybe_cell(around(loc, i))),
                result@ == present(found.take(i as int)),
            decreases 8 - i,
        {
            let offset = dirs8[i];
            assert(offset == ring()[i as int]);
            let place = loc.plus(offset);
            assert(place == around(loc, i as int));
            assert(found.take(i + 1).drop_last() =~= found.take(i as int));
            assert(found.take(i + 1).last() == self.maybe_cell(place));
            if let Some(c) = self.maybe_at(place) {
                result.push(c);
            }
            i = i + 1;
        }
        assert(found.take(8) =~= found);
        result
    }

    /// A walk over the cells of the board, row by row; see
    /// [`BoardIterator::next`].
    pub fn iter(&self) -> (it: BoardIterator<'_, T>)
        ensures
            it.board == self,
            it.current_x == 0,
            it.current_y == 0,
    {
        BoardIterator { board: self, current_x: 0, current_y: 0 }
    }
}

/// How many of the first `columns` places of row `y` are in `places`.
pub open spec fn count_in_row(places: spec_fn(int, int) -> bool, y: int, columns: nat) -> nat
    decreases columns,
{
    if columns == 0 {
        0
    } else {
        count_in_row(places, y, (columns - 1) as nat) + if places(columns - 1, y) {
            1nat
        } else {
            0nat
        }
    }
}

/// How many places of the first `rows` rows, of `columns` places each, are
/// in `places`.
pub open spec fn count_in_rows(places: spec_fn(int, int) -> bool, columns: nat, rows: nat) -> nat
    decreases rows,
{
    if rows == 0 {
        0
    } else {
        count_in_rows(places, columns, (rows - 1) as nat) + count_in_row(
            places,
            rows - 1,
            columns,
        )
    }
}

/// Where every place of `whole` is a place of `part` or of `rest`, and of
/// one of them only, the counts of the two add up.
pub proof fn lemma_count_split(
    whole: spec_fn(int, int) -> bool,
    part: spec_fn(int, int) -> bool,
    rest: spec_fn(int, int) -> bool,
    columns: nat,
    rows: nat,
)
    requires
        forall|x: int, y: int|
            0 <= x < columns && 0 <= y < rows ==> (#[trigger] whole(x, y) <==> part(x, y) || rest(
                x,
                y,
            )) && !(part(x, y) && rest(x, y)),
    ensures
        count_in_rows(whole, columns, rows) == count_in_rows(part, columns, rows) + count_in_rows(
            rest,
            columns,
            rows,
        ),
    decreases rows,
{
    if rows > 0 {
        lemma_count_split(whole, part, rest, columns, (rows - 1) as nat);
        lemma_count_split_row(whole, part, rest, rows - 1, columns);
    }
}

pub proof fn lemma_count_split_row(
    whole: spec_fn(int, int) -> bool,
    part: spec_fn(int, int) -> bool,
    rest: spec_fn(int, int) -> bool,
    y: int,
    columns: nat,
)
    requires
        forall|x: int|
            0 <= x < columns ==> (#[trigger] whole(x, y) <==> part(x, y) || rest(x, y)) && !(part(
                x,
                y,
            ) && rest(x, y)),
    ensures
        count_in_row(whole, y, columns) == count_in_row(part, y, columns) + count_in_row(
            rest,
            y,
            columns,
        ),
    decreases columns,
{
    if columns > 0 {
        lemma_count_split_row(whole, part, rest, y, (columns - 1) as nat);
        assert(whole(columns - 1, y) <==> part(columns - 1, y) || rest(columns - 1, y));
    }
}

/// The sum of what `weight` gives for the first `columns` places of row
/// `y`.
pub open spec fn sum_in_row(weight: spec_fn(int, int) -> nat, y: int, columns: nat) -> nat
    decreases columns,
{
    if columns == 0 {
        0
    } else {
        sum_in_row(weight, y, (columns - 1) as nat) + weight(columns - 1, y)
    }
}

/// The sum of what `weight` gives for the places of the first `rows` rows,
/// of `columns` places each.
pub open spec fn sum_in_rows(weight: spec_fn(int, int) -> nat, columns: nat, rows: nat) -> nat
    decreases rows,
{
    if rows == 0 {
        0
    } else {
        sum_in_rows(weight, columns, (rows - 1) as nat) + sum_in_row(weight, rows - 1, columns)
    }
}

/// The place in column `x` and row `y` lies in the rectangle from `ul` up
/// to, not including, `br`.
pub open spec fn in_rect(ul: Xy, br: Xy, x: int, y: int) -> bool {
    ul.x <= x < br.x && ul.y <= y < br.y
}

/// The values that are there, in their order.
pub open spec fn present<T>(found: Seq<Option<T>>) -> Seq<T>
    decreases found.len(),
{
    if found.len() == 0 {
        Seq::empty()
    } else {
        match found.last() {
            Some(value) => present(found.drop_last()).push(value),
            None => present(found.drop_last()),
        }
    }
}

/// The four directions, clockwise from north.
pub open spec fn compass() -> Seq<Direction> {
    seq![Direction::North, Direction::East, Direction::South, Direction::West]
}

/// The steps to the eight places around a place: east first, then on
/// through south, west and north.
pub open spec fn ring() -> Seq<Xy> {
    seq![
        Xy { x: 1, y: 0 },
        Xy { x: 1, y: 1 },
        Xy { x: 0, y: 1 },
        Xy { x: -1i64, y: 1 },
        Xy { x: -1i64, y: 0 },
        Xy { x: -1i64, y: -1i64 },
        Xy { x: 0, y: -1i64 },
        Xy { x: 1, y: -1i64 },
    ]
}

/// The place number `i` around `loc`.
pub open spec fn around(loc: Xy, i: int) -> Xy {
    Xy { x: (loc.x + ring()[i].x) as i64, y: (loc.y + ring()[i].y) as i64 }
}

/// In a list of rows of `w` places each, the places of earlier rows stand
/// before those of row `y`.
proof fn lemma_row_major(r: int, c: int, y: int, w: int)
    requires
        0 <= r < y,
        0 <= c < w,
    ensures
        0 <= r * w + c < y * w,
{
    assert(r * w + c < y * w) by (nonlinear_arith)
        requires
            0 <= r < y,
            0 <= c < w,
    ;
    assert(0 <= r * w) by (nonlinear_arith)
        requires
            0 <= r,
            0 <= w,
    ;
}

/// A walk over the cells of a board, row by row and from column 0 on in
/// each row.
pub struct BoardIterator<'a, T> {
    pub board: &'a Board<T>,
    pub current_x: usize,
    pub current_y: usize,
}

impl<'a, T: BoardContent + Copy> BoardIterator<'a, T> {
    /// The walk stands on a place of the board or has left its last row.
    pub open spec fn wf(&self) -> bool {
        &&& self.board.is_grid()
        &&& self.current_y < self.board.rows() ==> self.current_x < self.board.columns()
    }

    /// Returns the place the walk stands on, with its cell, and moves on
    /// to the next place; returns `None` once the last row is left.
    pub fn next(&mut self) -> (item: Option<(Xy, T)>)
        requires
            old(self).wf(),
        ensures
            final(self).wf(),
            final(self).board == old(self).board,
            old(self).current_y >= old(self).board.rows() ==> item is None && *final(self) == *old(self),
            old(self).current_y < old(self).board.rows() ==> {
                &&& item == Some(
                    (
                        Xy { x: old(self).current_x as i64, y: old(self).current_y as i64 },
                        old(self).board@[old(self).current_y as int][old(self).current_x as int],
                    ),
                )
                &&& if old(self).current_x + 1 < old(self).board.columns() {
                    final(self).current_x == old(self).current_x + 1 && final(self).current_y
                        == old(self).current_y
                } else {
                    final(self).current_x == 0 && final(self).current_y == old(self).current_y + 1
                }
            },
    {
        if self.current_y >= self.board.height() {
            return None;
        }
        let xy = Xy::new(self.current_x as Scalar, self.current_y as Scalar);
        let content = self.board.at(xy);
        let w = self.board.width();
        self.current_x = self.current_x + 1;
        if self.current_x >= w {
            self.current_x = 0;
            self.current_y = self.current_y + 1;
        }
        Some((xy, content))
    }
}

} // verus!

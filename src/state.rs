//! Cells, points and the grid: candidate masks, neighbour groups, and the
//! text form of a puzzle.

use crate::random::choose_from;
use rand::rngs::StdRng;
use vstd::prelude::*;
use vstd::string::StringExecFns;

verus! {

/// Mask with one bit for each of the values 1 to 9.
pub const ALL_CELL_POSSIBILITIES: u16 = 0x1ff;

/// One square of the grid: either the values still possible for it, as a
/// mask where bit `v - 1` stands for value `v`, or its decided value.
#[derive(Debug, Clone, Copy, PartialEq, Eq, Structural)]
pub enum GameCell {
    SuperState(u16),
    Fixed(u16),
}

/// Whether bit `i` of `m` is set.
pub open spec fn bit_set(m: u16, i: nat) -> bool {
    i < 16 && (m >> (i as u16)) & 1u16 == 1u16
}

/// Whether value `v` (1 to 9) is still possible under mask `m`.
pub open spec fn has_value(m: u16, v: int) -> bool {
    1 <= v <= 9 && bit_set(m, (v - 1) as nat)
}

/// Number of set bits among the lowest `n` bits of `m`.
pub open spec fn count_bits(m: u16, n: nat) -> nat
    decreases n,
{
    if n == 0 {
        0
    } else {
        count_bits(m, (n - 1) as nat) + if bit_set(m, (n - 1) as nat) { 1nat } else { 0nat }
    }
}

/// The values among 1 to `n` whose bit is set in `m`, in ascending order.
pub open spec fn decode(m: u16, n: nat) -> Seq<u16>
    decreases n,
{
    if n == 0 {
        Seq::empty()
    } else if bit_set(m, (n - 1) as nat) {
        decode(m, (n - 1) as nat).push(n as u16)
    } else {
        decode(m, (n - 1) as nat)
    }
}

/// The mask `m` with the bit of value `v` cleared, and nothing kept above the
/// nine value bits.
pub open spec fn cleared(m: u16, v: u16) -> u16 {
    m & (0x1ffu16 & !(1u16 << ((v - 1) as u16)))
}

/// A cell after value `v` has been ruled out for it.
pub open spec fn without(c: GameCell, v: u16) -> GameCell {
    match c {
        GameCell::SuperState(m) => GameCell::SuperState(cleared(m, v)),
        GameCell::Fixed(_) => c,
    }
}

pub(crate) proof fn lemma_decode(m: u16, n: nat)
    requires
        n <= 16,
    ensures
        decode(m, n).len() == count_bits(m, n),
        forall|i: int, j: int|
            0 <= i < j < decode(m, n).len() ==> decode(m, n)[i] < decode(m, n)[j],
        forall|i: int| 0 <= i < decode(m, n).len() ==> 1 <= #[trigger] decode(m, n)[i] <= n,
        forall|v: int|
            1 <= v <= n ==> (#[trigger] decode(m, n).contains(v as u16) <==> bit_set(m, (v - 1) as nat)),
    decreases n,
{
    if n > 0 {
        lemma_decode(m, (n - 1) as nat);
        let p = decode(m, (n - 1) as nat);
        assert forall|v: int| 1 <= v <= n implies (#[trigger] decode(m, n).contains(v as u16) <==> bit_set(
            m,
            (v - 1) as nat,
        )) by {
            if bit_set(m, (n - 1) as nat) {
                assert(decode(m, n) == p.push(n as u16));
                if v == n {
                    assert(decode(m, n)[p.len() as int] == n as u16);
                } else {
                    if decode(m, n).contains(v as u16) {
                        let k = choose|k: int| 0 <= k < decode(m, n).len() && decode(m, n)[k] == v as u16;
                        if k == p.len() {
                        } else {
                            assert(p[k] == v as u16);
                        }
                    }
                    if p.contains(v as u16) {
                        let k = choose|k: int| 0 <= k < p.len() && p[k] == v as u16;
                        assert(decode(m, n)[k] == v as u16);
                    }
                }
            } else {
                if v == n {
                    if p.contains(v as u16) {
                        let k = choose|k: int| 0 <= k < p.len() && p[k] == v as u16;
                        assert(1 <= p[k] <= n - 1);
                    }
                }
            }
        }
    }
}

pub(crate) proof fn lemma_count_bits_bound(m: u16, n: nat)
    ensures
        count_bits(m, n) <= n,
    decreases n,
{
    if n > 0 {
        lemma_count_bits_bound(m, (n - 1) as nat);
    }
}

impl GameCell {
    /// Number of values still possible, or `None` for a decided cell.
    pub fn pop_count(&self) -> (r: Option<u32>)
        ensures
            r == match *self {
                GameCell::SuperState(m) => Some(count_bits(m, 16) as u32),
                GameCell::Fixed(_) => None::<u32>,
            },
    {
        match self {
            GameCell::SuperState(m) => {
                let mut n: u32 = 0;
                let mut i: u16 = 0;
                while i < 16
                    invariant
                        i <= 16,
                        n == count_bits(*m, i as nat),
                    decreases 16 - i,
                {
                    proof {
                        lemma_count_bits_bound(*m, i as nat);
                    }
                    if (*m >> i) & 1 == 1 {
                        n = n + 1;
                    }
                    i = i + 1;
                }
                Some(n)
            },
            GameCell::Fixed(_) => None,
        }
    }

    /// One of the values still possible, drawn at random from `rng`; `None`
    /// for a decided cell and for one where no value is left.
    pub fn random_potential(&self, rng: &mut StdRng) -> (r: Option<u16>)
        ensures
            match *self {
                GameCell::SuperState(m) => (r is None <==> decode(m, 9).len() == 0) && (r matches Some(
                    v,
                ) ==> has_value(m, v as int)),
                GameCell::Fixed(_) => r is None,
            },
    {
        match self.potential_values() {
            Some(values) => {
                let r = choose_from(&values, rng);
                proof {
                    if let Some(v) = r {
                        let k = choose|k: int| 0 <= k < values@.len() && values@[k] == v;
                        assert(1 <= values@[k] <= 9);
                        assert(values@.contains(v as int as u16));
                    }
                }
                r
            },
            None => None,
        }
    }

    /// The mask holding only the bit of `value`.
    fn value_to_bit(value: u16) -> (r: u16)
        requires
            1 <= value <= 9,
        ensures
            r == 1u16 << ((value - 1) as u16),
    {
        1u16 << (value - 1)
    }

    /// The nine value bits with the bit of `value` cleared.
    fn unset_bit_pattern(value: u16) -> (r: u16)
        requires
            1 <= value <= 9,
        ensures
            r == 0x1ffu16 & !(1u16 << ((value - 1) as u16)),
    {
        ALL_CELL_POSSIBILITIES & !GameCell::value_to_bit(value)
    }

    /// The values still possible, in ascending order, or `None` for a decided
    /// cell.
    pub fn potential_values(&self) -> (r: Option<Vec<u16>>)
        ensures
            match *self {
                GameCell::SuperState(m) => r is Some && r->0@ == decode(m, 9),
                GameCell::Fixed(_) => r is None,
            },
            r matches Some(vals) ==> {
                &&& forall|i: int, j: int| 0 <= i < j < vals@.len() ==> vals@[i] < vals@[j]
                &&& forall|i: int| 0 <= i < vals@.len() ==> 1 <= #[trigger] vals@[i] <= 9
                &&& forall|v: int|
                    1 <= v <= 9 ==> (#[trigger] vals@.contains(v as u16) <==> has_value(
                        self->SuperState_0,
                        v,
                    ))
            },
    {
        match self {
            GameCell::SuperState(m) => {
                let mut values: Vec<u16> = Vec::new();
                let mut i: u16 = 1;
                while i <= 9
                    invariant
                        1 <= i <= 10,
                        values@ == decode(*m, (i - 1) as nat),
                    decreases 10 - i,
                {
                    let mask = GameCell::value_to_bit(i);
                    let mm = *m;
                    assert((1u16 << ((i - 1) as u16)) & mm == (1u16 << ((i - 1) as u16)) <==> (mm
                        >> ((i - 1) as u16)) & 1u16 == 1u16) by (bit_vector)
                        requires
                            1 <= i <= 9,
                    ;
                    if mask & mm == mask {
                        values.push(i);
                    }
                    i = i + 1;
                }
                proof {
                    lemma_decode(*m, 9);
                }
                Some(values)
            },
            GameCell::Fixed(_) => None,
        }
    }

    /// Rules out the value of `cell` when `cell` is decided; reports whether
    /// this cell's mask changed. A decided cell never changes.
    pub fn constrain(&mut self, cell: &GameCell) -> (changed: bool)
        requires
            *cell matches GameCell::Fixed(c) ==> 1 <= c <= 9,
        ensures
            match *cell {
                GameCell::Fixed(c) => *final(self) == without(*old(self), c),
                GameCell::SuperState(_) => *final(self) == *old(self),
            },
            changed == (*final(self) != *old(self)),
    {
        if let GameCell::Fixed(constraint) = cell {
            match self {
                GameCell::SuperState(v) => {
                    let initial = *v;
                    *v = *v & GameCell::unset_bit_pattern(*constraint);
                    initial != *v
                },
                GameCell::Fixed(_) => false,
            }
        } else {
            false
        }
    }
}

/// A square's coordinates: `x` is the column and `y` the row, each 0 to 8.
#[derive(Debug, Clone, Copy, PartialEq, Eq, Structural)]
pub struct Point {
    pub x: usize,
    pub y: usize,
}

impl Point {
    pub open spec fn in_grid(&self) -> bool {
        self.x < 9 && self.y < 9
    }

    pub fn new(x: usize, y: usize) -> (r: Point)
        ensures
            r == (Point { x, y }),
    {
        Point { x, y }
    }
}

/// Position of a point in the row-major sequence of cells.
pub open spec fn idx(p: Point) -> int {
    9 * p.y + p.x
}

/// Whether the squares at positions `a` and `b` share a row, a column or a
/// house (a square is its own peer).
pub open spec fn peer(a: int, b: int) -> bool {
    ||| a / 9 == b / 9
    ||| a % 9 == b % 9
    ||| (a % 9) / 3 == (b % 9) / 3 && (a / 9) / 3 == (b / 9) / 3
}

/// A cell that normal play can reach: a mask of the nine value bits, or a
/// value from 1 to 9.
pub open spec fn cell_ok(c: GameCell) -> bool {
    match c {
        GameCell::SuperState(m) => m <= 0x1ff,
        GameCell::Fixed(v) => 1 <= v <= 9,
    }
}

/// The nine points of row `row`, from left to right.
pub open spec fn row_points(row: usize) -> Seq<Point> {
    Seq::new(9, |i: int| Point { x: i as usize, y: row })
}

/// The nine points of column `col`, from top to bottom.
pub open spec fn col_points(col: usize) -> Seq<Point> {
    Seq::new(9, |i: int| Point { x: col, y: i as usize })
}

/// The nine points of the house that holds `p`, row by row.
pub open spec fn house_points(p: Point) -> Seq<Point> {
    Seq::new(
        9,
        |i: int| Point { x: (3 * (p.x / 3) + i % 3) as usize, y: (3 * (p.y / 3) + i / 3) as usize },
    )
}

/// Two points in one 3x3 block have the same house; two points in different
/// blocks have houses with no point in common.
pub proof fn house_depends_on_block(a: Point, b: Point)
    requires
        a.in_grid(),
        b.in_grid(),
    ensures
        a.x / 3 == b.x / 3 && a.y / 3 == b.y / 3 ==> house_points(a) == house_points(b),
        a.x / 3 != b.x / 3 || a.y / 3 != b.y / 3 ==> forall|i: int, j: int|
            0 <= i < 9 && 0 <= j < 9 ==> #[trigger] house_points(a)[i] != #[trigger] house_points(b)[j],
{
    if a.x / 3 == b.x / 3 && a.y / 3 == b.y / 3 {
        assert(house_points(a) =~= house_points(b));
    }
}

/// The 9x9 grid of cells, stored row by row.
pub struct GameState {
    cells: Vec<GameCell>,
}

impl View for GameState {
    type V = Seq<GameCell>;

    closed spec fn view(&self) -> Seq<GameCell> {
        self.cells@
    }
}

impl GameState {
    /// The grid holds 81 cells, each in a shape that normal play can reach.
    pub open spec fn wf(&self) -> bool {
        &&& self@.len() == 81
        &&& forall|k: int| 0 <= k < 81 ==> cell_ok(#[trigger] self@[k])
    }

    /// The cell at `pos`.
    pub fn get(&self, pos: &Point) -> (r: GameCell)
        requires
            self.wf(),
            pos.in_grid(),
        ensures
            r == self@[idx(*pos)],
    {
        self.cells[pos.y * 9 + pos.x]
    }

    /// Mutable access to the cell at `pos`.
    pub fn get_mut(&mut self, pos: &Point) -> (r: &mut GameCell)
        requires
            old(self).wf(),
            pos.in_grid(),
        ensures
            *r == old(self)@[idx(*pos)],
            final(self)@ == old(self)@.update(idx(*pos), *final(r)),
    {
        &mut self.cells[pos.y * 9 + pos.x]
    }

    /// The nine points of row `row`, from left to right.
    pub fn in_row(row: usize) -> (r: Vec<Point>)
        ensures
            r@ == row_points(row),
    {
        let mut points: Vec<Point> = Vec::new();
        let mut i: usize = 0;
        while i < 9
            invariant
                i <= 9,
                points@.len() == i,
                forall|j: int| 0 <= j < i ==> #[trigger] points@[j] == (Point { x: j as usize, y: row }),
            decreases 9 - i,
        {
            points.push(Point::new(i, row));
            i = i + 1;
        }
        assert(points@ =~= row_points(row));
        points
    }

    /// The nine points of column `col`, from top to bottom.
    pub fn in_col(col: usize) -> (r: Vec<Point>)
        ensures
            r@ == col_points(col),
    {
        let mut points: Vec<Point> = Vec::new();
        let mut i: usize = 0;
        while i < 9
            invariant
                i <= 9,
                points@.len() == i,
                forall|j: int| 0 <= j < i ==> #[trigger] points@[j] == (Point { x: col, y: j as usize }),
            decreases 9 - i,
        {
            points.push(Point::new(col, i));
            i = i + 1;
        }
        assert(points@ =~= col_points(col));
        points
    }

    /// The nine points of the 3x3 house that holds `pos`, row by row.
    pub fn in_house(pos: &Point) -> (r: Vec<Point>)
        requires
            pos.in_grid(),
        ensures
            r@ == house_points(*pos),
    {
        let start_house_x = pos.x / 3 * 3;
        let start_house_y = pos.y / 3 * 3;
        let mut points: Vec<Point> = Vec::new();
        let mut i: usize = 0;
        while i < 3
            invariant
                i <= 3,
                start_house_x == 3 * (pos.x / 3),
                start_house_y == 3 * (pos.y / 3),
                start_house_x <= 6,
                start_house_y <= 6,
                points@.len() == 3 * i,
                forall|k: int|
                    0 <= k < 3 * i ==> #[trigger] points@[k] == (Point {
                        x: (3 * (pos.x / 3) + k % 3) as usize,
                        y: (3 * (pos.y / 3) + k / 3) as usize,
                    }),
            decreases 3 - i,
        {
            let mut j: usize = 0;
            while j < 3
                invariant
                    i < 3,
                    j <= 3,
                    start_house_x == 3 * (pos.x / 3),
                    start_house_y == 3 * (pos.y / 3),
                    start_house_x <= 6,
                    start_house_y <= 6,
                    points@.len() == 3 * i + j,
                    forall|k: int|
                        0 <= k < 3 * i + j ==> #[trigger] points@[k] == (Point {
                            x: (3 * (pos.x / 3) + k % 3) as usize,
                            y: (3 * (pos.y / 3) + k / 3) as usize,
                        }),
                decreases 3 - j,
            {
                points.push(Point::new(start_house_x + j, start_house_y + i));
                j = j + 1;
            }
            i = i + 1;
        }
        assert(points@ =~= house_points(*pos));
        points
    }

    /// Every cell with its point, row by row.
    pub fn cells(&self) -> (r: Vec<(Point, GameCell)>)
        requires
            self.wf(),
        ensures
            r@.len() == 81,
            forall|k: int|
                0 <= k < 81 ==> #[trigger] r@[k] == (
                    Point { x: (k % 9) as usize, y: (k / 9) as usize },
                    self@[k],
                ),
    {
        let mut out: Vec<(Point, GameCell)> = Vec::new();
        let mut i: usize = 0;
        while i < 81
            invariant
                self.wf(),
                i <= 81,
                out@.len() == i,
                forall|k: int|
                    0 <= k < i ==> #[trigger] out@[k] == (
                        Point { x: (k % 9) as usize, y: (k / 9) as usize },
                        self@[k],
                    ),
            decreases 81 - i,
        {
            out.push((Point::new(i % 9, i / 9), self.cells[i]));
            i = i + 1;
        }
        out
    }
}

/// Why a puzzle text was refused.
#[derive(Debug, Clone, Copy, PartialEq, Eq, Structural)]
pub enum ParseError {
    /// The text does not hold exactly nine lines.
    MalformedLineCount,
    /// A line does not hold exactly nine characters.
    MalformedLineLength,
    /// A character is neither a digit from 1 to 9 nor `.`.
    InvalidCharacter,
}

/// The pieces of `s` between newlines; there is always at least one.
pub open spec fn pieces(s: Seq<char>) -> Seq<Seq<char>>
    decreases s.len(),
{
    if s.len() == 0 {
        seq![Seq::empty()]
    } else {
        let p = pieces(s.drop_last());
        if s.last() == '\n' {
            p.push(Seq::empty())
        } else {
            p.update(p.len() - 1, p.last().push(s.last()))
        }
    }
}

/// A line without the carriage return that may end it.
pub open spec fn trim_cr(l: Seq<char>) -> Seq<char> {
    if l.len() > 0 && l.last() == '\r' {
        l.drop_last()
    } else {
        l
    }
}

/// The lines of `s`: the pieces between newlines, each without a carriage
/// return at its end, where a final newline ends the last line rather than
/// starting an empty one.
pub open spec fn lines(s: Seq<char>) -> Seq<Seq<char>> {
    raw_lines(s).map_values(|l: Seq<char>| trim_cr(l))
}

/// The pieces of `s` between newlines, where a final newline ends the last
/// piece rather than starting an empty one.
pub open spec fn raw_lines(s: Seq<char>) -> Seq<Seq<char>> {
    if s.len() == 0 {
        Seq::empty()
    } else if s.last() == '\n' {
        pieces(s.drop_last())
    } else {
        pieces(s)
    }
}

pub open spec fn valid_char(c: char) -> bool {
    c == '.' || ('1' <= c && c <= '9')
}

/// A line of nine characters, each a digit from 1 to 9 or `.`.
pub open spec fn line_ok(l: Seq<char>) -> bool {
    l.len() == 9 && forall|i: int| 0 <= i < 9 ==> valid_char(#[trigger] l[i])
}

/// The error that parsing `ls` meets first, reading line by line, each line
/// first for its length and then for its characters.
pub open spec fn parse_error(ls: Seq<Seq<char>>) -> Option<ParseError> {
    if ls.len() != 9 {
        Some(ParseError::MalformedLineCount)
    } else if exists|i: int|
        0 <= i < 9 && (#[trigger] ls[i]).len() != 9 && forall|j: int| 0 <= j < i ==> line_ok(#[trigger] ls[j]) {
        Some(ParseError::MalformedLineLength)
    } else if exists|i: int|
        0 <= i < 9 && (#[trigger] ls[i]).len() == 9 && !line_ok(ls[i]) && forall|j: int|
            0 <= j < i ==> line_ok(#[trigger] ls[j]) {
        Some(ParseError::InvalidCharacter)
    } else {
        None
    }
}

/// The cell that a character of a puzzle stands for.
pub open spec fn cell_of(c: char) -> GameCell {
    if c == '.' {
        GameCell::SuperState(0x1ff)
    } else {
        GameCell::Fixed((c as u32 - '0' as u32) as u16)
    }
}

/// The cells that the nine lines `ls` stand for, row by row.
pub open spec fn grid_of(ls: Seq<Seq<char>>) -> Seq<GameCell> {
    Seq::new(81, |k: int| cell_of(ls[k / 9][k % 9]))
}

/// The character that shows a cell: its digit when decided, else `.`.
pub open spec fn char_of(c: GameCell) -> char {
    match c {
        GameCell::SuperState(_) => '.',
        GameCell::Fixed(v) => (v + '0' as u16) as char,
    }
}

/// The text of row `y` of `g`, newline included.
pub open spec fn row_text(g: Seq<GameCell>, y: int) -> Seq<char> {
    Seq::new(9, |x: int| char_of(g[9 * y + x])).push('\n')
}

/// The text of the first `n` rows of `g`.
pub open spec fn render_rows(g: Seq<GameCell>, n: nat) -> Seq<char>
    decreases n,
{
    if n == 0 {
        Seq::empty()
    } else {
        render_rows(g, (n - 1) as nat) + row_text(g, n - 1)
    }
}

/// The text of the whole grid `g`: nine lines, each ended by a newline.
pub open spec fn render(g: Seq<GameCell>) -> Seq<char> {
    render_rows(g, 9)
}

proof fn lemma_pieces_nonempty(s: Seq<char>)
    ensures
        pieces(s).len() >= 1,
    decreases s.len(),
{
    if s.len() > 0 {
        lemma_pieces_nonempty(s.drop_last());
    }
}

/// The characters of `s`.
fn chars_of(s: &str) -> (r: Vec<char>)
    ensures
        r@ == s@,
{
    let mut out: Vec<char> = Vec::new();
    for c in it: s.chars()
        invariant
            out@ == it.seq().take(it.index() as int),
    {
        out.push(c);
    }
    out
}

/// Splits `text` into its lines.
fn split_lines(text: &Vec<char>) -> (r: Vec<Vec<char>>)
    ensures
        r@.map_values(|l: Vec<char>| l@) == raw_lines(text@),
{
    let mut done: Vec<Vec<char>> = Vec::new();
    let mut cur: Vec<char> = Vec::new();
    let mut i: usize = 0;
    while i < text.len()
        invariant
            i <= text.len(),
            done@.map_values(|l: Vec<char>| l@).push(cur@) == pieces(text@.take(i as int)),
        decreases text.len() - i,
    {
        let c = text[i];
        proof {
            assert(text@.take(i + 1).drop_last() == text@.take(i as int));
            lemma_pieces_nonempty(text@.take(i as int));
        }
        if c == '\n' {
            let ghost before = done@;
            let line = cur;
            done.push(line);
            cur = Vec::new();
            assert(done@.map_values(|l: Vec<char>| l@) == before.map_values(|l: Vec<char>| l@).push(line@));
        } else {
            cur.push(c);
        }
        i = i + 1;
    }
    assert(text@.take(text.len() as int) == text@);
    if text.len() == 0 {
        let r: Vec<Vec<char>> = Vec::new();
        assert(r@.map_values(|l: Vec<char>| l@) =~= raw_lines(text@));
        r
    } else if text[text.len() - 1] == '\n' {
        proof {
            assert(text@.take(text.len() - 1) == text@.drop_last());
            assert(text@.take(text.len() as int).drop_last() == text@.take(text.len() - 1));
            lemma_pieces_nonempty(text@.drop_last());
            let m = done@.map_values(|l: Vec<char>| l@);
            assert(m.push(cur@).drop_last() =~= m);
        }
        done
    } else {
        let ghost before = done@;
        done.push(cur);
        assert(done@.map_values(|l: Vec<char>| l@) == before.map_values(|l: Vec<char>| l@).push(cur@));
        done
    }
}

/// The text that shows one cell.
fn cell_text(c: GameCell) -> (r: &'static str)
    requires
        cell_ok(c),
    ensures
        r@ == seq![char_of(c)],
{
    match c {
        GameCell::SuperState(_) => {
            proof {
                reveal_strlit(".");
            }
            "."
        },
        GameCell::Fixed(v) => {
            if v == 1 {
                proof {
                    reveal_strlit("1");
                }
                "1"
            } else if v == 2 {
                proof {
                    reveal_strlit("2");
                }
                "2"
            } else if v == 3 {
                proof {
                    reveal_strlit("3");
                }
                "3"
            } else if v == 4 {
                proof {
                    reveal_strlit("4");
                }
                "4"
            } else if v == 5 {
                proof {
                    reveal_strlit("5");
                }
                "5"
            } else if v == 6 {
                proof {
                    reveal_strlit("6");
                }
                "6"
            } else if v == 7 {
                proof {
                    reveal_strlit("7");
                }
                "7"
            } else if v == 8 {
                proof {
                    reveal_strlit("8");
                }
                "8"
            } else {
                proof {
                    reveal_strlit("9");
                }
                "9"
            }
        },
    }
}

impl GameState {
    /// Reads a puzzle: nine lines of nine characters, a digit from 1 to 9
    /// for a clue and `.` for a blank. Clues become decided cells, blanks
    /// cells where every value is still possible.
    pub fn parse(problem: &str) -> (r: Result<GameState, ParseError>)
        ensures
            match r {
                Ok(g) => parse_error(lines(problem@)) is None && g.wf() && g@ == grid_of(
                    lines(problem@),
                ),
                Err(e) => parse_error(lines(problem@)) == Some(e),
            },
    {
        let text = chars_of(problem);
        let ls = split_lines(&text);
        let ghost rv = ls@.map_values(|l: Vec<char>| l@);
        let ghost lv = lines(problem@);
        assert(rv == raw_lines(problem@));
        if ls.len() != 9 {
            return Err(ParseError::MalformedLineCount);
        }
        let mut cells: Vec<GameCell> = Vec::new();
        let mut y: usize = 0;
        while y < 9
            invariant
                ls@.len() == 9,
                rv == ls@.map_values(|l: Vec<char>| l@),
                lv == rv.map_values(|l: Seq<char>| trim_cr(l)),
                lv == lines(problem@),
                y <= 9,
                cells@.len() == 9 * y,
                forall|j: int| 0 <= j < y ==> line_ok(#[trigger] lv[j]),
                forall|k: int| 0 <= k < 9 * y ==> #[trigger] cells@[k] == cell_of(lv[k / 9][k % 9]),
                forall|k: int| 0 <= k < 9 * y ==> cell_ok(#[trigger] cells@[k]),
            decreases 9 - y,
        {
            let line = &ls[y];
            assert(line@ == rv[y as int]);
            assert(lv[y as int] == trim_cr(line@));
            let len = if line.len() > 0 && line[line.len() - 1] == '\r' {
                line.len() - 1
            } else {
                line.len()
            };
            assert(lv[y as int].len() == len);
            if len != 9 {
                return Err(ParseError::MalformedLineLength);
            }
            let mut x: usize = 0;
            while x < 9
                invariant
                    ls@.len() == 9,
                    rv == ls@.map_values(|l: Vec<char>| l@),
                    lv == rv.map_values(|l: Seq<char>| trim_cr(l)),
                    lv == lines(problem@),
                    y < 9,
                    x <= 9,
                    line@ == rv[y as int],
                    lv[y as int] == trim_cr(line@),
                    lv[y as int].len() == 9,
                    cells@.len() == 9 * y + x,
                    forall|j: int| 0 <= j < y ==> line_ok(#[trigger] lv[j]),
                    forall|i: int| 0 <= i < x ==> valid_char(#[trigger] lv[y as int][i]),
                    forall|k: int|
                        0 <= k < 9 * y + x ==> #[trigger] cells@[k] == cell_of(lv[k / 9][k % 9]),
                    forall|k: int| 0 <= k < 9 * y + x ==> cell_ok(#[trigger] cells@[k]),
                decreases 9 - x,
            {
                let c = line[x];
                assert(c == lv[y as int][x as int]);
                if c == '.' {
                    cells.push(GameCell::SuperState(ALL_CELL_POSSIBILITIES));
                } else if '1' <= c && c <= '9' {
                    cells.push(GameCell::Fixed((c as u32 - '0' as u32) as u16));
                } else {
                    assert(!line_ok(lv[y as int]));
                    return Err(ParseError::InvalidCharacter);
                }
                assert((9 * y + x) / 9 == y && (9 * y + x) % 9 == x);
                x = x + 1;
            }
            assert(line_ok(lv[y as int]));
            y = y + 1;
        }
        let state = GameState { cells };
        assert(state@ =~= grid_of(lv));
        Ok(state)
    }

    /// The grid as text: a line for each row, a digit for each decided cell
    /// and `.` for each other, each line ended by a newline.
    pub fn to_string(&self) -> (r: String)
        requires
            self.wf(),
        ensures
            r@ == render(self@),
    {
        let mut out = String::new();
        let mut y: usize = 0;
        while y < 9
            invariant
                self.wf(),
                y <= 9,
                out@ == render_rows(self@, y as nat),
            decreases 9 - y,
        {
            let ghost start = out@;
            let mut x: usize = 0;
            while x < 9
                invariant
                    self.wf(),
                    y < 9,
                    x <= 9,
                    out@ == start + Seq::new(x as nat, |i: int| char_of(self@[9 * y + i])),
                decreases 9 - x,
            {
                let t = cell_text(self.cells[9 * y + x]);
                out.append(t);
                assert(out@ =~= start + Seq::new((x + 1) as nat, |i: int| char_of(self@[9 * y + i])));
                x = x + 1;
            }
            proof {
                reveal_strlit("\n");
            }
            out.append("\n");
            assert(out@ =~= render_rows(self@, (y + 1) as nat));
            y = y + 1;
        }
        out
    }
}

/// The lines `ps` joined with a newline between each two.
pub open spec fn join(ps: Seq<Seq<char>>) -> Seq<char>
    decreases ps.len(),
{
    if ps.len() == 0 {
        Seq::empty()
    } else if ps.len() == 1 {
        ps[0]
    } else {
        join(ps.drop_last()) + seq!['\n'] + ps.last()
    }
}

proof fn lemma_join_pieces(s: Seq<char>)
    ensures
        join(pieces(s)) == s,
    decreases s.len(),
{
    if s.len() == 0 {
        assert(join(pieces(s)) =~= s);
    } else {
        let t = s.drop_last();
        let c = s.last();
        lemma_join_pieces(t);
        lemma_pieces_nonempty(t);
        let p = pieces(t);
        assert(s =~= t.push(c));
        if c == '\n' {
            let q = p.push(Seq::empty());
            assert(q.drop_last() =~= p);
            assert(join(q) =~= s);
        } else {
            let q = p.update(p.len() - 1, p.last().push(c));
            if p.len() == 1 {
                assert(join(q) =~= s);
            } else {
                assert(q.drop_last() =~= p.drop_last());
                assert(join(q) =~= s);
            }
        }
    }
}

proof fn lemma_render_rows(ls: Seq<Seq<char>>, n: nat)
    requires
        ls.len() == 9,
        forall|i: int| 0 <= i < 9 ==> line_ok(#[trigger] ls[i]),
        1 <= n <= 9,
    ensures
        render_rows(grid_of(ls), n) == join(ls.take(n as int)).push('\n'),
    decreases n,
{
    let g = grid_of(ls);
    let y = n - 1;
    assert(line_ok(ls[y]));
    assert forall|x: int| 0 <= x < 9 implies char_of(g[9 * y + x]) == #[trigger] ls[y][x] by {
        assert((9 * y + x) / 9 == y && (9 * y + x) % 9 == x);
        assert(valid_char(ls[y][x]));
    }
    assert(row_text(g, y) =~= ls[y].push('\n'));
    if n == 1 {
        assert(render_rows(g, 0) == Seq::<char>::empty());
        assert(join(ls.take(1)) == ls[0]);
        assert(render_rows(g, 1) =~= join(ls.take(1)).push('\n'));
    } else {
        lemma_render_rows(ls, (n - 1) as nat);
        assert(ls.take(n as int).drop_last() =~= ls.take(n - 1));
        assert(render_rows(g, n) =~= join(ls.take(n as int)).push('\n'));
    }
}

proof fn lemma_lines_ok(ls: Seq<Seq<char>>, i: int)
    requires
        ls.len() == 9,
        parse_error(ls) is None,
        0 <= i < 9,
    ensures
        forall|j: int| 0 <= j <= i ==> line_ok(#[trigger] ls[j]),
    decreases i,
{
    if i > 0 {
        lemma_lines_ok(ls, i - 1);
    }
    if !line_ok(ls[i]) {
        if ls[i].len() != 9 {
            assert(forall|j: int| 0 <= j < i ==> line_ok(#[trigger] ls[j]));
        }
    }
}

proof fn lemma_pieces_no_cr(s: Seq<char>)
    requires
        forall|i: int| 0 <= i < s.len() ==> s[i] != '\r',
    ensures
        forall|i: int| 0 <= i < pieces(s).len() ==> trim_cr(#[trigger] pieces(s)[i]) == pieces(s)[i],
    decreases s.len(),
{
    if s.len() > 0 {
        lemma_pieces_no_cr(s.drop_last());
        lemma_pieces_nonempty(s.drop_last());
        let p = pieces(s.drop_last());
        assert(s.last() != '\r');
        if s.last() == '\n' {
            assert forall|i: int| 0 <= i < pieces(s).len() implies trim_cr(#[trigger] pieces(s)[i])
                == pieces(s)[i] by {
                if i < p.len() {
                    assert(pieces(s)[i] == p[i]);
                }
            }
        } else {
            assert forall|i: int| 0 <= i < pieces(s).len() implies trim_cr(#[trigger] pieces(s)[i])
                == pieces(s)[i] by {
                if i < p.len() - 1 {
                    assert(pieces(s)[i] == p[i]);
                } else {
                    assert(pieces(s)[i] == p.last().push(s.last()));
                }
            }
        }
    }
}

/// Rendering what a valid puzzle text without carriage returns parses to
/// gives the text back, with a newline after the last line: added when the
/// text lacks it, kept when it has it.
pub proof fn render_parse_round_trip(s: Seq<char>)
    requires
        parse_error(lines(s)) is None,
        forall|i: int| 0 <= i < s.len() ==> s[i] != '\r',
    ensures
        render(grid_of(lines(s))) == if s.last() == '\n' {
            s
        } else {
            s.push('\n')
        },
{
    let ls = lines(s);
    assert(s.len() > 0);
    if s.last() == '\n' {
        lemma_pieces_no_cr(s.drop_last());
    } else {
        lemma_pieces_no_cr(s);
    }
    assert(ls =~= raw_lines(s));
    assert forall|i: int| 0 <= i < 9 implies line_ok(#[trigger] ls[i]) by {
        lemma_lines_ok(ls, i);
    }
    lemma_render_rows(ls, 9);
    assert(ls.take(9) =~= ls);
    if s.last() == '\n' {
        lemma_join_pieces(s.drop_last());
        assert(s.drop_last().push('\n') =~= s);
    } else {
        lemma_join_pieces(s);
    }
}

/// Ruling out value `v` from a mask of the nine value bits clears exactly
/// the bit of `v`; doing it again changes nothing.
pub proof fn constrain_clears_one_bit(m: u16, v: u16)
    requires
        m <= 0x1ff,
        1 <= v <= 9,
    ensures
        cleared(m, v) == m & !(1u16 << ((v - 1) as u16)),
        cleared(cleared(m, v), v) == cleared(m, v),
        forall|w: int| #[trigger] has_value(cleared(m, v), w) <==> has_value(m, w) && w != v,
{
    let n = cleared(m, v);
    assert(n == m & !(1u16 << ((v - 1) as u16)) && (n & (0x1ffu16 & !(1u16 << ((v - 1) as u16))))
        == n) by (bit_vector)
        requires
            m <= 0x1ff,
            1 <= v <= 9,
            n == m & (0x1ffu16 & !(1u16 << ((v - 1) as u16))),
    ;
    assert forall|w: int| #[trigger] has_value(cleared(m, v), w) <==> has_value(m, w) && w != v by {
        if 1 <= w <= 9 {
            let wu = w as u16;
            assert(((n >> ((wu - 1) as u16)) & 1u16 == 1u16) <==> (((m >> ((wu - 1) as u16)) & 1u16
                == 1u16) && wu != v)) by (bit_vector)
                requires
                    1 <= wu <= 9,
                    1 <= v <= 9,
                    n == m & (0x1ffu16 & !(1u16 << ((v - 1) as u16))),
            ;
        }
    }
}

} // verus!

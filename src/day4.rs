//! Word search over a grid of the letters `X`, `M`, `A` and `S`: occurrences
//! of `XMAS` in the eight directions, and of two crossing `MAS` diagonals.
use vstd::prelude::*;

use crate::common::Solution;
use crate::text::{chars_of, find_char, next_index};

verus! {

/// The grid as numbers: its letters row after row, and its size.
pub struct Grid {
    pub cells: Seq<u8>,
    pub width: int,
    pub height: int,
}

pub open spec fn is_grid_char(c: char) -> bool {
    c == 'X' || c == 'M' || c == 'A' || c == 'S' || c == '\r' || c == '\n'
}

/// The bytes of `s` that are neither `\n` nor `\r`.
pub open spec fn grid_bytes(s: Seq<char>) -> Seq<u8>
    decreases s.len(),
{
    if s.len() == 0 {
        Seq::empty()
    } else if s.last() == '\n' || s.last() == '\r' {
        grid_bytes(s.drop_last())
    } else {
        grid_bytes(s.drop_last()).push(s.last() as u8)
    }
}

/// The number of `\n` in `s`.
pub open spec fn newlines(s: Seq<char>) -> int
    decreases s.len(),
{
    if s.len() == 0 {
        0
    } else {
        newlines(s.drop_last()) + if s.last() == '\n' { 1int } else { 0int }
    }
}

/// The number of lines of `s`: a last line needs no line ending.
pub open spec fn line_count(s: Seq<char>) -> int {
    newlines(s) + if s.len() > 0 && s.last() != '\n' { 1int } else { 0int }
}

/// The length of the first line of `s`, without its `\n` or `\r\n` ending.
pub open spec fn first_line_len(s: Seq<char>) -> int {
    let k = next_index(s, '\n', 0);
    if k < s.len() && k > 0 && s[k - 1] == '\r' {
        k - 1
    } else {
        k
    }
}

pub open spec fn grid_of(s: Seq<char>) -> Grid {
    Grid { cells: grid_bytes(s), width: first_line_len(s), height: line_count(s) }
}

/// The letter at column `x` of row `y`. Rows are found `height` letters
/// apart, so a grid that is not square is read askew.
pub open spec fn cell(g: Grid, x: int, y: int) -> Option<u8> {
    if x < 0 || x >= g.width || y < 0 || y >= g.height {
        None
    } else if y * g.height + x < g.cells.len() {
        Some(g.cells[y * g.height + x])
    } else {
        None
    }
}

/// `M`, `A`, `S` at one, two and three steps from `(x, y)` in direction
/// `(dx, dy)`.
pub open spec fn xmas_towards(g: Grid, x: int, y: int, dx: int, dy: int) -> bool {
    cell(g, x + dx, y + dy) == Some('M' as u8) && cell(g, x + 2 * dx, y + 2 * dy) == Some(
        'A' as u8,
    ) && cell(g, x + 3 * dx, y + 3 * dy) == Some('S' as u8)
}

pub open spec fn one_if(b: bool) -> int {
    if b {
        1
    } else {
        0
    }
}

/// The number of `XMAS` that start at `(x, y)`, over the eight directions.
pub open spec fn xmas_count(g: Grid, x: int, y: int) -> int {
    if cell(g, x, y) != Some('X' as u8) {
        0
    } else {
        one_if(xmas_towards(g, x, y, 0, -1)) + one_if(xmas_towards(g, x, y, 1, -1)) + one_if(
            xmas_towards(g, x, y, 1, 0),
        ) + one_if(xmas_towards(g, x, y, 1, 1)) + one_if(xmas_towards(g, x, y, 0, 1)) + one_if(
            xmas_towards(g, x, y, -1, 1),
        ) + one_if(xmas_towards(g, x, y, -1, 0)) + one_if(xmas_towards(g, x, y, -1, -1))
    }
}

/// One `M` and one `S`, in either order.
pub open spec fn is_mas_arm(a: Option<u8>, b: Option<u8>) -> bool {
    (a == Some('M' as u8) && b == Some('S' as u8)) || (a == Some('S' as u8) && b == Some(
        'M' as u8,
    ))
}

/// An `A` at `(x, y)` whose two diagonals each read `MAS` one way or the other.
pub open spec fn is_x_mas_at(g: Grid, x: int, y: int) -> bool {
    cell(g, x, y) == Some('A' as u8) && is_mas_arm(cell(g, x - 1, y - 1), cell(g, x + 1, y + 1))
        && is_mas_arm(cell(g, x + 1, y - 1), cell(g, x - 1, y + 1))
}

/// The column and row given to the `i`-th letter when the letters are walked
/// in order, the column wrapping to zero at the grid's width.
pub open spec fn position(g: Grid, i: int) -> (int, int)
    decreases i,
{
    if i <= 0 {
        (0, 0)
    } else {
        let (x, y) = position(g, i - 1);
        if x + 1 == g.width {
            (0, y + 1)
        } else {
            (x + 1, y)
        }
    }
}

/// The sum of `xmas_count` over the first `n` letters that are `X`.
pub open spec fn xmas_total(g: Grid, n: int) -> int
    decreases n,
{
    if n <= 0 {
        0
    } else {
        let (x, y) = position(g, n - 1);
        xmas_total(g, n - 1) + if g.cells[n - 1] == 'X' as u8 {
            xmas_count(g, x, y)
        } else {
            0
        }
    }
}

/// The number of the first `n` letters that are an `A` crossed by two `MAS`.
pub open spec fn x_mas_total(g: Grid, n: int) -> int
    decreases n,
{
    if n <= 0 {
        0
    } else {
        let (x, y) = position(g, n - 1);
        x_mas_total(g, n - 1) + if g.cells[n - 1] == 'A' as u8 {
            one_if(is_x_mas_at(g, x, y))
        } else {
            0
        }
    }
}

/// The number of `XMAS` in the grid that `s` writes.
pub open spec fn xmas_answer(s: Seq<char>) -> int {
    xmas_total(grid_of(s), grid_of(s).cells.len() as int)
}

/// The number of `A` crossed by two `MAS` in the grid that `s` writes.
pub open spec fn x_mas_answer(s: Seq<char>) -> int {
    x_mas_total(grid_of(s), grid_of(s).cells.len() as int)
}

/// A grid of letters.
#[derive(Debug)]
pub struct WordSearch {
    pub characters: Vec<u8>,
    pub width: usize,
    pub height: usize,
}

impl View for WordSearch {
    type V = Grid;

    open spec fn view(&self) -> Grid {
        Grid { cells: self.characters@, width: self.width as int, height: self.height as int }
    }
}

proof fn lemma_newlines_bound(s: Seq<char>)
    ensures
        0 <= newlines(s) <= s.len(),
    decreases s.len(),
{
    if s.len() > 0 {
        lemma_newlines_bound(s.drop_last());
    }
}

/// `p + d * k` where it lies in `0..bound`.
fn offset(p: usize, d: i8, k: usize, bound: usize) -> (r: Option<usize>)
    requires
        -1 <= d <= 1,
    ensures
        match r {
            Some(q) => q == p + d * k && q < bound,
            None => p + d * k < 0 || p + d * k >= bound,
        },
{
    proof {
        if d == 1 {
            assert(d * k == k);
        } else if d == -1 {
            assert(d * k == -k);
        } else {
            assert(d * k == 0);
        }
    }
    if d == 0 {
        if p < bound {
            Some(p)
        } else {
            None
        }
    } else if d > 0 {
        if p < bound && k < bound - p {
            Some(p + k)
        } else {
            None
        }
    } else {
        if k <= p && p - k < bound {
            Some(p - k)
        } else {
            None
        }
    }
}

impl WordSearch {
    /// Reads a grid: lines of the letters `X`, `M`, `A` and `S`. Fails on
    /// any other character but line endings, and on empty input.
    pub fn from(input: &str) -> (r: Result<Self, String>)
        ensures
            match r {
                Ok(ws) => ws@ == grid_of(input@) && input@.len() > 0 && forall|i: int|
                    0 <= i < input@.len() ==> is_grid_char(#[trigger] input@[i]),
                Err(_) => input@.len() == 0 || exists|i: int|
                    0 <= i < input@.len() && !is_grid_char(#[trigger] input@[i]),
            },
    {
        let s = chars_of(input);
        let mut characters: Vec<u8> = Vec::new();
        let mut lines: usize = 0;
        let mut i: usize = 0;
        while i < s.len()
            invariant
                i <= s@.len(),
                s@ == input@,
                lines <= i,
                forall|j: int| 0 <= j < i ==> is_grid_char(#[trigger] s@[j]),
                characters@ == grid_bytes(s@.take(i as int)),
                lines == newlines(s@.take(i as int)),
            decreases s@.len() - i,
        {
            let c = s[i];
            if !Self::is_valid_char(c) {
                return Err("Input contains invalid characters".to_owned());
            }
            proof {
                assert(s@.take(i + 1).drop_last() == s@.take(i as int));
            }
            if c == '\n' {
                lines += 1;
            } else if c != '\r' {
                characters.push(c as u8);
            }
            i += 1;
        }
        proof {
            assert(s@.take(i as int) == s@);
        }
        if s.len() == 0 {
            return Err("empty input".to_owned());
        }
        proof {
            lemma_newlines_bound(s@.drop_last());
            assert(s@.drop_last() == s@.take(s@.len() - 1));
        }
        let height = if s[s.len() - 1] != '\n' {
            lines + 1
        } else {
            lines
        };
        let end = find_char(&s, '\n', 0);
        let width = if end < s.len() && end > 0 && s[end - 1] == '\r' {
            end - 1
        } else {
            end
        };
        Ok(Self { characters, width, height })
    }

    fn is_valid_char(c: char) -> (r: bool)
        ensures
            r == is_grid_char(c),
    {
        c == 'X' || c == 'M' || c == 'A' || c == 'S' || c == '\r' || c == '\n'
    }

    /// The letter at column `x` of row `y`, read as `cell` says.
    fn cell_at(&self, x: usize, y: usize) -> (r: Option<u8>)
        ensures
            r == cell(self@, x as int, y as int),
    {
        let n = self.characters.len();
        if x >= self.width || y >= self.height {
            return None;
        }
        match y.checked_mul(self.height) {
            None => None,
            Some(row) => match row.checked_add(x) {
                None => None,
                Some(index) => if index < n {
                    Some(self.characters[index])
                } else {
                    None
                },
            },
        }
    }

    /// The letter at column `x` of row `y`, if there is one.
    pub fn get_at(&self, x: i32, y: i32) -> (r: Option<char>)
        ensures
            r == (match cell(self@, x as int, y as int) {
                Some(b) => Some(b as char),
                None => None,
            }),
    {
        if x < 0 || y < 0 {
            return None;
        }
        match self.cell_at(x as usize, y as usize) {
            Some(b) => Some(b as char),
            None => None,
        }
    }

    /// Whether the letter `k` steps from `(x, y)` in direction `(dx, dy)` is
    /// `letter`.
    fn letter_at(&self, x: usize, y: usize, dx: i8, dy: i8, k: usize, letter: u8) -> (r: bool)
        requires
            -1 <= dx <= 1,
            -1 <= dy <= 1,
        ensures
            r == (cell(self@, x + dx * k, y + dy * k) == Some(letter)),
    {
        match (offset(x, dx, k, self.width), offset(y, dy, k, self.height)) {
            (Some(px), Some(py)) => self.cell_at(px, py) == Some(letter),
            _ => false,
        }
    }
}

/// Whether `XMAS` reads from `(x, y)` in direction `(dx, dy)`.
fn search_xmas(word_search: &WordSearch, x: usize, y: usize, dx: i8, dy: i8) -> (r: bool)
    requires
        -1 <= dx <= 1,
        -1 <= dy <= 1,
    ensures
        r == xmas_towards(word_search@, x as int, y as int, dx as int, dy as int),
{
    word_search.letter_at(x, y, dx, dy, 1, 'M' as u8) && word_search.letter_at(
        x,
        y,
        dx,
        dy,
        2,
        'A' as u8,
    ) && word_search.letter_at(x, y, dx, dy, 3, 'S' as u8)
}

/// The number of `XMAS` that start at `(x, y)`.
fn count_xmas(word_search: &WordSearch, x: usize, y: usize) -> (r: u32)
    ensures
        r == xmas_count(word_search@, x as int, y as int),
        r <= 8,
{
    if word_search.cell_at(x, y) != Some('X' as u8) {
        return 0;
    }
    let mut count: u32 = 0;
    if search_xmas(word_search, x, y, 0, -1) {
        count += 1;
    }
    if search_xmas(word_search, x, y, 1, -1) {
        count += 1;
    }
    if search_xmas(word_search, x, y, 1, 0) {
        count += 1;
    }
    if search_xmas(word_search, x, y, 1, 1) {
        count += 1;
    }
    if search_xmas(word_search, x, y, 0, 1) {
        count += 1;
    }
    if search_xmas(word_search, x, y, -1, 1) {
        count += 1;
    }
    if search_xmas(word_search, x, y, -1, 0) {
        count += 1;
    }
    if search_xmas(word_search, x, y, -1, -1) {
        count += 1;
    }
    count
}

/// Whether the `A` at `(x, y)` is crossed by two `MAS` diagonals.
fn is_x_mas(word_search: &WordSearch, x: usize, y: usize) -> (r: bool)
    ensures
        r == is_x_mas_at(word_search@, x as int, y as int),
{
    if word_search.cell_at(x, y) != Some('A' as u8) {
        return false;
    }
    let top_left = if x >= 1 && y >= 1 { word_search.cell_at(x - 1, y - 1) } else { None };
    let bot_right = if x < usize::MAX && y < usize::MAX {
        word_search.cell_at(x + 1, y + 1)
    } else {
        None
    };
    let top_right = if x < usize::MAX && y >= 1 { word_search.cell_at(x + 1, y - 1) } else { None };
    let bot_left = if x >= 1 && y < usize::MAX { word_search.cell_at(x - 1, y + 1) } else { None };
    is_arm(top_left, bot_right) && is_arm(top_right, bot_left)
}

fn is_arm(a: Option<u8>, b: Option<u8>) -> (r: bool)
    ensures
        r == is_mas_arm(a, b),
{
    match (a, b) {
        (Some(a), Some(b)) => (a == 'M' as u8 && b == 'S' as u8) || (a == 'S' as u8 && b == 'M' as u8),
        _ => false,
    }
}

proof fn lemma_totals_grow(g: Grid, i: int, n: int)
    requires
        0 <= i <= n <= g.cells.len(),
    ensures
        0 <= xmas_total(g, i) <= xmas_total(g, n),
        0 <= x_mas_total(g, i) <= x_mas_total(g, n),
    decreases n,
{
    if n > 0 {
        if i < n {
            lemma_totals_grow(g, i, n - 1);
        } else {
            lemma_totals_grow(g, 0, n - 1);
        }
    }
}

/// What `solve` returns for `input`.
pub open spec fn solved(input: Seq<char>, r: Result<Solution, String>) -> bool {
    match r {
        Ok(sol) => input.len() > 0 && (forall|i: int|
            0 <= i < input.len() ==> is_grid_char(#[trigger] input[i]))
            && sol.one_star_answer == xmas_answer(input)
            && sol.two_star_answer == x_mas_answer(input),
        Err(_) => input.len() == 0 || (exists|i: int|
            0 <= i < input.len() && !is_grid_char(#[trigger] input[i]))
            || xmas_answer(input) > i32::MAX || x_mas_answer(input) > i32::MAX,
    }
}

/// Both answers for a word search: the number of `XMAS` in any of the eight
/// directions, and the number of `A` crossed by two `MAS` diagonals. Fails
/// when the grid cannot be read, or when a count does not fit in an `i32`.
pub fn solve(input: String) -> (r: Result<Solution, String>)
    ensures
        solved(input@, r),
{
    let word_search = WordSearch::from(input.as_str())?;
    let ghost g = word_search@;
    let n = word_search.characters.len();
    let mut one_star_answer: i32 = 0;
    let mut two_star_answer: i32 = 0;
    let mut x: usize = 0;
    let mut y: usize = 0;
    let mut i: usize = 0;
    while i < n
        invariant
            g == word_search@,
            g == grid_of(input@),
            n == g.cells.len(),
            i <= n,
            (x as int, y as int) == position(g, i as int),
            x <= i,
            y <= i,
            one_star_answer == xmas_total(g, i as int),
            two_star_answer == x_mas_total(g, i as int),
        decreases n - i,
    {
        proof {
            lemma_totals_grow(g, i + 1, n as int);
        }
        let c = word_search.characters[i];
        if c == 'X' as u8 {
            let k = count_xmas(&word_search, x, y);
            assert(xmas_total(g, i + 1) == one_star_answer + k);
            if one_star_answer > i32::MAX - k as i32 {
                return Err("the count of XMAS does not fit in an i32".to_owned());
            }
            one_star_answer += k as i32;
        } else if c == 'A' as u8 {
            if is_x_mas(&word_search, x, y) {
                assert(x_mas_total(g, i + 1) == two_star_answer + 1);
                if two_star_answer == i32::MAX {
                    return Err("the count of X-MAS does not fit in an i32".to_owned());
                }
                two_star_answer += 1;
            }
        }
        i += 1;
        if x + 1 == word_search.width {
            x = 0;
            y += 1;
        } else {
            x += 1;
        }
    }
    Ok(Solution { one_star_answer, two_star_answer })
}

} // verus!

//! A rectangular patch of trees: which of them can be seen from outside,
//! and how far one sees from each of them.

use vstd::prelude::*;

verus! {

/// The heights of the trees, row by row.
pub open spec fn heights(grid: Seq<Vec<u8>>) -> Seq<Seq<u8>> {
    Seq::new(grid.len(), |r: int| grid[r]@)
}

/// Whether all rows are as long as the first.
pub open spec fn rectangular(g: Seq<Seq<u8>>) -> bool {
    forall|r: int| 0 <= r < g.len() ==> (#[trigger] g[r]).len() == g[0].len()
}

/// The number of trees in a row.
pub open spec fn width(g: Seq<Seq<u8>>) -> int {
    if g.len() == 0 {
        0
    } else {
        g[0].len() as int
    }
}

/// Whether the place lies in the patch.
pub open spec fn in_patch(g: Seq<Seq<u8>>, p: (int, int)) -> bool {
    0 <= p.0 < g.len() && 0 <= p.1 < width(g)
}

/// The place `k` steps from `p` in the direction `d`: 0 is towards the
/// start of the row, 1 towards its end, 2 towards the first row, 3 towards
/// the last.
pub open spec fn away(p: (int, int), d: int, k: int) -> (int, int) {
    if d == 0 {
        (p.0, p.1 - k)
    } else if d == 1 {
        (p.0, p.1 + k)
    } else if d == 2 {
        (p.0 - k, p.1)
    } else {
        (p.0 + k, p.1)
    }
}

/// Whether every tree between `p` and the edge in the direction `d` is
/// lower than the one at `p`.
pub open spec fn open_towards(g: Seq<Seq<u8>>, p: (int, int), d: int) -> bool {
    forall|k: int|
        1 <= k && in_patch(g, #[trigger] away(p, d, k)) ==> g[away(p, d, k).0][away(p, d, k).1]
            < g[p.0][p.1]
}

/// Whether the tree at `p` can be seen from outside the patch.
pub open spec fn visible(g: Seq<Seq<u8>>, p: (int, int)) -> bool {
    open_towards(g, p, 0) || open_towards(g, p, 1) || open_towards(g, p, 2) || open_towards(g, p, 3)
}

/// How many trees one sees from `p` in the direction `d`, the first `k - 1`
/// of them being lower than the tree at `p`: those up to the first that is
/// as high as that tree or higher, or up to the edge.
pub open spec fn view_from(g: Seq<Seq<u8>>, p: (int, int), d: int, k: int) -> int
    decreases g.len() + width(g) - k,
{
    if k >= g.len() + width(g) || !in_patch(g, away(p, d, k)) {
        k - 1
    } else if g[away(p, d, k).0][away(p, d, k).1] >= g[p.0][p.1] {
        k
    } else {
        view_from(g, p, d, k + 1)
    }
}

/// The product of the numbers of trees seen from `p` in the four
/// directions.
pub open spec fn scenic(g: Seq<Seq<u8>>, p: (int, int)) -> int {
    view_from(g, p, 0, 1) * view_from(g, p, 1, 1) * view_from(g, p, 2, 1) * view_from(g, p, 3, 1)
}

/// How many of the first `n` trees of row `r` can be seen from outside.
pub open spec fn visible_in_row(g: Seq<Seq<u8>>, r: int, n: int) -> nat
    decreases n,
{
    if n <= 0 {
        0
    } else {
        visible_in_row(g, r, n - 1) + if visible(g, (r, n - 1)) {
            1nat
        } else {
            0nat
        }
    }
}

/// How many trees of the first `rows` rows can be seen from outside.
pub open spec fn visible_in_rows(g: Seq<Seq<u8>>, rows: int) -> nat
    decreases rows,
{
    if rows <= 0 {
        0
    } else {
        visible_in_rows(g, rows - 1) + visible_in_row(g, rows - 1, width(g))
    }
}

/// Whether `best` is the greatest scenic score of a tree of the patch, or 0
/// where there is no tree.
pub open spec fn is_best_scenic(g: Seq<Seq<u8>>, best: int) -> bool {
    &&& forall|p: (int, int)| in_patch(g, p) ==> #[trigger] scenic(g, p) <= best
    &&& if g.len() == 0 || width(g) == 0 {
        best == 0
    } else {
        exists|p: (int, int)| in_patch(g, p) && #[trigger] scenic(g, p) == best
    }
}

/// The place `k` steps from the tree in row `r` and column `c`, if it lies
/// in the patch.
pub fn step_away(grid: &Vec<Vec<u8>>, r: usize, c: usize, d: u8, k: usize) -> (place: Option<
    (usize, usize),
>)
    requires
        rectangular(heights(grid@)),
        in_patch(heights(grid@), (r as int, c as int)),
        d < 4,
    ensures
        place is Some == in_patch(heights(grid@), away((r as int, c as int), d as int, k as int)),
        place matches Some(q) ==> (q.0 as int, q.1 as int) == away(
            (r as int, c as int),
            d as int,
            k as int,
        ),
{
    let rows = grid.len();
    let cols = grid[0].len();
    if d == 0 {
        if k <= c {
            Some((r, c - k))
        } else {
            None
        }
    } else if d == 1 {
        if k < cols - c {
            Some((r, c + k))
        } else {
            None
        }
    } else if d == 2 {
        if k <= r {
            Some((r - k, c))
        } else {
            None
        }
    } else {
        if k < rows - r {
            Some((r + k, c))
        } else {
            None
        }
    }
}

/// How many trees one sees from the tree in row `r` and column `c` in the
/// direction `d`, and whether one sees as far as the edge, over lower
/// trees only.
pub fn look(grid: &Vec<Vec<u8>>, r: usize, c: usize, d: u8) -> (seen: (usize, bool))
    requires
        rectangular(heights(grid@)),
        in_patch(heights(grid@), (r as int, c as int)),
        d < 4,
    ensures
        seen.0 == view_from(heights(grid@), (r as int, c as int), d as int, 1),
        seen.1 == open_towards(heights(grid@), (r as int, c as int), d as int),
        seen.0 < grid@.len() + width(heights(grid@)),
        d < 2 ==> seen.0 < width(heights(grid@)),
        d >= 2 ==> seen.0 < grid@.len(),
{
    let ghost g = heights(grid@);
    let ghost p = (r as int, c as int);
    assert(g[r as int] == grid@[r as int]@);
    assert(g[0] == grid@[0]@);
    let own = grid[r][c];
    let rows = grid.len();
    let cols = grid[0].len();
    let mut k: usize = 1;
    loop
        invariant
            1 <= k <= grid@.len() + width(g),
            rows == grid@.len(),
            cols == width(g),
            d < 2 ==> k <= width(g),
            d >= 2 ==> k <= grid@.len(),
            g == heights(grid@),
            p == (r as int, c as int),
            rectangular(g),
            in_patch(g, p),
            d < 4,
            own == g[p.0][p.1],
            view_from(g, p, d as int, 1) == view_from(g, p, d as int, k as int),
            forall|j: int|
                1 <= j < k ==> in_patch(g, #[trigger] away(p, d as int, j)) && g[away(
                    p,
                    d as int,
                    j,
                ).0][away(p, d as int, j).1] < own,
        decreases grid@.len() + width(g) - k,
    {
        match step_away(grid, r, c, d, k) {
            None => {
                proof {
                    assert forall|j: int| 1 <= j && in_patch(g, #[trigger] away(p, d as int, j)) implies g[away(
                        p,
                        d as int,
                        j,
                    ).0][away(p, d as int, j).1] < own by {
                        if j >= k {
                            assert(!in_patch(g, away(p, d as int, k as int)));
                        }
                    }
                }
                return (k - 1, true);
            },
            Some(q) => {
                assert(g[q.0 as int] == grid@[q.0 as int]@);
                assert(in_patch(g, away(p, d as int, k as int)));
                if grid[q.0][q.1] >= own {
                    return (k, false);
                }
            },
        }
        k += 1;
    }
}

/// Whether the tree in row `r` and column `c` can be seen from outside.
pub fn is_visible(grid: &Vec<Vec<u8>>, r: usize, c: usize) -> (yes: bool)
    requires
        rectangular(heights(grid@)),
        in_patch(heights(grid@), (r as int, c as int)),
    ensures
        yes == visible(heights(grid@), (r as int, c as int)),
{
    look(grid, r, c, 0).1 || look(grid, r, c, 1).1 || look(grid, r, c, 2).1 || look(grid, r, c, 3).1
}

/// Whether the patch has at most 65535 rows and as many columns, so that
/// every scenic score fits.
pub open spec fn small(g: Seq<Seq<u8>>) -> bool {
    g.len() <= 0xffff && width(g) <= 0xffff
}

/// The product of the numbers of trees seen from the tree in row `r` and
/// column `c` in the four directions.
pub fn scenic_score(grid: &Vec<Vec<u8>>, r: usize, c: usize) -> (score: u64)
    requires
        rectangular(heights(grid@)),
        small(heights(grid@)),
        in_patch(heights(grid@), (r as int, c as int)),
    ensures
        score == scenic(heights(grid@), (r as int, c as int)),
{
    let a = look(grid, r, c, 0).0 as u64;
    let b = look(grid, r, c, 1).0 as u64;
    let x = look(grid, r, c, 2).0 as u64;
    let y = look(grid, r, c, 3).0 as u64;
    assert(a * b <= 0xffff * 0xffff) by (nonlinear_arith)
        requires
            a <= 0xffff,
            b <= 0xffff,
    ;
    assert(a * b * x <= 0xffff * 0xffff * 0xffff) by (nonlinear_arith)
        requires
            a * b <= 0xffff * 0xffff,
            x <= 0xffff,
    ;
    assert(a * b * x * y <= 0xffff * 0xffff * 0xffff * 0xffff) by (nonlinear_arith)
        requires
            a * b * x <= 0xffff * 0xffff * 0xffff,
            y <= 0xffff,
    ;
    a * b * x * y
}

/// The number of trees that can be seen from outside the patch.
pub fn count_visible(grid: &Vec<Vec<u8>>) -> (count: usize)
    requires
        rectangular(heights(grid@)),
        small(heights(grid@)),
    ensures
        count == visible_in_rows(heights(grid@), grid@.len() as int),
{
    let ghost g = heights(grid@);
    let rows = grid.len();
    if rows == 0 {
        return 0;
    }
    assert(g[0] == grid@[0]@);
    let cols = grid[0].len();
    let mut count: usize = 0;
    let mut r: usize = 0;
    while r < rows
        invariant
            r <= rows,
            rows == grid@.len(),
            cols == width(g),
            g == heights(grid@),
            rectangular(g),
            small(g),
            count == visible_in_rows(g, r as int),
            count <= r * 0xffff,
        decreases rows - r,
    {
        let ghost before = count;
        let mut c: usize = 0;
        while c < cols
            invariant
                c <= cols,
                r < rows,
                rows == grid@.len(),
                cols == width(g),
                g == heights(grid@),
                rectangular(g),
                small(g),
                count == before + visible_in_row(g, r as int, c as int),
                before <= r * 0xffff,
                count <= before + c,
            decreases cols - c,
        {
            if is_visible(grid, r, c) {
                count += 1;
            }
            c += 1;
        }
        r += 1;
    }
    count
}

/// The greatest scenic score of a tree of the patch; 0 if it has no tree.
pub fn max_scenic_score(grid: &Vec<Vec<u8>>) -> (best: u64)
    requires
        rectangular(heights(grid@)),
        small(heights(grid@)),
    ensures
        is_best_scenic(heights(grid@), best as int),
{
    let ghost g = heights(grid@);
    let rows = grid.len();
    if rows == 0 {
        return 0;
    }
    assert(g[0] == grid@[0]@);
    let cols = grid[0].len();
    if cols == 0 {
        return 0;
    }
    let mut best: u64 = 0;
    let ghost mut at = (0int, 0int);
    let mut r: usize = 0;
    while r < rows
        invariant
            r <= rows,
            rows == grid@.len(),
            cols == width(g),
            g == heights(grid@),
            rectangular(g),
            small(g),
            forall|p: (int, int)| in_patch(g, p) && p.0 < r ==> #[trigger] scenic(g, p) <= best,
            cols > 0,
            r == 0 ==> best == 0,
            r > 0 ==> in_patch(g, at) && scenic(g, at) == best,
        decreases rows - r,
    {
        let mut c: usize = 0;
        while c < cols
            invariant
                c <= cols,
                r < rows,
                rows == grid@.len(),
                cols == width(g),
                g == heights(grid@),
                rectangular(g),
                small(g),
                forall|p: (int, int)|
                    in_patch(g, p) && (p.0 < r || (p.0 == r && p.1 < c)) ==> #[trigger] scenic(g, p)
                        <= best,
                r == 0 && c == 0 ==> best == 0,
                r > 0 || c > 0 ==> in_patch(g, at) && scenic(g, at) == best,
            decreases cols - c,
        {
            let score = scenic_score(grid, r, c);
            if score > best || (r == 0 && c == 0) {
                best = score;
                proof {
                    at = (r as int, c as int);
                }
            }
            c += 1;
        }
        r += 1;
    }
    best
}

/// Whether the lines can be read as a patch of `n` rows of `n` trees:
/// there are at most `n` lines of at most `n` bytes, all of them digits.
pub open spec fn readable(lines: Seq<Vec<u8>>, n: int) -> bool {
    &&& lines.len() <= n
    &&& forall|r: int| 0 <= r < lines.len() ==> (#[trigger] lines[r])@.len() <= n
    &&& forall|r: int, c: int|
        0 <= r < lines.len() && 0 <= c < lines[r]@.len() ==> 48 <= #[trigger] lines[r]@[c] <= 57
}

/// The height that the lines give for the tree in row `r` and column `c`:
/// the digit that stands there, or 0 where the lines do not reach.
pub open spec fn height_in(lines: Seq<Vec<u8>>, r: int, c: int) -> u8 {
    if r < lines.len() && c < lines[r]@.len() {
        (lines[r]@[c] - 48) as u8
    } else {
        0
    }
}

/// The row `r` of the patch of `n` columns that the lines give.
pub fn parse_row(lines: &Vec<Vec<u8>>, r: usize, n: usize) -> (row: Option<Vec<u8>>)
    requires
        r < lines@.len() ==> lines@[r as int]@.len() <= n,
    ensures
        row is Some == (r < lines@.len() ==> forall|c: int|
            0 <= c < lines@[r as int]@.len() ==> 48 <= #[trigger] lines@[r as int]@[c] <= 57),
        row matches Some(v) ==> v@.len() == n && forall|c: int|
            0 <= c < n ==> #[trigger] v@[c] == height_in(lines@, r as int, c),
{
    let mut row: Vec<u8> = Vec::new();
    let mut c: usize = 0;
    while c < n
        invariant
            c <= n,
            r < lines@.len() ==> lines@[r as int]@.len() <= n,
            row@.len() == c,
            forall|k: int| 0 <= k < c ==> #[trigger] row@[k] == height_in(lines@, r as int, k),
            r < lines@.len() ==> forall|k: int|
                0 <= k < c && k < lines@[r as int]@.len() ==> 48 <= #[trigger] lines@[r as int]@[k]
                    <= 57,
        decreases n - c,
    {
        if r < lines.len() && c < lines[r].len() {
            let b = lines[r][c];
            if b < 48 || b > 57 {
                return None;
            }
            row.push(b - 48);
        } else {
            row.push(0);
        }
        c += 1;
    }
    Some(row)
}

/// The patch of `n` rows of `n` trees that the lines give, a digit for the
/// height of each tree; `None` if the lines cannot be read as such.
pub fn parse_grid(lines: &Vec<Vec<u8>>, n: usize) -> (grid: Option<Vec<Vec<u8>>>)
    ensures
        grid is Some == readable(lines@, n as int),
        grid matches Some(g) ==> g@.len() == n && rectangular(heights(g@)) && forall|
            r: int,
            c: int,
        |
            0 <= r < n && 0 <= c < n ==> g@[r]@.len() == n && #[trigger] g@[r]@[c] == height_in(
                lines@,
                r,
                c,
            ),
{
    if lines.len() > n {
        return None;
    }
    let mut grid: Vec<Vec<u8>> = Vec::new();
    let mut r: usize = 0;
    while r < n
        invariant
            r <= n,
            lines@.len() <= n,
            grid@.len() == r,
            forall|k: int| 0 <= k < r ==> (#[trigger] grid@[k])@.len() == n,
            forall|k: int, c: int|
                0 <= k < r && 0 <= c < n ==> #[trigger] grid@[k]@[c] == height_in(lines@, k, c),
            forall|k: int| 0 <= k < r && k < lines@.len() ==> (#[trigger] lines@[k])@.len() <= n,
            forall|k: int, c: int|
                0 <= k < r && k < lines@.len() && 0 <= c < lines@[k]@.len() ==> 48
                    <= #[trigger] lines@[k]@[c] <= 57,
        decreases n - r,
    {
        if r < lines.len() && lines[r].len() > n {
            return None;
        }
        match parse_row(lines, r, n) {
            Some(row) => {
                grid.push(row);
            },
            None => {
                return None;
            },
        }
        r += 1;
    }
    proof {
        assert forall|k: int| 0 <= k < heights(grid@).len() implies (#[trigger] heights(
            grid@,
        )[k]).len() == heights(grid@)[0].len() by {
            assert(grid@[k]@.len() == n);
            assert(grid@[0]@.len() == n);
        }
    }
    Some(grid)
}

} // verus!

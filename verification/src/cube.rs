//! The character canvas of the ASCII cube animation: which cells a line
//! between two projected points covers, and the canvas as text.

use vstd::prelude::*;

verus! {

/// A cell of the character canvas: the character and its colour escape.
pub type Cell = (char, &'static str);

/// The absolute value of `v`.
pub open spec fn iabs(v: int) -> int {
    if v < 0 {
        -v
    } else {
        v
    }
}

/// How far `p` lies from `from` in the direction of `to`.
pub open spec fn offset(from: int, to: int, p: int) -> int {
    if from < to {
        p - from
    } else {
        from - p
    }
}

/// The cell `(px, py)` lies on the line from `(x1, y1)` to `(x2, y2)`: its
/// offset along the longer axis is within the line, and its offset along the
/// shorter axis is the ideal line's offset rounded, with `d / 2` as the
/// rounding bias for the longer extent `d`. A line of one point covers just
/// that point.
pub open spec fn on_line(x1: int, y1: int, x2: int, y2: int, px: int, py: int) -> bool {
    let dx = iabs(x2 - x1);
    let dy = iabs(y2 - y1);
    let i = offset(x1, x2, px);
    let j = offset(y1, y2, py);
    if dx > dy {
        0 <= i <= dx && 0 <= dx / 2 + j * dx - i * dy < dx
    } else if dy > 0 {
        0 <= j <= dy && 0 <= dy / 2 + i * dy - j * dx < dy
    } else {
        px == x1 && py == y1
    }
}

/// Among whole numbers `a` with `0 <= c + a * m < m` there is at most one.
proof fn lemma_unique_step(m: int, c: int, a: int, b: int)
    requires
        m > 0,
        0 <= c + a * m < m,
        0 <= c + b * m < m,
    ensures
        a == b,
{
    assert((a - b) * m == (c + a * m) - (c + b * m)) by (nonlinear_arith);
    if a > b {
        assert((a - b) * m >= m) by (nonlinear_arith)
            requires
                a - b >= 1,
                m > 0,
        ;
    } else if a < b {
        assert((b - a) * m >= m) by (nonlinear_arith)
            requires
                b - a >= 1,
                m > 0,
        ;
        assert((a - b) * m == -((b - a) * m)) by (nonlinear_arith);
    }
}

/// With `0 <= i <= big` and the bias below `big`, the rounded offset stays
/// within `0 .. small`.
proof fn lemma_minor_bound(big: int, small: int, i: int, j: int)
    requires
        big > 0,
        0 <= small,
        0 <= i <= big,
        0 <= j,
        0 <= big / 2 + j * big - i * small < big,
    ensures
        j <= small,
{
    if j > small {
        assert(j * big >= (small + 1) * big) by (nonlinear_arith)
            requires
                j >= small + 1,
                big > 0,
        ;
        assert(i * small <= big * small) by (nonlinear_arith)
            requires
                0 <= i <= big,
                0 <= small,
        ;
        assert((small + 1) * big == small * big + big) by (nonlinear_arith);
        assert(big * small == small * big) by (nonlinear_arith);
    }
}

/// At the end of the longer axis, the rounded offset is the full extent of
/// the shorter one.
proof fn lemma_reaches_end(big: int, small: int, j: int)
    requires
        big > 0,
        0 <= big / 2 + j * big - big * small < big,
    ensures
        j == small,
{
    lemma_unique_step(big, big / 2 - big * small, j, small);
}

proof fn lemma_distribute(a: int, b: int)
    ensures
        (a + 1) * b == a * b + b,
{
    assert((a + 1) * b == a * b + b) by (nonlinear_arith);
}

/// A line covers both of its end points.
pub proof fn law_line_covers_endpoints(x1: int, y1: int, x2: int, y2: int)
    ensures
        on_line(x1, y1, x2, y2, x1, y1),
        on_line(x1, y1, x2, y2, x2, y2),
{
    let dx = iabs(x2 - x1);
    let dy = iabs(y2 - y1);
    assert(dy * dx == dx * dy) by (nonlinear_arith);
    assert(0 * dx == 0 && 0 * dy == 0);
    assert(offset(x1, x2, x1) == 0 && offset(y1, y2, y1) == 0);
    if dx > dy {
        assert(0 <= dx / 2 < dx);
    } else if dy > 0 {
        assert(0 <= dy / 2 < dy);
    }
}

/// A line covers at most one cell at each step along its longer axis.
pub proof fn law_line_one_cell_per_step(
    x1: int,
    y1: int,
    x2: int,
    y2: int,
    c1: int,
    r1: int,
    c2: int,
    r2: int,
)
    requires
        on_line(x1, y1, x2, y2, c1, r1),
        on_line(x1, y1, x2, y2, c2, r2),
        iabs(x2 - x1) > iabs(y2 - y1) ==> offset(x1, x2, c1) == offset(x1, x2, c2),
        iabs(x2 - x1) <= iabs(y2 - y1) ==> offset(y1, y2, r1) == offset(y1, y2, r2),
    ensures
        c1 == c2,
        r1 == r2,
{
    let dx = iabs(x2 - x1);
    let dy = iabs(y2 - y1);
    if dx > dy {
        let i = offset(x1, x2, c1);
        lemma_unique_step(dx, dx / 2 - i * dy, offset(y1, y2, r1), offset(y1, y2, r2));
    } else if dy > 0 {
        let j = offset(y1, y2, r1);
        lemma_unique_step(dy, dy / 2 - j * dx, offset(x1, x2, c1), offset(x1, x2, c2));
    }
}

/// `b` with `0 <= bias + b * big - (k + 1) * small < big` is `a` or `a + 1`
/// when `a` fits `k` and `small <= big`.
proof fn lemma_next_step(big: int, small: int, bias: int, k: int, a: int, b: int)
    requires
        big > 0,
        0 <= small <= big,
        0 <= bias + a * big - k * small < big,
        0 <= bias + b * big - (k + 1) * small < big,
    ensures
        0 <= b - a <= 1,
{
    assert((k + 1) * small == k * small + small) by (nonlinear_arith);
    assert((b - a) * big == (bias + b * big - (k + 1) * small) - (bias + a * big - k * small) + small)
        by (nonlinear_arith);
    if b - a < 0 {
        assert((b - a) * big <= -big) by (nonlinear_arith)
            requires
                b - a <= -1,
                big > 0,
        ;
    }
    if b - a > 1 {
        assert((b - a) * big >= 2 * big) by (nonlinear_arith)
            requires
                b - a >= 2,
                big > 0,
        ;
    }
}

/// The line is connected: from one step along the longer axis to the next,
/// the covered cell moves by at most one along the shorter axis, always
/// towards the end point.
pub proof fn law_line_connected(
    x1: int,
    y1: int,
    x2: int,
    y2: int,
    c1: int,
    r1: int,
    c2: int,
    r2: int,
)
    requires
        on_line(x1, y1, x2, y2, c1, r1),
        on_line(x1, y1, x2, y2, c2, r2),
        iabs(x2 - x1) > iabs(y2 - y1) ==> offset(x1, x2, c2) == offset(x1, x2, c1) + 1,
        iabs(x2 - x1) <= iabs(y2 - y1) ==> offset(y1, y2, r2) == offset(y1, y2, r1) + 1,
    ensures
        iabs(x2 - x1) > iabs(y2 - y1) ==> 0 <= offset(y1, y2, r2) - offset(y1, y2, r1) <= 1,
        iabs(x2 - x1) <= iabs(y2 - y1) ==> 0 <= offset(x1, x2, c2) - offset(x1, x2, c1) <= 1,
{
    let dx = iabs(x2 - x1);
    let dy = iabs(y2 - y1);
    if dx > dy {
        lemma_next_step(
            dx,
            dy,
            dx / 2,
            offset(x1, x2, c1),
            offset(y1, y2, r1),
            offset(y1, y2, r2),
        );
    } else if dy > 0 {
        lemma_next_step(
            dy,
            dx,
            dy / 2,
            offset(y1, y2, r1),
            offset(x1, x2, c1),
            offset(x1, x2, c2),
        );
    }
}

/// Draws the line from `(x1, y1)` to `(x2, y2)` with `'.'` in `color`,
/// on the cells of the canvas within `canvas_width` by `canvas_height`;
/// cells outside are left out. The canvas must have at least that many rows
/// and columns; the two extents together must fit in an `i32`.
pub fn draw_line(
    canvas: &mut Vec<Vec<Cell>>,
    x1: i32,
    y1: i32,
    x2: i32,
    y2: i32,
    color: &'static str,
    canvas_width: usize,
    canvas_height: usize,
)
    requires
        canvas_width <= i32::MAX,
        canvas_height <= i32::MAX,
        old(canvas)@.len() >= canvas_height,
        forall|r: int| 0 <= r < canvas_height ==> #[trigger] old(canvas)@[r]@.len() >= canvas_width,
        iabs(x2 - x1) + iabs(y2 - y1) <= i32::MAX,
    ensures
        final(canvas)@.len() == old(canvas)@.len(),
        forall|r: int|
            0 <= r < old(canvas)@.len() ==> #[trigger] final(canvas)@[r]@.len() == old(
                canvas,
            )@[r]@.len(),
        forall|r: int, c: int|
            0 <= r < old(canvas)@.len() && 0 <= c < old(canvas)@[r]@.len() ==> #[trigger] final(canvas)@[r]@[c]
                == (if r < canvas_height && c < canvas_width && on_line(
                x1 as int,
                y1 as int,
                x2 as int,
                y2 as int,
                c,
                r,
            ) {
                ('.', color)
            } else {
                old(canvas)@[r]@[c]
            }),
{
    let dx: i32 = if x2 >= x1 {
        x2 - x1
    } else {
        x1 - x2
    };
    let dy: i32 = if y2 >= y1 {
        y2 - y1
    } else {
        y1 - y2
    };
    let sx: i32 = if x1 < x2 {
        1
    } else {
        -1
    };
    let sy: i32 = if y1 < y2 {
        1
    } else {
        -1
    };
    let ghost xm: bool = dx > dy;
    let mut err: i32 = if dx > dy {
        dx
    } else {
        -dy
    } / 2;
    let ghost err0: int = err as int;
    let mut x = x1;
    let mut y = y1;
    let ghost mut i: int = 0;
    let ghost mut j: int = 0;
    let ghost old_canvas = canvas@;
    let w = canvas_width as i32;
    let h = canvas_height as i32;
    proof {
        assert(xm ==> err0 == dx / 2);
        assert(!xm ==> err0 == -(dy / 2));
    }
    loop
        invariant_except_break
            forall|r: int, c: int|
                0 <= r < old_canvas.len() && 0 <= c < old_canvas[r]@.len() ==> #[trigger] canvas@[r]@[c]
                    == (if r < canvas_height && c < canvas_width && on_line(
                    x1 as int,
                    y1 as int,
                    x2 as int,
                    y2 as int,
                    c,
                    r,
                ) && (if xm {
                    offset(x1 as int, x2 as int, c) < i
                } else {
                    offset(y1 as int, y2 as int, r) < j
                }) {
                    ('.', color)
                } else {
                    old_canvas[r]@[c]
                }),
        invariant
            w == canvas_width,
            h == canvas_height,
            dx == iabs(x2 - x1),
            dy == iabs(y2 - y1),
            dx + dy <= i32::MAX,
            sx == (if x1 < x2 {
                1int
            } else {
                -1int
            }),
            sy == (if y1 < y2 {
                1int
            } else {
                -1int
            }),
            xm == (dx > dy),
            xm ==> err0 == dx / 2,
            !xm ==> err0 == -(dy / 2),
            0 <= i <= dx,
            0 <= j <= dy,
            x == (if x1 < x2 {
                x1 + i
            } else {
                x1 - i
            }),
            y == (if y1 < y2 {
                y1 + j
            } else {
                y1 - j
            }),
            err == err0 - i * dy + j * dx,
            xm ==> 0 <= err < dx,
            !xm && dy > 0 ==> -dy < err <= 0,
            !xm && dy == 0 ==> (dx == 0 && i == 0 && j == 0),
            old_canvas.len() >= canvas_height,
            forall|r: int| 0 <= r < canvas_height ==> #[trigger] old_canvas[r]@.len() >= canvas_width,
            canvas@.len() == old_canvas.len(),
            forall|r: int| 0 <= r < old_canvas.len() ==> #[trigger] canvas@[r]@.len() == old_canvas[r]@.len(),
        ensures
            canvas@.len() == old_canvas.len(),
            forall|r: int| 0 <= r < old_canvas.len() ==> #[trigger] canvas@[r]@.len() == old_canvas[r]@.len(),
            forall|r: int, c: int|
                0 <= r < old_canvas.len() && 0 <= c < old_canvas[r]@.len() ==> #[trigger] canvas@[r]@[c]
                    == (if r < canvas_height && c < canvas_width && on_line(
                    x1 as int,
                    y1 as int,
                    x2 as int,
                    y2 as int,
                    c,
                    r,
                ) {
                    ('.', color)
                } else {
                    old_canvas[r]@[c]
                }),
        decreases (if xm {
            dx - i
        } else {
            dy - j
        }),
    {
        proof {
            // The current cell is on the line, and it is the only one at its
            // offset along the longer axis.
            if xm {
                assert(err == dx / 2 + j * dx - i * dy);
                assert(on_line(x1 as int, y1 as int, x2 as int, y2 as int, x as int, y as int));
                assert forall|c: int, r: int|
                    offset(x1 as int, x2 as int, c) == i && on_line(
                        x1 as int,
                        y1 as int,
                        x2 as int,
                        y2 as int,
                        c,
                        r,
                    ) implies c == x && r == y by {
                    lemma_unique_step(dx as int, dx / 2 - i * dy, j, offset(y1 as int, y2 as int, r));
                }
            } else if dy > 0 {
                assert(dy / 2 + i * dy - j * dx == -err);
                assert(on_line(x1 as int, y1 as int, x2 as int, y2 as int, x as int, y as int));
                assert forall|c: int, r: int|
                    offset(y1 as int, y2 as int, r) == j && on_line(
                        x1 as int,
                        y1 as int,
                        x2 as int,
                        y2 as int,
                        c,
                        r,
                    ) implies c == x && r == y by {
                    lemma_unique_step(dy as int, dy / 2 - j * dx, i, offset(x1 as int, x2 as int, c));
                }
            } else {
                assert(on_line(x1 as int, y1 as int, x2 as int, y2 as int, x as int, y as int));
            }
        }
        let ghost before = canvas@;
        if x >= 0 && x < w && y >= 0 && y < h {
            canvas[y as usize][x as usize] = ('.', color);
        }
        proof {
            assert forall|r: int, c: int|
                0 <= r < old_canvas.len() && 0 <= c < old_canvas[r]@.len() implies #[trigger] canvas@[r]@[c]
                    == (if r < canvas_height && c < canvas_width && on_line(
                    x1 as int,
                    y1 as int,
                    x2 as int,
                    y2 as int,
                    c,
                    r,
                ) && (if xm {
                    offset(x1 as int, x2 as int, c) <= i
                } else {
                    offset(y1 as int, y2 as int, r) <= j
                }) {
                    ('.', color)
                } else {
                    old_canvas[r]@[c]
                }) by {
                if r == y && c == x {
                } else {
                    assert(canvas@[r]@[c] == before[r]@[c]);
                }
            }
        }
        if x == x2 && y == y2 {
            proof {
                assert forall|r: int, c: int|
                    0 <= r < old_canvas.len() && 0 <= c < old_canvas[r]@.len() && on_line(
                        x1 as int,
                        y1 as int,
                        x2 as int,
                        y2 as int,
                        c,
                        r,
                    ) implies (if xm {
                    offset(x1 as int, x2 as int, c) <= i
                } else {
                    offset(y1 as int, y2 as int, r) <= j
                }) by {
                    if !xm && dy == 0 {
                        assert(c == x1 && r == y1);
                    }
                }
            }
            break;
        }
        proof {
            if xm {
                if i == dx {
                    assert(dx / 2 + j * dx - dx * dy == err) by (nonlinear_arith)
                        requires
                            err == dx / 2 - i * dy + j * dx,
                            i == dx,
                    ;
                    lemma_reaches_end(dx as int, dy as int, j);
                }
                assert(i < dx);
                if j == dy {
                    assert(err - dy == dx / 2 + dy * (dx - i - 1)) by (nonlinear_arith)
                        requires
                            err == dx / 2 - i * dy + j * dx,
                            j == dy,
                    ;
                    assert(dy * (dx - i - 1) >= 0) by (nonlinear_arith)
                        requires
                            dy >= 0,
                            dx - i - 1 >= 0,
                    ;
                    assert(err >= dy);
                }
            } else {
                if j == dy {
                    assert(dy / 2 + i * dy - dy * dx == -err) by (nonlinear_arith)
                        requires
                            err == -(dy / 2) - i * dy + j * dx,
                            j == dy,
                    ;
                    lemma_reaches_end(dy as int, dx as int, i);
                }
                assert(j < dy);
                if i == dx {
                    assert(err + dx == -(dy / 2) - dx * (dy - j - 1)) by (nonlinear_arith)
                        requires
                            err == -(dy / 2) - i * dy + j * dx,
                            i == dx,
                    ;
                    assert(dx * (dy - j - 1) >= 0) by (nonlinear_arith)
                        requires
                            dx >= 0,
                            dy - j - 1 >= 0,
                    ;
                    assert(err <= -dx);
                }
            }
        }
        let e2 = err;
        let ghost canvas_now = canvas@;
        if e2 > -dx {
            err = err - dy;
            x = x + sx;
            proof {
                lemma_distribute(i, dy as int);
                i = i + 1;
            }
        }
        if e2 < dy {
            err = err + dx;
            y = y + sy;
            proof {
                lemma_distribute(j, dx as int);
                j = j + 1;
            }
        }
        proof {
            if xm {
                assert(e2 > -dx);
                assert(dx / 2 + j * dx - i * dy == err);
                lemma_minor_bound(dx as int, dy as int, i, j);
            } else {
                assert(e2 < dy);
                assert(dy / 2 + i * dy - j * dx == -err);
                lemma_minor_bound(dy as int, dx as int, j, i);
            }
            assert forall|r: int, c: int|
                0 <= r < old_canvas.len() && 0 <= c < old_canvas[r]@.len() implies #[trigger] canvas@[r]@[c]
                    == (if r < canvas_height && c < canvas_width && on_line(
                    x1 as int,
                    y1 as int,
                    x2 as int,
                    y2 as int,
                    c,
                    r,
                ) && (if xm {
                    offset(x1 as int, x2 as int, c) < i
                } else {
                    offset(y1 as int, y2 as int, r) < j
                }) {
                    ('.', color)
                } else {
                    old_canvas[r]@[c]
                }) by {
                assert(canvas@[r]@[c] == canvas_now[r]@[c]);
            }
        }
    }
}

/// The text of one canvas row: each cell's colour escape followed by its
/// character.
pub open spec fn row_text(row: Seq<Cell>) -> Seq<char>
    decreases row.len(),
{
    if row.len() == 0 {
        Seq::empty()
    } else {
        row_text(row.drop_last()) + row.last().1@ + seq![row.last().0]
    }
}

/// The text of a canvas: the texts of its rows, separated by line breaks.
pub open spec fn canvas_text(rows: Seq<Seq<Cell>>) -> Seq<char>
    decreases rows.len(),
{
    if rows.len() == 0 {
        Seq::empty()
    } else if rows.len() == 1 {
        row_text(rows[0])
    } else {
        canvas_text(rows.drop_last()) + seq!['\n'] + row_text(rows.last())
    }
}

/// Appends the character `c` to `s`, with `String::push`.
#[verifier::external_body]
fn push_char(s: &mut String, c: char)
    ensures
        final(s)@ == old(s)@.push(c),
{
    s.push(c);
}

/// The canvas as text: each cell as its colour escape and its character,
/// rows separated by line breaks.
pub fn canvas_to_string(canvas: &Vec<Vec<Cell>>) -> (r: String)
    ensures
        r@ == canvas_text(canvas@.map_values(|row: Vec<Cell>| row@)),
{
    let ghost rows = canvas@.map_values(|row: Vec<Cell>| row@);
    let newline = "\n";
    proof {
        reveal_strlit("\n");
    }
    let mut r = String::new();
    let mut i: usize = 0;
    while i < canvas.len()
        invariant
            i <= canvas@.len(),
            rows == canvas@.map_values(|row: Vec<Cell>| row@),
            newline@ == seq!['\n'],
            r@ == canvas_text(rows.take(i as int)),
        decreases canvas.len() - i,
    {
        assert(rows.take(i + 1).drop_last() =~= rows.take(i as int));
        if i > 0 {
            r.append(newline);
        }
        let row = &canvas[i];
        assert(rows[i as int] == row@);
        let ghost before = r@;
        let mut j: usize = 0;
        while j < row.len()
            invariant
                j <= row@.len(),
                r@ == before + row_text(row@.take(j as int)),
            decreases row.len() - j,
        {
            assert(row@.take(j + 1).drop_last() =~= row@.take(j as int));
            let cell = row[j];
            r.append(cell.1);
            push_char(&mut r, cell.0);
            j = j + 1;
        }
        assert(row@.take(j as int) =~= row@);
        i = i + 1;
    }
    assert(rows.take(i as int) =~= rows);
    r
}

} // verus!

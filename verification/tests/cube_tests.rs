use ipcow::cube::{canvas_to_string, draw_line};

const BLANK: (char, &str) = (' ', "\x1b[0m");
const RED: &str = "\x1b[31m";

fn blank(w: usize, h: usize) -> Vec<Vec<(char, &'static str)>> {
    vec![vec![BLANK; w]; h]
}

/// The rasterisation loop of the cube animation, as a reference.
fn reference(canvas: &mut Vec<Vec<(char, &'static str)>>, x1: i32, y1: i32, x2: i32, y2: i32, color: &'static str, w: usize, h: usize) {
    let dx = (x2 - x1).abs();
    let dy = (y2 - y1).abs();
    let sx = if x1 < x2 { 1 } else { -1 };
    let sy = if y1 < y2 { 1 } else { -1 };
    let mut err = if dx > dy { dx } else { -dy } / 2;
    let mut x = x1;
    let mut y = y1;
    loop {
        if x >= 0 && x < w as i32 && y >= 0 && y < h as i32 {
            canvas[y as usize][x as usize] = ('.', color);
        }
        if x == x2 && y == y2 {
            break;
        }
        let e2 = err;
        if e2 > -dx {
            err -= dy;
            x += sx;
        }
        if e2 < dy {
            err += dx;
            y += sy;
        }
    }
}

fn dots(canvas: &Vec<Vec<(char, &'static str)>>) -> Vec<(usize, usize)> {
    let mut r = Vec::new();
    for (y, row) in canvas.iter().enumerate() {
        for (x, cell) in row.iter().enumerate() {
            if cell.0 == '.' {
                r.push((x, y));
            }
        }
    }
    r
}

#[test]
fn horizontal_line() {
    let mut c = blank(6, 3);
    draw_line(&mut c, 1, 1, 4, 1, RED, 6, 3);
    assert_eq!(dots(&c), vec![(1, 1), (2, 1), (3, 1), (4, 1)]);
    assert_eq!(c[1][2], ('.', RED));
    assert_eq!(c[0][0], BLANK);
}

#[test]
fn shallow_line() {
    let mut c = blank(10, 5);
    draw_line(&mut c, 0, 0, 9, 4, RED, 10, 5);
    assert_eq!(
        dots(&c),
        vec![(0, 0), (1, 0), (2, 1), (3, 1), (4, 2), (5, 2), (6, 3), (7, 3), (8, 4), (9, 4)]
    );
}

#[test]
fn single_point() {
    let mut c = blank(3, 3);
    draw_line(&mut c, 2, 2, 2, 2, RED, 3, 3);
    assert_eq!(dots(&c), vec![(2, 2)]);
}

#[test]
fn clipped_to_the_canvas() {
    let mut c = blank(4, 4);
    draw_line(&mut c, -3, -3, 6, 6, RED, 4, 4);
    assert_eq!(dots(&c), vec![(0, 0), (1, 1), (2, 2), (3, 3)]);
}

#[test]
fn clipped_to_the_given_size_not_the_buffer() {
    let mut c = blank(8, 8);
    draw_line(&mut c, 0, 0, 7, 0, RED, 3, 8);
    assert_eq!(dots(&c), vec![(0, 0), (1, 0), (2, 0)]);
}

#[test]
fn agrees_with_the_reference_on_all_small_lines() {
    for x1 in -2..8 {
        for y1 in -2..7 {
            for x2 in -2..8 {
                for y2 in -2..7 {
                    let mut a = blank(6, 5);
                    let mut b = blank(6, 5);
                    draw_line(&mut a, x1, y1, x2, y2, RED, 6, 5);
                    reference(&mut b, x1, y1, x2, y2, RED, 6, 5);
                    assert_eq!(a, b, "line ({},{})-({},{})", x1, y1, x2, y2);
                }
            }
        }
    }
}

#[test]
fn canvas_text_matches_formatting() {
    let canvas: Vec<Vec<(char, &'static str)>> = vec![
        vec![('.', RED), BLANK, ('é', "")],
        vec![],
        vec![('#', "\x1b[94m")],
    ];
    let expected = canvas
        .iter()
        .map(|row| row.iter().map(|(c, color)| format!("{}{}", color, c)).collect::<String>())
        .collect::<Vec<_>>()
        .join("\n");
    assert_eq!(canvas_to_string(&canvas), expected);
    assert_eq!(canvas_to_string(&Vec::new()), "");
    assert_eq!(canvas_to_string(&vec![vec![], vec![]]), "\n");
}

use maze_solver::{find_path, highlight, overlay, render, solve, Grid, Pos, Rgb, SolveError};

const RED: Rgb = Rgb { r: 255, g: 0, b: 0 };
const WHITE: Rgb = Rgb { r: 255, g: 255, b: 255 };
const BLACK: Rgb = Rgb { r: 0, g: 0, b: 0 };

/// Builds a picture from rows of text: `.` is a white pixel, anything else
/// black.
fn picture_of(rows: &[&str]) -> Grid {
    let height = rows.len() as u32;
    let width = if rows.is_empty() { 0 } else { rows[0].len() as u32 };
    let mut data = Vec::new();
    for row in rows {
        for cell in row.bytes() {
            let level = if cell == b'.' { 255 } else { 0 };
            data.push(level);
            data.push(level);
            data.push(level);
        }
    }
    Grid::from_raw(width, height, data).expect("rows of equal length")
}

/// The raw bytes of the picture that `rows` describe, with `R` for a red
/// pixel.
fn bytes_of(rows: &[&str]) -> Vec<u8> {
    let mut data = Vec::new();
    for row in rows {
        for cell in row.bytes() {
            match cell {
                b'.' => data.extend_from_slice(&[255, 255, 255]),
                b'R' => data.extend_from_slice(&[255, 0, 0]),
                _ => data.extend_from_slice(&[0, 0, 0]),
            }
        }
    }
    data
}

#[test]
fn highlight_is_pure_red() {
    assert_eq!(highlight(), RED);
}

#[test]
fn overlay_paints_each_position() {
    let mut grid = picture_of(&["...", "...", "..."]);
    let count = overlay(&mut grid, &[Pos(0, 0), Pos(1, 0), Pos(1, 1)], RED);
    assert_eq!(count, 3);
    assert_eq!(grid.into_raw(), bytes_of(&["RR.", ".R.", "..."]));
}

#[test]
fn overlay_of_nothing_changes_nothing() {
    let mut grid = picture_of(&[".#.", "#.#"]);
    let count = overlay(&mut grid, &[], RED);
    assert_eq!(count, 0);
    assert_eq!(grid.into_raw(), bytes_of(&[".#.", "#.#"]));
}

#[test]
fn overlay_leaves_other_pixels_alone() {
    let data: Vec<u8> = (0..27).collect();
    let mut grid = Grid::from_raw(3, 3, data.clone()).expect("27 bytes for 3x3");
    overlay(&mut grid, &[Pos(2, 1)], Rgb { r: 200, g: 201, b: 202 });
    let mut wanted = data;
    wanted[15] = 200;
    wanted[16] = 201;
    wanted[17] = 202;
    assert_eq!(grid.into_raw(), wanted);
}

#[test]
fn overlay_twice_is_overlay_once() {
    let path = [Pos(0, 0), Pos(0, 1), Pos(1, 1), Pos(2, 1)];
    let mut once = picture_of(&["..#", "...", "#.."]);
    overlay(&mut once, &path, RED);
    let mut twice = picture_of(&["..#", "...", "#.."]);
    overlay(&mut twice, &path, RED);
    overlay(&mut twice, &path, RED);
    assert_eq!(once.into_raw(), twice.into_raw());
}

#[test]
fn overlay_counts_repeated_positions() {
    let mut grid = picture_of(&["..."]);
    let count = overlay(&mut grid, &[Pos(1, 0), Pos(1, 0)], BLACK);
    assert_eq!(count, 2);
    assert_eq!(grid.into_raw(), bytes_of(&[".#."]));
}

#[test]
fn overlay_takes_any_colour() {
    let mut grid = picture_of(&["##"]);
    overlay(&mut grid, &[Pos(1, 0)], WHITE);
    assert_eq!(grid.into_raw(), bytes_of(&["#."]));
}

#[test]
fn render_paints_a_found_path_red() {
    let mut grid = picture_of(&["...", "..."]);
    let found = Some((vec![Pos(0, 0), Pos(0, 1), Pos(1, 1)], 2));
    assert_eq!(render(&mut grid, &found), Some(3));
    assert_eq!(grid.into_raw(), bytes_of(&["R..", "RR."]));
}

#[test]
fn render_without_a_path_paints_nothing() {
    let mut grid = picture_of(&["...", "..."]);
    assert_eq!(render(&mut grid, &None), None);
    assert_eq!(grid.into_raw(), bytes_of(&["...", "..."]));
}

#[test]
fn render_draws_what_the_search_found() {
    let mut grid = picture_of(&[".##", ".##", "..."]);
    let found = find_path(&grid, Pos(0, 0), Pos(2, 2));
    assert_eq!(render(&mut grid, &found), Some(5));
    assert_eq!(grid.into_raw(), bytes_of(&["R##", "R##", "RRR"]));
}

#[test]
fn solve_paints_the_corridor() {
    let mut grid = picture_of(&["..."]);
    assert_eq!(solve(&mut grid, Pos(0, 0), Pos(2, 0)), Ok(Some(3)));
    assert_eq!(grid.into_raw(), bytes_of(&["RRR"]));
}

#[test]
fn solve_reports_a_blocked_corridor() {
    let mut grid = picture_of(&[".#."]);
    assert_eq!(solve(&mut grid, Pos(0, 0), Pos(2, 0)), Ok(None));
    assert_eq!(grid.into_raw(), bytes_of(&[".#."]));
}

#[test]
fn solve_crosses_the_open_square() {
    let mut grid = picture_of(&[".....", ".....", ".....", ".....", "....."]);
    assert_eq!(solve(&mut grid, Pos(0, 0), Pos(4, 4)), Ok(Some(9)));
    let raw = grid.into_raw();
    let red = raw.chunks(3).filter(|pixel| *pixel == [255, 0, 0]).count();
    let white = raw.chunks(3).filter(|pixel| *pixel == [255, 255, 255]).count();
    assert_eq!(red, 9);
    assert_eq!(white, 16);
}

#[test]
fn solve_follows_the_only_way() {
    let mut grid = picture_of(&[
        ".#.....", //
        ".#.###.", //
        ".#.#...", //
        ".#.#.##", //
        "...#...",
    ]);
    assert_eq!(solve(&mut grid, Pos(0, 0), Pos(6, 4)), Ok(Some(23)));
    assert_eq!(
        grid.into_raw(),
        bytes_of(&[
            "R#RRRRR", //
            "R#R###R", //
            "R#R#RRR", //
            "R#R#R##", //
            "RRR#RRR",
        ])
    );
}

#[test]
fn solve_with_start_on_goal_paints_one_pixel() {
    let mut grid = picture_of(&["...", ".#.", "..."]);
    assert_eq!(solve(&mut grid, Pos(1, 1), Pos(1, 1)), Ok(Some(1)));
    assert_eq!(grid.into_raw(), bytes_of(&["...", ".R.", "..."]));
}

#[test]
fn solve_paints_a_closed_start() {
    let mut grid = picture_of(&["#.."]);
    assert_eq!(solve(&mut grid, Pos(0, 0), Pos(2, 0)), Ok(Some(3)));
    assert_eq!(grid.into_raw(), bytes_of(&["RRR"]));
}

#[test]
fn solve_refuses_a_start_outside() {
    let mut grid = picture_of(&["...", "..."]);
    assert_eq!(solve(&mut grid, Pos(3, 0), Pos(0, 0)), Err(SolveError::StartOutside));
    assert_eq!(solve(&mut grid, Pos(-1, 0), Pos(0, 0)), Err(SolveError::StartOutside));
    assert_eq!(solve(&mut grid, Pos(0, 2), Pos(0, 2)), Err(SolveError::StartOutside));
    assert_eq!(grid.into_raw(), bytes_of(&["...", "..."]));
}

#[test]
fn solve_refuses_a_goal_outside() {
    let mut grid = picture_of(&["...", "..."]);
    assert_eq!(solve(&mut grid, Pos(0, 0), Pos(3, 0)), Err(SolveError::GoalOutside));
    assert_eq!(solve(&mut grid, Pos(0, 0), Pos(0, -1)), Err(SolveError::GoalOutside));
    assert_eq!(grid.into_raw(), bytes_of(&["...", "..."]));
}

#[test]
fn solve_names_the_start_when_both_are_outside() {
    let mut grid = picture_of(&["..."]);
    assert_eq!(solve(&mut grid, Pos(9, 9), Pos(8, 8)), Err(SolveError::StartOutside));
}

#[test]
fn solve_on_an_empty_grid_refuses_every_start() {
    let mut grid = Grid::from_raw(0, 0, Vec::new()).expect("no pixels");
    assert_eq!(solve(&mut grid, Pos(0, 0), Pos(0, 0)), Err(SolveError::StartOutside));
}

#[test]
fn solve_reports_a_closed_goal() {
    let mut grid = picture_of(&["..#"]);
    assert_eq!(solve(&mut grid, Pos(0, 0), Pos(2, 0)), Ok(None));
    assert_eq!(grid.into_raw(), bytes_of(&["..#"]));
}

#[test]
fn solve_twice_finds_the_painted_path_again() {
    let mut grid = picture_of(&["...", "###"]);
    assert_eq!(solve(&mut grid, Pos(0, 0), Pos(2, 0)), Ok(Some(3)));
    let painted = grid.into_raw();
    let mut again = Grid::from_raw(3, 2, painted.clone()).expect("18 bytes for 3x2");
    assert_eq!(solve(&mut again, Pos(0, 0), Pos(2, 0)), Ok(Some(3)));
    assert_eq!(again.into_raw(), painted);
}

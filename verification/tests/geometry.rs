use repl::geometry::{
    canvas_size, grid_bounds, lines_to_fit, max_width_for_columns, terminal_size, Extent, Pixels,
    ReplSettings, TextRun, MAX_GRID_COLUMNS, MAX_GRID_LINES,
};

const UNITS_PER_PIXEL: f32 = 16777216.0;

fn pixels(length: f32) -> Pixels {
    Pixels { units: (length * UNITS_PER_PIXEL) as i64 }
}

fn to_f32(extent: Extent) -> f32 {
    extent.units as f32 / UNITS_PER_PIXEL
}

fn settings(max_lines: usize, max_columns: usize, output_max_width_columns: usize) -> ReplSettings {
    ReplSettings { max_lines, max_columns, output_max_width_columns }
}

fn columns_of(settings: &ReplSettings) -> usize {
    terminal_size(settings, pixels(8.4), pixels(17.0)).num_columns()
}

#[test]
fn test_max_width_for_columns_zero() {
    let result = max_width_for_columns(0, pixels(8.4));
    assert!(result.is_none());
}

#[test]
fn test_max_width_for_columns_matches_cell_width() {
    let columns = 5;
    let cell_width: f32 = 8.4;
    let result = max_width_for_columns(columns, pixels(cell_width));
    let expected = cell_width * columns as f32;

    let Some(result) = result else {
        panic!("expected max width for columns {columns}");
    };
    let result_f32: f32 = to_f32(result);
    let expected_f32: f32 = expected;
    assert!((result_f32 - expected_f32).abs() < 0.01);
}

#[test]
fn widths_are_products_of_single_precision() {
    for cell_width in [0.5f32, 6.6, 7.0, 7.8125, 8.4, 9.601, 13.37, 100.03] {
        for columns in [1usize, 2, 3, 80, 128, 999, 1024, 4096] {
            let width = max_width_for_columns(columns, pixels(cell_width)).unwrap();
            assert_eq!(to_f32(width), cell_width * columns as f32);
        }
    }
}

#[test]
fn max_width_is_exact() {
    assert_eq!(max_width_for_columns(3, Pixels { units: 7 }), Some(Extent { units: 21 }));
    assert_eq!(max_width_for_columns(3, Pixels { units: -7 }), Some(Extent { units: -21 }));
    assert_eq!(
        max_width_for_columns(usize::MAX, Pixels { units: i64::MIN }),
        Some(Extent { units: usize::MAX as i128 * i64::MIN as i128 })
    );
}

#[test]
fn columns_go_up_to_the_hard_bound_without_a_user_bound() {
    assert_eq!(columns_of(&settings(32, 128, 0)), MAX_GRID_COLUMNS);
}

#[test]
fn columns_go_up_to_the_user_bound() {
    assert_eq!(columns_of(&settings(32, 128, 200)), 200);
    assert_eq!(columns_of(&settings(32, 128, 2000)), MAX_GRID_COLUMNS);
    assert_eq!(columns_of(&settings(32, 128, MAX_GRID_COLUMNS)), MAX_GRID_COLUMNS);
    assert_eq!(columns_of(&settings(32, 0, 1)), 1);
}

#[test]
fn columns_are_at_least_those_configured_within_the_hard_bound() {
    assert_eq!(columns_of(&settings(32, 128, 100)), 128);
    assert_eq!(columns_of(&settings(32, MAX_GRID_COLUMNS, 100)), MAX_GRID_COLUMNS);
    assert_eq!(columns_of(&settings(32, 2000, 0)), MAX_GRID_COLUMNS);
    assert_eq!(columns_of(&settings(32, 2000, 100)), MAX_GRID_COLUMNS);
    let bounds = terminal_size(&settings(32, 2000, 0), pixels(8.0), pixels(20.0));
    assert_eq!(to_f32(bounds.width), 8192.0);
}

#[test]
fn lines_are_those_configured_within_the_hard_bound() {
    for (max_lines, lines) in [(0, 0), (1, 1), (32, 32), (4096, 4096), (5000, MAX_GRID_LINES)] {
        let bounds = terminal_size(&settings(max_lines, 128, 0), pixels(8.0), pixels(20.0));
        assert_eq!(bounds.num_lines(), lines);
    }
}

#[test]
fn terminal_size_has_pixels_of_the_grid() {
    let bounds =
        terminal_size(&settings(32, 128, 200), Pixels { units: 10 }, Pixels { units: 20 });
    assert_eq!(bounds.cell_width, Pixels { units: 10 });
    assert_eq!(bounds.line_height, Pixels { units: 20 });
    assert_eq!(bounds.width, Extent { units: 2000 });
    assert_eq!(bounds.height, Extent { units: 640 });
    assert_eq!(bounds.num_lines(), 32);
}

#[test]
fn bounds_count_whole_cells() {
    let mut bounds = grid_bounds(3, 4, Pixels { units: 10 }, Pixels { units: 20 });
    bounds.width.units = 39;
    bounds.height.units = -1;
    assert_eq!(bounds.num_columns(), 3);
    assert_eq!(bounds.num_lines(), 0);
    bounds.width.units = i128::MAX;
    assert_eq!(bounds.num_columns(), usize::MAX);
}

#[test]
fn bounds_give_back_their_grid() {
    for (columns, lines) in [(0usize, 0usize), (1, 1), (1024, 32), (usize::MAX, 4096)] {
        let bounds = grid_bounds(columns, lines, pixels(8.4), pixels(17.0));
        assert_eq!((bounds.num_columns(), bounds.num_lines()), (columns, lines));
    }
}

#[test]
fn fitting_lines_are_clamped() {
    assert_eq!(lines_to_fit(0, &settings(0, 128, 0)), 1);
    assert_eq!(lines_to_fit(5, &settings(32, 128, 0)), 32);
    assert_eq!(lines_to_fit(60, &settings(32, 128, 0)), 60);
    assert_eq!(lines_to_fit(5000, &settings(32, 128, 0)), MAX_GRID_LINES);
    assert_eq!(lines_to_fit(0, &settings(5000, 128, 0)), MAX_GRID_LINES);
}

#[test]
fn canvas_without_runs_has_one_line() {
    let canvas = canvas_size(&vec![], Pixels { units: 10 }, Pixels { units: 20 });
    assert_eq!(canvas.width, Extent { units: 0 });
    assert_eq!(canvas.height, Extent { units: 20 });
}

#[test]
fn canvas_holds_every_run() {
    let runs = vec![
        TextRun { line: 2, column: 0, cell_count: 3 },
        TextRun { line: 0, column: 40, cell_count: 2 },
        TextRun { line: 1, column: 5, cell_count: 30 },
    ];
    let canvas = canvas_size(&runs, Pixels { units: 10 }, Pixels { units: 20 });
    assert_eq!(canvas.width, Extent { units: 420 });
    assert_eq!(canvas.height, Extent { units: 60 });
}

#[test]
fn canvas_of_sixty_lines() {
    let runs = (0..60).map(|line| TextRun { line, column: 0, cell_count: 1 }).collect();
    let canvas = canvas_size(&runs, pixels(8.0), pixels(20.0));
    assert_eq!((to_f32(canvas.width), to_f32(canvas.height)), (8.0, 1200.0));
}

#[test]
fn canvas_of_a_run_above_the_screen() {
    let runs = vec![TextRun { line: -3, column: 1, cell_count: 1 }];
    let canvas = canvas_size(&runs, Pixels { units: 10 }, Pixels { units: 20 });
    assert_eq!(canvas.width, Extent { units: 20 });
    assert_eq!(canvas.height, Extent { units: -40 });
}

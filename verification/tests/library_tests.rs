use std::collections::HashSet;

use engine_schematic::coords::{
    map_position_to_coordinate, map_trio_position_to_coordinate,
    offset_coordinates_to_trace_back_to_original_array,
    offset_trio_coordinates_to_trace_back_to_original_array,
};
use engine_schematic::grid::{
    chunk_window_array, form_boolean_mask, form_multidimensional_array,
    form_three_by_three_window_array, form_window_array, parse_string_to_array,
};
use engine_schematic::schematic::{gear_ratio_sum, part_number_sum, star_number_groups};
use engine_schematic::sweep::{
    extract_coordinates_for_all_non_dot_pairings, extract_coordinates_for_all_non_dot_trios,
};
use engine_schematic::text::{push_decimal, text_has_non_numeric, text_has_numeric};
use engine_schematic::trace::{
    extract_non_boolean_trio_values_from_original_multidimensional_array,
    trace_whole_number_from_array_following_coordinates, try_trace_whole_number,
};

const EXAMPLE: &str = "467..114.....*........35..633.......#...617*...........+.58...592...........755....$.*.....664.598..";

fn decimal_string(v: i64) -> String {
    let mut s = String::new();
    push_decimal(&mut s, v);
    s
}

fn strings(cells: &[&str]) -> Vec<String> {
    cells.iter().map(|s| s.to_string()).collect()
}

#[test]
fn decimal_text_of_integers() {
    assert_eq!(decimal_string(0), "0");
    assert_eq!(decimal_string(7), "7");
    assert_eq!(decimal_string(4361), "4361");
    assert_eq!(decimal_string(-120), "-120");
    assert_eq!(decimal_string(i64::MIN), i64::MIN.to_string());
    assert_eq!(decimal_string(i64::MAX), i64::MAX.to_string());
    let mut s = String::from("x=");
    push_decimal(&mut s, -5);
    assert_eq!(s, "x=-5");
}

#[test]
fn numeric_characters_in_text() {
    assert!(text_has_numeric("a7"));
    assert!(text_has_numeric("¾"));
    assert!(!text_has_numeric("*"));
    assert!(!text_has_numeric(""));
    assert!(text_has_non_numeric("7."));
    assert!(!text_has_non_numeric("77"));
    assert!(!text_has_non_numeric(""));
}

#[test]
fn split_text_keeps_each_character() {
    assert_eq!(parse_string_to_array(""), Vec::<String>::new());
    assert_eq!(parse_string_to_array("a¾*"), vec!["a", "¾", "*"]);
    assert_eq!(parse_string_to_array(EXAMPLE).concat(), EXAMPLE);
}

#[test]
fn pair_positions_table() {
    assert_eq!(map_position_to_coordinate(0), ([0, 0], [0, 1]));
    assert_eq!(map_position_to_coordinate(1), ([1, 0], [1, 1]));
    assert_eq!(map_position_to_coordinate(2), ([0, 0], [1, 0]));
    assert_eq!(map_position_to_coordinate(3), ([0, 1], [1, 1]));
    assert_eq!(map_position_to_coordinate(4), ([1, 0], [0, 1]));
    assert_eq!(map_position_to_coordinate(5), ([0, 0], [1, 1]));
    assert_eq!(map_position_to_coordinate(6), ([9, 9], [9, 9]));
}

#[test]
fn trio_positions_table() {
    assert_eq!(map_trio_position_to_coordinate(0), ([0, 0], [1, 0], [2, 0]));
    assert_eq!(map_trio_position_to_coordinate(4), ([1, 0], [1, 1], [1, 2]));
    assert_eq!(map_trio_position_to_coordinate(7), ([0, 0], [1, 1], [2, 2]));
    assert_eq!(map_trio_position_to_coordinate(10), ([0, 0], [1, 1], [2, 1]));
    assert_eq!(map_trio_position_to_coordinate(15), ([1, 2], [1, 1], [0, 1]));
    assert_eq!(map_trio_position_to_coordinate(16), ([1, 0], [1, 1], [2, 1]));
    assert_eq!(map_trio_position_to_coordinate(17), ([1, 2], [1, 1], [2, 1]));
    assert_eq!(map_trio_position_to_coordinate(18), ([9, 9], [9, 9], [9, 9]));
}

#[test]
fn offsets_into_the_grid() {
    assert_eq!(
        offset_coordinates_to_trace_back_to_original_array(3, 4, [1, 0], [0, 1]),
        ((4, 4), (3, 5))
    );
    assert_eq!(
        offset_trio_coordinates_to_trace_back_to_original_array(2, 5, [0, 2], [1, 1], [2, 0]),
        ((2, 7), (3, 6), (4, 5))
    );
}

#[test]
fn window_counts() {
    let grid = form_multidimensional_array(&parse_string_to_array("467..114.....*"), (2, 7));
    assert_eq!(form_window_array(&grid).len(), 6);
    assert_eq!(form_three_by_three_window_array(&grid).len(), 0);
    let one_row = form_multidimensional_array(&parse_string_to_array("467"), (1, 3));
    assert_eq!(form_window_array(&one_row).len(), 0);
    let big = form_multidimensional_array(&parse_string_to_array(EXAMPLE), (10, 10));
    assert_eq!(form_window_array(&big).len(), 81);
    assert_eq!(form_three_by_three_window_array(&big).len(), 64);
}

#[test]
fn windows_come_row_by_row() {
    let grid = form_multidimensional_array(&parse_string_to_array("abcdefghi"), (3, 3));
    let windows = form_window_array(&grid);
    let expected = [["a", "b", "d", "e"], ["b", "c", "e", "f"], ["d", "e", "g", "h"], ["e", "f", "h", "i"]];
    assert_eq!(windows.len(), 4);
    for (window, cells) in windows.iter().zip(expected.iter()) {
        assert_eq!(window, &form_multidimensional_array(&strings(cells), (2, 2)));
    }
}

#[test]
fn chunks_keep_every_mask_in_order() {
    let grid = form_multidimensional_array(&parse_string_to_array("1.2.3.4."), (2, 4));
    let masks = form_boolean_mask(&form_window_array(&grid));
    assert_eq!(masks.len(), 3);
    let chunks = chunk_window_array(&masks, 2);
    assert_eq!(chunks.iter().map(|c| c.len()).collect::<Vec<_>>(), vec![2, 1]);
    let flat: Vec<_> = chunks.iter().flatten().collect();
    assert_eq!(flat, masks.iter().collect::<Vec<_>>());
    assert_eq!(chunk_window_array(&masks, 5).len(), 1);
    assert_eq!(chunk_window_array(&Vec::new(), 3).len(), 0);
}

#[test]
fn pair_sweep_finds_every_touching_pair() {
    // a b
    // c d   with b a dot
    let grid = form_multidimensional_array(&parse_string_to_array("a.cd"), (2, 2));
    let chunks = chunk_window_array(&form_boolean_mask(&form_window_array(&grid)), 1);
    let pairs: HashSet<_> = extract_coordinates_for_all_non_dot_pairings(&chunks).into_iter().collect();
    let expected: HashSet<((usize, usize), (usize, usize))> =
        HashSet::from([((0, 0), (1, 0)), ((1, 0), (1, 1)), ((0, 0), (1, 1))]);
    assert_eq!(pairs, expected);
}

#[test]
fn trio_sweep_finds_centred_trios() {
    let sweep = |text: &str| {
        let grid = form_multidimensional_array(&parse_string_to_array(text), (3, 3));
        let chunks = chunk_window_array(&form_boolean_mask(&form_three_by_three_window_array(&grid)), 1);
        extract_coordinates_for_all_non_dot_trios(&chunks)
    };
    // The centre is a dot: no trio.
    assert_eq!(sweep("1.2...*.."), Vec::new());
    // Two cells before the centre and two after it, each alone in its row.
    assert_eq!(
        sweep("1.2.*.3.4"),
        vec![
            ((0, 0), (1, 1), (2, 0)),
            ((0, 0), (1, 1), (2, 2)),
            ((0, 2), (1, 1), (2, 0)),
            ((0, 2), (1, 1), (2, 2)),
        ]
    );
    // A stretch of non-dots counts once, by its first cell; the centre parts
    // its row in two.
    assert_eq!(sweep("12.3*4..."), vec![((0, 0), (1, 1), (1, 2)), ((1, 0), (1, 1), (1, 2))]);
    // Cells after the centre pair only with cells before it.
    assert_eq!(sweep("...3*4567"), vec![((1, 0), (1, 1), (1, 2)), ((1, 0), (1, 1), (2, 0))]);
}

#[test]
fn trio_sweep_on_example_keeps_one_trio_per_gear() {
    let multi_array = form_multidimensional_array(&parse_string_to_array(EXAMPLE), (10, 10));
    let chunks = chunk_window_array(&form_boolean_mask(&form_three_by_three_window_array(&multi_array)), 8);
    let trios = extract_coordinates_for_all_non_dot_trios(&chunks);
    let kept: Vec<_> = trios
        .iter()
        .filter(|trio| {
            let values =
                extract_non_boolean_trio_values_from_original_multidimensional_array(&multi_array, trio);
            values.0.chars().any(|c| c.is_numeric())
                && values.1 == "*"
                && values.2.chars().any(|c| c.is_numeric())
        })
        .cloned()
        .collect();
    assert_eq!(kept, vec![((0, 2), (1, 3), (2, 2)), ((7, 6), (8, 5), (9, 5))]);
}

#[test]
fn run_keys_tell_runs_apart() {
    let grid = form_multidimensional_array(&parse_string_to_array("12.34....5"), (2, 5));
    let first = trace_whole_number_from_array_following_coordinates(&grid, &(0, 1));
    let second = trace_whole_number_from_array_following_coordinates(&grid, &(0, 3));
    let below = trace_whole_number_from_array_following_coordinates(&grid, &(1, 4));
    assert_eq!(first, ("12".to_string(), "120".to_string()));
    assert_eq!(second, ("34".to_string(), "450".to_string()));
    assert_eq!(below, ("5".to_string(), "51".to_string()));
}

#[test]
fn trace_reads_the_whole_run() {
    let grid = form_multidimensional_array(&parse_string_to_array("..467.."), (1, 7));
    let from_inside = trace_whole_number_from_array_following_coordinates(&grid, &(0, 3));
    assert_eq!(from_inside, ("467".to_string(), "3450".to_string()));
    for c in 2..=5 {
        assert_eq!(trace_whole_number_from_array_following_coordinates(&grid, &(0, c)), from_inside);
    }
    assert_eq!(
        trace_whole_number_from_array_following_coordinates(&grid, &(0, 0)),
        ("".to_string(), "0".to_string())
    );
    assert_eq!(
        trace_whole_number_from_array_following_coordinates(&grid, &(0, 7)),
        ("".to_string(), "0".to_string())
    );
}

#[test]
fn trace_of_wider_cells_and_failures() {
    let grid = form_multidimensional_array(&strings(&["x", "12", "+3", "y"]), (2, 2));
    assert_eq!(
        trace_whole_number_from_array_following_coordinates(&grid, &(0, 1)),
        ("12".to_string(), "20".to_string())
    );
    assert_eq!(
        trace_whole_number_from_array_following_coordinates(&grid, &(1, 0)),
        ("3".to_string(), "11".to_string())
    );
    let grid = form_multidimensional_array(&parse_string_to_array(".¾."), (1, 3));
    assert_eq!(try_trace_whole_number(&grid, &(0, 1)), None);
    assert_eq!(try_trace_whole_number(&grid, &(0, 0)), Some(("".to_string(), "0".to_string())));
}

#[test]
fn part_number_sum_of_example() {
    assert_eq!(part_number_sum(EXAMPLE, (10, 10)), Some(4361));
    assert_eq!(part_number_sum("467..114.....*........35..633.", (3, 10)), Some(502));
    assert_eq!(part_number_sum("", (0, 2)), Some(0));
    // One row has no 2×2 window: nothing is found.
    assert_eq!(part_number_sum("¾*", (1, 2)), Some(0));
    // A numeric cell that is not an integer.
    assert_eq!(part_number_sum("¾*..", (2, 2)), None);
    // A number too large for an i32.
    assert_eq!(part_number_sum("9999999999*...........", (2, 11)), None);
}

#[test]
fn star_groups_of_example() {
    let groups = star_number_groups(EXAMPLE, (10, 10)).unwrap();
    let expected: Vec<((usize, usize), Vec<String>)> = vec![
        ((1, 3), strings(&["467", "35"])),
        ((4, 3), strings(&["617"])),
        ((8, 5), strings(&["755", "598"])),
    ];
    assert_eq!(groups, expected);
}

#[test]
fn star_groups_file_each_number_once() {
    // The 1 touches both stars; it is filed under the first star met only.
    let groups = star_number_groups("*1*...", (2, 3)).unwrap();
    assert_eq!(groups, vec![((0, 0), strings(&["1"]))]);
    assert_eq!(star_number_groups("¾*..", (2, 2)), None);
}

#[test]
fn gear_ratio_sum_of_example() {
    assert_eq!(gear_ratio_sum(EXAMPLE, (10, 10)), Some(467 * 35 + 755 * 598));
    assert_eq!(gear_ratio_sum(EXAMPLE, (10, 10)), Some(467835));
    // 231 with 245 and 467 with 158 get the same key (1231 + 5671 and
    // 3450 + 3452), so only the first met of the two is counted.
    assert_eq!(gear_ratio_sum("..467..231*245..158..", (3, 7)), Some(467 * 245 + 467 * 158 + 231 * 158));
    // A star on the border is the centre of no window.
    assert_eq!(gear_ratio_sum("1*2......", (3, 3)), Some(0));
    // A numeric cell that is not an integer.
    assert_eq!(gear_ratio_sum("¾...*7...", (3, 3)), None);
}

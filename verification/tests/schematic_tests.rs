use std::collections::{BTreeMap, HashMap, HashSet};

use engine_schematic::grid::{
    chunk_window_array, form_boolean_mask, form_multidimensional_array,
    form_three_by_three_window_array, form_window_array, parse_string_to_array,
};
use engine_schematic::sweep::{
    extract_coordinates_for_all_non_dot_pairings, extract_coordinates_for_all_non_dot_trios,
};
use engine_schematic::trace::{
    extract_non_boolean_pair_values_from_original_multidimensional_array,
    extract_non_boolean_trio_values_from_original_multidimensional_array,
    trace_whole_number_from_array_following_coordinates,
};

fn strings(cells: &[&str]) -> Vec<String> {
    cells.iter().map(|s| s.to_string()).collect()
}

#[test]
fn test_parse_string_to_array() {
    let giant_string = "467..114.....*";
    let array = parse_string_to_array(giant_string);
    let expected_array = vec![
        "4", "6", "7", ".", ".", "1", "1", "4", ".", ".", ".", ".", ".", "*",
    ];
    assert_eq!(array, expected_array);
}

#[test]
fn test_multidimensional_array() {
    let giant_string = "467..114.....*";
    let array = parse_string_to_array(giant_string);
    let expected_array = vec![
        "4", "6", "7", ".", ".", "1", "1", "4", ".", ".", ".", ".", ".", "*",
    ];

    let multi_array = form_multidimensional_array(&array, (7, 2));
    assert_eq!(multi_array.rows(), 7);
    assert_eq!(multi_array.cols(), 2);
    for r in 0..7 {
        for c in 0..2 {
            assert_eq!(multi_array.get(r, c).unwrap(), expected_array[r * 2 + c]);
        }
    }
    assert_eq!(multi_array.get(7, 0), None);
    assert_eq!(multi_array.get(0, 2), None);
}

#[test]
fn test_window_array() {
    let giant_string = "467..114.....*";
    let array = parse_string_to_array(giant_string);
    let multi_array = form_multidimensional_array(&array, (7, 2));
    let window_array = form_window_array(&multi_array);
    println!("{:?}", window_array);

    let expected = form_multidimensional_array(&strings(&["4", "6", "7", "."]), (2, 2));
    assert_eq!(&expected, window_array.get(0).unwrap())
}

#[test]
fn test_skinny_window_array() {
    let giant_string = "467..114.....*........35..633.......#...617*...........+.58...592...........755....$.*.....664.598..";
    let array = parse_string_to_array(giant_string);
    let multi_array = form_multidimensional_array(&array, (10, 10));
    let window_array = form_three_by_three_window_array(&multi_array);

    let expected = form_multidimensional_array(
        &strings(&["4", "6", "7", ".", ".", ".", ".", ".", "3"]),
        (3, 3),
    );
    assert_eq!(&expected, window_array.get(0).unwrap())
}

#[test]
fn test_form_boolean_mask() {
    let giant_string = "467..114.....*";
    let array = parse_string_to_array(giant_string);
    let multi_array = form_multidimensional_array(&array, (2, 7));
    let window_array = form_window_array(&multi_array);

    let boolean_mask = form_boolean_mask(&window_array);
    let expected = vec![true, true, true, false];

    let mask = boolean_mask.get(0).unwrap();
    assert_eq!((mask.rows(), mask.cols()), (2, 2));
    for r in 0..2 {
        for c in 0..2 {
            assert_eq!(mask.get(r, c).unwrap(), expected[r * 2 + c]);
        }
    }
}

#[test]
fn test_form_chunk_boolean_window_array() {
    let giant_string = "467..114.....*";
    let array = parse_string_to_array(giant_string);
    let multi_array = form_multidimensional_array(&array, (2, 7));

    let window_array = form_window_array(&multi_array);
    let boolean_mask = form_boolean_mask(&window_array);
    let chunked_window_array = chunk_window_array(&boolean_mask, 6);

    // Given a max row of 7, you will never iterate on to just the last column
    // You will stop short in order to satisfy the 2 x 2 window
    assert_eq!(chunked_window_array.len(), 1);
}

#[test]
fn test_extract_non_dot_pairings_from_array() {
    let test_string = "467..114.....*........35..633.";
    let array = parse_string_to_array(test_string);
    let multi_array = form_multidimensional_array(&array, (3, 10));

    let window_array = form_window_array(&multi_array);
    let boolean_mask = form_boolean_mask(&window_array);
    let chunked_window_array = chunk_window_array(&boolean_mask, 9);

    let coordinate_pairings: Vec<((usize, usize), (usize, usize))> =
        extract_coordinates_for_all_non_dot_pairings(&chunked_window_array);

    // [[4, 6, 7, ., ., 1, 1, 4, ., .],
    //  [., ., ., *, ., ., ., ., ., .],
    //  [., ., 3, 5, ., ., 6, 3, 3, .]]

    let expected: HashSet<((usize, usize), (usize, usize))> = HashSet::from([
        ((0, 0), (0, 1)),
        ((0, 1), (0, 2)),
        ((0, 2), (1, 3)),
        ((0, 5), (0, 6)),
        ((0, 6), (0, 7)),
        ((1, 3), (2, 3)),
        ((2, 2), (1, 3)),
        ((2, 2), (2, 3)),
        ((2, 6), (2, 7)),
        ((2, 7), (2, 8)),
    ]);

    let found: HashSet<((usize, usize), (usize, usize))> =
        coordinate_pairings.iter().cloned().collect();
    assert_eq!(found.len(), coordinate_pairings.len());
    assert_eq!(found, expected);
}

fn is_number_star_number(
    multi_array: &engine_schematic::grid::Grid,
    trio: &((usize, usize), (usize, usize), (usize, usize)),
) -> bool {
    let non_boolean_values =
        extract_non_boolean_trio_values_from_original_multidimensional_array(multi_array, trio);

    let position_a_is_numeric = non_boolean_values.0.chars().any(|char| char.is_numeric());
    let position_b_is_star = non_boolean_values.1 == "*";
    let position_c_is_numeric = non_boolean_values.2.chars().any(|char| char.is_numeric());

    if position_a_is_numeric && position_b_is_star && position_c_is_numeric {
        println!("Keeping {:?}", non_boolean_values)
    }
    position_a_is_numeric && position_b_is_star && position_c_is_numeric
}

#[test]
fn test_extract_non_dot_trios_from_array() {
    let test_string = "467..114.....*........35..633.......#...617*...........+.58...592...........755....$.*.....664.598..";
    let array = parse_string_to_array(test_string);
    let multi_array = form_multidimensional_array(&array, (10, 10));

    let window_array = form_three_by_three_window_array(&multi_array);
    assert_eq!(window_array.chunks(8).count(), 8);

    let boolean_mask = form_boolean_mask(&window_array);
    let chunked_window_array = chunk_window_array(&boolean_mask, 8);

    let coordinate_trios: HashSet<((usize, usize), (usize, usize), (usize, usize))> =
        extract_coordinates_for_all_non_dot_trios(&chunked_window_array).into_iter().collect();

    let filtered_trios: Vec<_> = coordinate_trios
        .iter()
        .filter(|trio| is_number_star_number(&multi_array, trio))
        .collect();

    assert_eq!(filtered_trios.len(), 2);
}

#[test]
fn test_extract_non_boolean_value_from_array() {
    let test_string = "467..114.....*........35..633.";
    let array = parse_string_to_array(test_string);
    let multi_array = form_multidimensional_array(&array, (3, 10));

    let test_coordinate_pair: ((usize, usize), (usize, usize)) = ((0, 0), (0, 1));

    let (non_boolean_a, non_boolean_b) =
        extract_non_boolean_pair_values_from_original_multidimensional_array(
            &multi_array,
            &test_coordinate_pair,
        );

    assert_eq!(non_boolean_a, "4");
    assert_eq!(non_boolean_b, "6");
}

fn part_one_map(giant_string: &str, shape: (usize, usize)) -> Vec<(String, String)> {
    let array = parse_string_to_array(giant_string);
    let multi_array = form_multidimensional_array(&array, shape);

    let window_array = form_window_array(&multi_array);
    let boolean_mask = form_boolean_mask(&window_array);
    let chunked_window_array = chunk_window_array(&boolean_mask, shape.1 - 1);

    let coordinate_pairings: Vec<((usize, usize), (usize, usize))> =
        extract_coordinates_for_all_non_dot_pairings(&chunked_window_array);

    let mut entries = vec![];
    for target_number in coordinate_pairings.iter() {
        let non_boolean_pair = extract_non_boolean_pair_values_from_original_multidimensional_array(
            &multi_array,
            &target_number,
        );

        let position_a_is_numeric = non_boolean_pair.0.chars().any(|char| char.is_numeric())
            && non_boolean_pair.1.chars().any(|char| !char.is_numeric());

        let position_b_is_numeric = non_boolean_pair.0.chars().any(|char| !char.is_numeric())
            && non_boolean_pair.1.chars().any(|char| char.is_numeric());

        if position_a_is_numeric {
            let traced_number =
                trace_whole_number_from_array_following_coordinates(&multi_array, &target_number.0);
            entries.push((traced_number.1, traced_number.0));
        } else if position_b_is_numeric {
            let traced_number =
                trace_whole_number_from_array_following_coordinates(&multi_array, &target_number.1);
            entries.push((traced_number.1, traced_number.0));
        }
    }
    entries
}

#[test]
fn test_extract_numbers_adjacent_to_symbols_and_track_total_coordinates() {
    let test_string = "467..114.....*........35..633.";
    // Keys are kept in order so that the values come out in a fixed order.
    let mut coordinates_and_value_map: BTreeMap<String, String> = BTreeMap::new();
    for (key, value) in part_one_map(test_string, (3, 10)) {
        coordinates_and_value_map.entry(key).or_insert(value);
    }

    assert_eq!(
        coordinates_and_value_map
            .values()
            .into_iter()
            .collect::<Vec<_>>(),
        vec!["467", "35"]
    )
}

#[test]
fn test_extract_numbers_adjacent_to_symbols_based_on_part_1_test_case() {
    let giant_string = "467..114.....*........35..633.......#...617*...........+.58...592...........755....$.*.....664.598..";

    let mut coordinates_and_value_map: HashMap<String, String> = HashMap::new();
    for (key, value) in part_one_map(giant_string, (10, 10)) {
        coordinates_and_value_map.entry(key).or_insert(value);
    }

    let established_values_adjacent_to_symbol: i32 = coordinates_and_value_map
        .values()
        .into_iter()
        .map(|element| element.parse::<i32>().unwrap())
        .sum();

    assert_eq!(established_values_adjacent_to_symbol, 4361);
}

#[test]
fn test_extract_numbers_adjacent_to_symbols_based_on_part_2_test_case() {
    let giant_string = "467..114.....*........35..633.......#...617*...........+.58...592...........755....$.*.....664.598..";

    let array = parse_string_to_array(giant_string);
    let multi_array = form_multidimensional_array(&array, (10, 10));

    let skinny_window_array = form_three_by_three_window_array(&multi_array);
    let boolean_mask = form_boolean_mask(&skinny_window_array);
    let chunked_window_array = chunk_window_array(&boolean_mask, 8);

    let coordinate_trios: HashSet<((usize, usize), (usize, usize), (usize, usize))> =
        extract_coordinates_for_all_non_dot_trios(&chunked_window_array).into_iter().collect();

    let filtered_trios: Vec<_> = coordinate_trios
        .iter()
        .filter(|trio| is_number_star_number(&multi_array, trio))
        .collect();

    let mut coordinates_and_value_map: HashMap<i32, i32> = HashMap::new();

    for filtered_trio in filtered_trios.iter() {
        let target_number: &&((usize, usize), (usize, usize), (usize, usize)) = filtered_trio;
        println!("{:?}", &target_number);
        let traced_number_a =
            trace_whole_number_from_array_following_coordinates(&multi_array, &target_number.0);
        let traced_number_c =
            trace_whole_number_from_array_following_coordinates(&multi_array, &target_number.2);

        let traced_coordinates_total: i32 = &traced_number_a.1.parse::<i32>().unwrap()
            + &traced_number_c.1.parse::<i32>().unwrap();
        let traced_values_product: i32 = &traced_number_a.0.parse::<i32>().unwrap()
            * &traced_number_c.0.parse::<i32>().unwrap();

        coordinates_and_value_map.entry(traced_coordinates_total).or_insert(traced_values_product);
    }

    let established_part_2_value_pairs_adjacent_to_star: i32 =
        coordinates_and_value_map.values().into_iter().sum();

    assert_eq!(established_part_2_value_pairs_adjacent_to_star, 467835)
}

#[test]
fn test_combo_maker() {
    // Avoid dumb hard coding every combo
    let variables = [(0, 0), (0, 1), (0, 2), (1, 0), (1, 1), (1, 2), (2, 0), (2, 1), (2, 2)];
    let mut combinations = Vec::new();

    // Check all combinations of three variables
    for i in 0..variables.len() {
        for j in i + 1..variables.len() {
            for k in j + 1..variables.len() {
                combinations.push((variables[i], variables[j], variables[k]));
            }
        }
    }

    // Pull each combo from array
    // Print the generated combinations
    for (idx, combo) in combinations.iter().enumerate() {
        println!("Combination {}: {:?}", idx, combo);
    }

    println!("{:?}", combinations.get(5).unwrap());
}

#[test]
fn test_part_2_test_case_with_star_solar_system_idea() {
    let giant_string = "467..114.....*........35..633.......#...617*...........+.58...592...........755....$.*.....664.598..";

    let array = parse_string_to_array(giant_string);
    let multi_array = form_multidimensional_array(&array, (10, 10));

    let window_array = form_window_array(&multi_array);
    let boolean_mask = form_boolean_mask(&window_array);
    let chunked_window_array = chunk_window_array(&boolean_mask, 9);

    let coordinate_pairings: Vec<((usize, usize), (usize, usize))> =
        extract_coordinates_for_all_non_dot_pairings(&chunked_window_array);

    let filtered_pairing: Vec<_> = coordinate_pairings
        .iter()
        .filter(|pairing| {
            let non_boolean_values =
                extract_non_boolean_pair_values_from_original_multidimensional_array(
                    &multi_array,
                    &pairing,
                );

            let position_a_is_numeric = non_boolean_values.0.chars().any(|char| char.is_numeric())
                && non_boolean_values.1.chars().any(|char| !char.is_numeric());

            let position_b_is_numeric = non_boolean_values.0.chars().any(|char| !char.is_numeric())
                && non_boolean_values.1.chars().any(|char| char.is_numeric());

            let position_a_is_star = non_boolean_values.0 == "*";
            let position_b_is_star = non_boolean_values.1 == "*";

            if position_a_is_numeric && position_b_is_star {
                true
            } else if position_b_is_numeric && position_a_is_star {
                true
            } else {
                false
            }
        })
        .collect();

    let mut coordinates_and_value_map: HashMap<(usize, usize), Vec<String>> = HashMap::new();
    let mut numbers_already_traced: HashSet<String> = HashSet::new();

    for filtered_pair in filtered_pairing.iter() {
        let target_number: &&((usize, usize), (usize, usize)) = filtered_pair;
        let non_boolean_pair = extract_non_boolean_pair_values_from_original_multidimensional_array(
            &multi_array,
            &target_number,
        );

        let position_a_is_numeric = non_boolean_pair.0.chars().any(|char| char.is_numeric())
            && non_boolean_pair.1.chars().any(|char| !char.is_numeric());

        let position_b_is_numeric = non_boolean_pair.0.chars().any(|char| !char.is_numeric())
            && non_boolean_pair.1.chars().any(|char| char.is_numeric());

        let position_a_is_star = non_boolean_pair.0 == "*";
        let position_b_is_star = non_boolean_pair.1 == "*";

        if position_a_is_numeric && position_b_is_star {
            let traced_number =
                trace_whole_number_from_array_following_coordinates(&multi_array, &target_number.0);

            if !numbers_already_traced.contains(&traced_number.1) {
                coordinates_and_value_map
                    .entry(target_number.1)
                    .or_insert(vec![])
                    .push(traced_number.0);
            }

            numbers_already_traced.insert(traced_number.1);
        } else if position_b_is_numeric && position_a_is_star {
            let traced_number =
                trace_whole_number_from_array_following_coordinates(&multi_array, &target_number.1);

            if !numbers_already_traced.contains(&traced_number.1) {
                coordinates_and_value_map
                    .entry(target_number.0)
                    .or_insert(vec![])
                    .push(traced_number.0);
            }

            numbers_already_traced.insert(traced_number.1);
        } else {
            ()
        }
    }

    let mut total_counter = 0;

    for store in coordinates_and_value_map.values() {
        if store.len() > 1 {
            let store_product: i32 = store
                .iter()
                .map(|traced_number| traced_number.parse::<i32>().unwrap())
                .product();
            total_counter += store_product
        }
    }
    assert_eq!(total_counter, 467835)
}

#[test]
fn test_fake_3_by_3_grids() {
    let giant_string = "..467..231*245..158..";

    let array = parse_string_to_array(giant_string);
    let multi_array = form_multidimensional_array(&array, (3, 7));

    let skinny_window_array = form_three_by_three_window_array(&multi_array);
    let boolean_mask = form_boolean_mask(&skinny_window_array);
    let chunked_window_array = chunk_window_array(&boolean_mask, 5);

    let coordinate_trios: Vec<((usize, usize), (usize, usize), (usize, usize))> =
        extract_coordinates_for_all_non_dot_trios(&chunked_window_array);

    let filtered_trios: Vec<_> = coordinate_trios
        .iter()
        .filter(|trio| {
            let non_boolean_values =
                extract_non_boolean_trio_values_from_original_multidimensional_array(
                    &multi_array,
                    &trio,
                );

            let position_a_is_numeric =
                non_boolean_values.0.chars().any(|char| char.is_numeric());
            let position_b_is_star = non_boolean_values.1 == "*";
            let position_c_is_numeric =
                non_boolean_values.2.chars().any(|char| char.is_numeric());

            if position_a_is_numeric && position_b_is_star && position_c_is_numeric {
                println!("Keeping {:?}", non_boolean_values)
            }
            return position_a_is_numeric && position_b_is_star && position_c_is_numeric;
        })
        .collect();

    let mut coordinates_and_value_map: HashMap<i32, i32> = HashMap::new();

    for filtered_trio in filtered_trios.iter() {
        let target_number: &&((usize, usize), (usize, usize), (usize, usize)) = filtered_trio;
        println!("{:?}", &target_number);
        let traced_number_a =
            trace_whole_number_from_array_following_coordinates(&multi_array, &target_number.0);
        let traced_number_c =
            trace_whole_number_from_array_following_coordinates(&multi_array, &target_number.2);

        coordinates_and_value_map
            .entry((&traced_number_a.1).parse().unwrap())
            .or_insert((&traced_number_a.0).parse().unwrap());
        coordinates_and_value_map
            .entry((&traced_number_c.1).parse().unwrap())
            .or_insert((&traced_number_c.0).parse().unwrap());
    }
    println!("{:?}", coordinates_and_value_map);
}

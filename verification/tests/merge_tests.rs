use raytracer::merge::{into_values, sort_by_pixel};

#[test]
fn entries_are_sorted_by_row_then_column() {
    let parts = vec![(2, 1, 'f'), (0, 0, 'a'), (1, 1, 'e'), (2, 0, 'c'), (0, 1, 'd'), (1, 0, 'b')];
    assert_eq!(
        sort_by_pixel(parts),
        vec![(0, 0, 'a'), (1, 0, 'b'), (2, 0, 'c'), (0, 1, 'd'), (1, 1, 'e'), (2, 1, 'f')]
    );
}

#[test]
fn the_row_decides_before_the_column() {
    let parts = vec![(0, 5, "low"), (9, 4, "high")];
    assert_eq!(sort_by_pixel(parts), vec![(9, 4, "high"), (0, 5, "low")]);
}

#[test]
fn entries_of_one_pixel_keep_their_order() {
    let parts = vec![(1, 0, "first"), (0, 0, "x"), (1, 0, "second"), (0, 0, "y"), (1, 0, "third")];
    assert_eq!(
        sort_by_pixel(parts),
        vec![(0, 0, "x"), (0, 0, "y"), (1, 0, "first"), (1, 0, "second"), (1, 0, "third")]
    );
}

#[test]
fn sorted_input_stays_as_it_is() {
    let parts: Vec<(u32, u32, u32)> = (0..50).map(|k| (k % 10, k / 10, k)).collect();
    assert_eq!(sort_by_pixel(parts.clone()), parts);
}

#[test]
fn reversed_input_is_turned_around() {
    let sorted: Vec<(u32, u32, u32)> = (0..50).map(|k| (k % 10, k / 10, k)).collect();
    let mut parts = sorted.clone();
    parts.reverse();
    assert_eq!(sort_by_pixel(parts), sorted);
}

#[test]
fn nothing_and_a_single_entry_sort_to_themselves() {
    assert_eq!(sort_by_pixel(Vec::<(u32, u32, u8)>::new()), vec![]);
    assert_eq!(sort_by_pixel(vec![(3, 4, 5u8)]), vec![(3, 4, 5u8)]);
}

#[test]
fn sorting_handles_values_that_cannot_be_copied() {
    let parts = vec![(1, 0, String::from("b")), (0, 0, String::from("a"))];
    assert_eq!(sort_by_pixel(parts), vec![(0, 0, String::from("a")), (1, 0, String::from("b"))]);
}

#[test]
fn sorting_agrees_with_a_stable_sort_by_key() {
    let mut seed: u32 = 12345;
    let mut parts: Vec<(u32, u32, u32)> = Vec::new();
    for n in 0..500 {
        seed = seed.wrapping_mul(1664525).wrapping_add(1013904223);
        parts.push(((seed >> 8) % 7, (seed >> 16) % 5, n));
    }
    let mut expected = parts.clone();
    expected.sort_by_key(|e| (e.1, e.0));
    assert_eq!(sort_by_pixel(parts), expected);
}

#[test]
fn into_values_drops_the_pixels() {
    let entries = vec![(0, 0, 'a'), (1, 0, 'b'), (0, 1, 'c')];
    assert_eq!(into_values(entries), vec!['a', 'b', 'c']);
    assert_eq!(into_values(Vec::<(u32, u32, char)>::new()), Vec::<char>::new());
}

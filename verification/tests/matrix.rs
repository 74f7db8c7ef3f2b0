use std::collections::HashMap;

use fixedbitset::FixedBitSet;
use xcc::{Color, ColoredItem, ItemId, Matrix, OptionId};

fn to_vec(set: &FixedBitSet) -> Vec<usize> {
    set.ones().collect()
}

fn items_of<T>(matrix: &Matrix<T>, option: usize) -> Vec<usize> {
    to_vec(&matrix.get_option(OptionId::new(option)).items)
}

fn colors_of<T>(matrix: &Matrix<T>, option: usize) -> HashMap<usize, Color> {
    matrix.get_option(OptionId::new(option)).colors.clone()
}

fn one_color(item: usize, color: usize) -> HashMap<usize, Color> {
    let mut map = HashMap::new();
    map.insert(item, Color::new(color));
    map
}

#[test]
fn test_init_no_colors() {
    // This is the example shown in Table 1 (page 68):
    let mut builder = Matrix::builder();
    builder.add_primary_items(&["a", "b", "c", "d", "e", "f", "g"]);
    builder.add_option(Some(0), &["c", "e"]);
    builder.add_option(Some(1), &vec!["a", "d", "g"]);
    builder.add_option(Some(2), &vec!["b", "c", "f"]);
    builder.add_option(Some(3), &vec!["a", "d", "f"]);
    builder.add_option(Some(4), &vec!["b", "g"]);
    builder.add_option(Some(5), &vec!["d", "e", "g"]);

    let matrix = builder.build().unwrap();

    assert_eq!(items_of(&matrix, 0), [2, 4]);
    assert_eq!(items_of(&matrix, 1), [0, 3, 6]);
    assert_eq!(items_of(&matrix, 2), [1, 2, 5]);
    assert_eq!(items_of(&matrix, 3), [0, 3, 5]);
    assert_eq!(items_of(&matrix, 4), [1, 6]);
    assert_eq!(items_of(&matrix, 5), [3, 4, 6]);
}

#[test]
fn test_colored_items() {
    // p q x y:A
    // p r x:A y
    // p x:B
    // q x:A
    // r y:B
    let mut builder = Matrix::builder();

    builder.add_primary_items(&["p", "q", "r"]);
    builder.add_secondary_items(&["x", "y"]);
    builder.add_option("p q x y:A", &["p", "q", "x", "y:A"]);
    builder.add_option("p r x:A y", &["p", "r", "x:A", "y"]);
    builder.add_option("p x:B", &["p", "x:B"]);
    builder.add_option("q x:A", &["q", "x:A"]);
    builder.add_option("r y:B", &["r", "y:B"]);
    let mut matrix = builder.build().unwrap();

    assert_eq!(items_of(&matrix, 0), [0, 1, 3, 4]);
    assert_eq!(colors_of(&matrix, 0), one_color(4, 0));

    assert_eq!(items_of(&matrix, 1), [0, 2, 3, 4]);
    assert_eq!(colors_of(&matrix, 1), one_color(3, 0));

    assert_eq!(items_of(&matrix, 2), [0, 3]);
    assert_eq!(colors_of(&matrix, 2), one_color(3, 1));

    assert_eq!(items_of(&matrix, 3), [1, 3]);
    assert_eq!(colors_of(&matrix, 3), one_color(3, 0));

    assert_eq!(items_of(&matrix, 4), [2, 4]);
    assert_eq!(colors_of(&matrix, 4), one_color(4, 1));

    let solutions = matrix
        .solve_all()
        .into_iter()
        .map(|s| s.meanings(&matrix))
        .collect::<Vec<_>>();

    assert_eq!(solutions, [[&"q x:A", &"p r x:A y"]]);
}

#[test]
fn new_matrix_is_empty() {
    let matrix: Matrix<u8> = Matrix::new(3, 2);
    assert_eq!(matrix.num_items(), 5);
    assert_eq!(matrix.num_primary_items(), 3);
    assert_eq!(matrix.num_options(), 0);
}

#[test]
fn add_option_numbers_options_in_order() {
    let mut matrix = Matrix::new(2, 1);
    let first = matrix.add_option("first", &[ColoredItem::new(ItemId::new(0))]);
    let second = matrix.add_option(
        "second",
        &[
            ColoredItem::new(ItemId::new(1)),
            ColoredItem::with_color(ItemId::new(2), Color::new(7)),
        ],
    );
    assert_eq!(first, 0);
    assert_eq!(second, 1);
    assert_eq!(matrix.num_options(), 2);
    assert_eq!(matrix.meaning(0), &"first");
    assert_eq!(matrix.meaning(1), &"second");
    assert_eq!(matrix.get_option(OptionId::new(0)).option_id, OptionId::new(0));
    assert_eq!(matrix.get_option(OptionId::new(1)).option_id, OptionId::new(1));
    assert_eq!(matrix.get_option(OptionId::new(1)).meaning, "second");
    assert_eq!(items_of(&matrix, 0), [0]);
    assert_eq!(items_of(&matrix, 1), [1, 2]);
    assert!(colors_of(&matrix, 0).is_empty());
    assert_eq!(colors_of(&matrix, 1), one_color(2, 7));
    // The bit set of an option has one bit for each item of the matrix.
    assert_eq!(matrix.get_option(OptionId::new(0)).items.len(), 3);
}

#[test]
fn add_option_takes_items_in_any_order_and_twice() {
    let mut matrix = Matrix::new(1, 3);
    matrix.add_option(
        (),
        &[
            ColoredItem::new(ItemId::new(3)),
            ColoredItem::new(ItemId::new(0)),
            ColoredItem::new(ItemId::new(3)),
            ColoredItem::new(ItemId::new(1)),
        ],
    );
    assert_eq!(items_of(&matrix, 0), [0, 1, 3]);
    assert!(colors_of(&matrix, 0).is_empty());
}

#[test]
fn later_color_of_an_item_counts() {
    let mut matrix = Matrix::new(1, 1);
    matrix.add_option(
        (),
        &[
            ColoredItem::new(ItemId::new(0)),
            ColoredItem::with_color(ItemId::new(1), Color::new(4)),
            ColoredItem::with_color(ItemId::new(1), Color::new(9)),
            ColoredItem::new(ItemId::new(1)),
        ],
    );
    assert_eq!(items_of(&matrix, 0), [0, 1]);
    assert_eq!(colors_of(&matrix, 0), one_color(1, 9));
    assert_eq!(
        matrix.items_for_option(OptionId::new(0)),
        [
            (ItemId::new(0), None),
            (ItemId::new(1), Some(Color::new(9)))
        ]
    );
}

#[test]
fn options_for_item_keeps_insertion_order() {
    let mut matrix = Matrix::new(3, 0);
    matrix.add_option(10, &[ColoredItem::new(ItemId::new(0)), ColoredItem::new(ItemId::new(2))]);
    matrix.add_option(11, &[ColoredItem::new(ItemId::new(1))]);
    matrix.add_option(12, &[ColoredItem::new(ItemId::new(2))]);
    matrix.add_option(13, &[ColoredItem::new(ItemId::new(2)), ColoredItem::new(ItemId::new(1))]);
    let meanings = |item: usize| -> Vec<i32> {
        matrix
            .options_for_item(ItemId::new(item))
            .into_iter()
            .map(|o| o.meaning)
            .collect()
    };
    assert_eq!(meanings(0), [10]);
    assert_eq!(meanings(1), [11, 13]);
    assert_eq!(meanings(2), [10, 12, 13]);
    let ids: Vec<OptionId> = matrix
        .options_for_item(ItemId::new(2))
        .into_iter()
        .map(|o| o.option_id)
        .collect();
    assert_eq!(ids, [OptionId::new(0), OptionId::new(2), OptionId::new(3)]);
}

#[test]
fn items_for_option_lists_items_in_ascending_order_with_colors() {
    let mut matrix = Matrix::new(2, 3);
    matrix.add_option(
        (),
        &[
            ColoredItem::with_color(ItemId::new(4), Color::new(2)),
            ColoredItem::new(ItemId::new(1)),
            ColoredItem::with_color(ItemId::new(2), Color::new(5)),
            ColoredItem::new(ItemId::new(3)),
        ],
    );
    assert_eq!(
        matrix.items_for_option(OptionId::new(0)),
        [
            (ItemId::new(1), None),
            (ItemId::new(2), Some(Color::new(5))),
            (ItemId::new(3), None),
            (ItemId::new(4), Some(Color::new(2))),
        ]
    );
}

#[test]
fn items_for_option_of_an_empty_option() {
    let mut matrix = Matrix::new(2, 0);
    matrix.add_option((), &[]);
    assert!(matrix.items_for_option(OptionId::new(0)).is_empty());
    assert_eq!(items_of(&matrix, 0), Vec::<usize>::new());
}

#[test]
fn matrix_with_many_items_crosses_word_boundaries() {
    // 200 items span several words of the bit set.
    let mut matrix = Matrix::new(200, 0);
    let picks = [0usize, 63, 64, 65, 127, 128, 199];
    let items: Vec<ColoredItem> = picks.iter().map(|&i| ColoredItem::new(ItemId::new(i))).collect();
    matrix.add_option((), &items);
    assert_eq!(items_of(&matrix, 0), picks);
    let listed: Vec<usize> = matrix
        .items_for_option(OptionId::new(0))
        .into_iter()
        .map(|(item, _)| item.index())
        .collect();
    assert_eq!(listed, picks);
}

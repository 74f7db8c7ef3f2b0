use xcc::text::{find_colon, split_token};
use xcc::{BuildError, Builder, Color, ItemId, Matrix, OptionId};

fn toy_builder() -> Builder<&'static str> {
    let mut builder = Matrix::builder();
    builder.add_primary_items(&["p", "q", "r"]);
    builder.add_secondary_items(&["x", "y"]);
    builder.add_option("p q x y:A", &["p", "q", "x", "y:A"]);
    builder.add_option("p r x:A y", &["p", "r", "x:A", "y"]);
    builder.add_option("p x:B", &["p", "x:B"]);
    builder.add_option("q x:A", &["q", "x:A"]);
    builder.add_option("r y:B", &["r", "y:B"]);
    builder
}

#[test]
fn build_numbers_items_and_colors_in_order_of_appearance() {
    let mut builder: Builder<u8> = Builder::new();
    builder.add_primary_item("one");
    builder.add_primary_items(&["two", "three"]);
    builder.add_secondary_item("s");
    builder.add_secondary_items(&["t", "u"]);
    builder.add_option(0, &["three", "u:red", "s:blue"]);
    builder.add_option(1, &["one", "two", "t:blue", "s:green", "u:red"]);
    let matrix = builder.build().unwrap();
    assert_eq!(matrix.num_primary_items(), 3);
    assert_eq!(matrix.num_items(), 6);
    assert_eq!(matrix.num_options(), 2);
    // red is 0, blue is 1, green is 2.
    assert_eq!(
        matrix.items_for_option(OptionId::new(0)),
        [
            (ItemId::new(2), None),
            (ItemId::new(3), Some(Color::new(1))),
            (ItemId::new(5), Some(Color::new(0))),
        ]
    );
    assert_eq!(
        matrix.items_for_option(OptionId::new(1)),
        [
            (ItemId::new(0), None),
            (ItemId::new(1), None),
            (ItemId::new(3), Some(Color::new(2))),
            (ItemId::new(4), Some(Color::new(1))),
            (ItemId::new(5), Some(Color::new(0))),
        ]
    );
    assert_eq!(matrix.meaning(0), &0);
    assert_eq!(matrix.meaning(1), &1);
}

#[test]
fn build_without_primary_items_fails() {
    let mut builder: Builder<()> = Builder::new();
    builder.add_secondary_item("x");
    builder.add_option((), &["x"]);
    assert_eq!(builder.build().unwrap_err(), BuildError::NoPrimaryItems);
    let empty: Builder<()> = Builder::new();
    assert_eq!(empty.build().unwrap_err(), BuildError::NoPrimaryItems);
}

#[test]
fn build_without_options_fails() {
    let mut builder: Builder<()> = Builder::new();
    builder.add_primary_item("a");
    assert_eq!(builder.build().unwrap_err(), BuildError::NoOptions);
}

#[test]
fn build_with_an_item_of_both_kinds_fails() {
    let mut builder: Builder<()> = Builder::new();
    builder.add_primary_items(&["a", "b", "c"]);
    builder.add_secondary_items(&["x", "c", "b"]);
    builder.add_option((), &["a", "b", "c"]);
    // b is the first primary item that is also secondary.
    assert_eq!(
        builder.build().unwrap_err(),
        BuildError::ItemDeclaredTwice("b".to_string())
    );
}

#[test]
fn build_with_an_undeclared_item_fails() {
    let mut builder: Builder<()> = Builder::new();
    builder.add_primary_items(&["a", "b"]);
    builder.add_option((), &["a", "b"]);
    builder.add_option((), &["a", "z", "y"]);
    builder.add_option((), &["w"]);
    assert_eq!(
        builder.build().unwrap_err(),
        BuildError::ItemNotDeclared("z".to_string())
    );
}

#[test]
fn build_with_an_undeclared_colored_item_fails() {
    let mut builder: Builder<()> = Builder::new();
    builder.add_primary_items(&["a"]);
    builder.add_option((), &["a", "z:red"]);
    assert_eq!(
        builder.build().unwrap_err(),
        BuildError::ItemNotDeclared("z".to_string())
    );
}

#[test]
fn build_with_an_unused_primary_item_fails() {
    let mut builder: Builder<()> = Builder::new();
    builder.add_primary_items(&["a", "b", "c", "d"]);
    builder.add_secondary_items(&["x"]);
    builder.add_option((), &["a", "d"]);
    builder.add_option((), &["d", "x"]);
    // b is the first primary item that no option uses.
    assert_eq!(
        builder.build().unwrap_err(),
        BuildError::PrimaryItemNotUsed("b".to_string())
    );
}

#[test]
fn unused_secondary_item_is_no_fault() {
    let mut builder: Builder<()> = Builder::new();
    builder.add_primary_items(&["a"]);
    builder.add_secondary_items(&["x"]);
    builder.add_option((), &["a"]);
    let mut matrix = builder.build().unwrap();
    assert_eq!(matrix.solve_all().len(), 1);
}

#[test]
fn the_first_fault_found_decides() {
    // No primary item comes before everything else.
    let mut builder: Builder<()> = Builder::new();
    builder.add_option((), &["z"]);
    assert_eq!(builder.build().unwrap_err(), BuildError::NoPrimaryItems);
    // An item of both kinds comes before an undeclared item.
    let mut builder: Builder<()> = Builder::new();
    builder.add_primary_items(&["a"]);
    builder.add_secondary_items(&["a"]);
    builder.add_option((), &["z"]);
    assert_eq!(
        builder.build().unwrap_err(),
        BuildError::ItemDeclaredTwice("a".to_string())
    );
    // An undeclared item comes before an unused primary item.
    let mut builder: Builder<()> = Builder::new();
    builder.add_primary_items(&["a", "b"]);
    builder.add_option((), &["a", "z"]);
    assert_eq!(
        builder.build().unwrap_err(),
        BuildError::ItemNotDeclared("z".to_string())
    );
}

#[test]
fn a_name_declared_twice_means_the_last_declaration() {
    let mut builder: Builder<()> = Builder::new();
    builder.add_primary_items(&["a"]);
    builder.add_secondary_items(&["x", "y", "x"]);
    builder.add_option((), &["a", "x"]);
    let matrix = builder.build().unwrap();
    assert_eq!(
        matrix.items_for_option(OptionId::new(0)),
        [(ItemId::new(0), None), (ItemId::new(3), None)]
    );
    // Of a primary item declared twice, the first declaration is never used.
    let mut builder: Builder<()> = Builder::new();
    builder.add_primary_items(&["a", "a"]);
    builder.add_option((), &["a"]);
    assert_eq!(
        builder.build().unwrap_err(),
        BuildError::PrimaryItemNotUsed("a".to_string())
    );
}

#[test]
fn options_may_come_before_the_items() {
    let mut builder: Builder<i32> = Builder::new();
    builder.add_option(1, &["a", "x:c"]);
    builder.add_option(2, &["b", "x:c"]);
    builder.add_primary_items(&["a", "b"]);
    builder.add_secondary_item("x");
    let mut matrix = builder.build().unwrap();
    let solutions = matrix.solve_all();
    assert_eq!(solutions.len(), 1);
    let mut ids: Vec<i32> = solutions[0].meanings(&matrix).into_iter().copied().collect();
    ids.sort();
    assert_eq!(ids, [1, 2]);
}

#[test]
fn allows_refuses_a_colored_primary_item() {
    let mut builder: Builder<()> = Builder::new();
    builder.add_primary_items(&["a", "b"]);
    builder.add_secondary_items(&["x"]);
    assert!(builder.allows(&["a", "b", "x:red"]));
    assert!(builder.allows(&["a", "x"]));
    assert!(builder.allows(&[]));
    assert!(!builder.allows(&["a", "b:red"]));
    assert!(!builder.allows(&["a:"]));
    // An item that is not declared yet is not known to be primary.
    assert!(builder.allows(&["c:red"]));
    builder.add_primary_item("c");
    assert!(!builder.allows(&["c:red"]));
}

#[test]
fn only_the_first_colon_splits_a_token() {
    assert_eq!(find_colon("abc"), None);
    assert_eq!(find_colon(""), None);
    assert_eq!(find_colon(":"), Some(0));
    assert_eq!(find_colon("ab:cd:ef"), Some(2));
    // Positions count characters, not bytes.
    assert_eq!(find_colon("é:x"), Some(1));
    assert_eq!(split_token("abc"), ("abc".to_string(), None));
    assert_eq!(
        split_token("ab:cd:ef"),
        ("ab".to_string(), Some("cd:ef".to_string()))
    );
    assert_eq!(split_token("ab:"), ("ab".to_string(), Some(String::new())));
    assert_eq!(split_token(":cd"), (String::new(), Some("cd".to_string())));
    assert_eq!(
        split_token("née:bleu ciel"),
        ("née".to_string(), Some("bleu ciel".to_string()))
    );
    assert_eq!(split_token("x:A"), "x:A".split_once(':').map(|(a, b)| (a.to_string(), Some(b.to_string()))).unwrap());
}

#[test]
fn a_color_may_hold_a_colon() {
    let mut builder: Builder<()> = Builder::new();
    builder.add_primary_items(&["a", "b"]);
    builder.add_secondary_items(&["x"]);
    builder.add_option((), &["a", "x:1:2"]);
    builder.add_option((), &["b", "x:1"]);
    builder.add_option((), &["b", "x:1:2"]);
    let matrix = builder.build().unwrap();
    let color = |o: usize| matrix.items_for_option(OptionId::new(o))[1].1;
    assert_eq!(color(0), Some(Color::new(0)));
    assert_eq!(color(1), Some(Color::new(1)));
    assert_eq!(color(2), Some(Color::new(0)));
}

#[test]
fn dump_knuth_format_lists_items_and_options() {
    let builder = toy_builder();
    assert_eq!(
        builder.dump_knuth_format(),
        "p q r | x y\np q x y:A\np r x:A y\np x:B\nq x:A\nr y:B\n"
    );
}

#[test]
fn dump_knuth_format_without_secondary_items() {
    let mut builder: Builder<u8> = Builder::new();
    builder.add_primary_items(&["a", "b"]);
    builder.add_option(1, &["a"]);
    builder.add_option(2, &[]);
    builder.add_option(3, &["b", "a"]);
    assert_eq!(builder.dump_knuth_format(), "a b\na\n\nb a\n");
    let empty: Builder<u8> = Builder::new();
    assert_eq!(empty.dump_knuth_format(), "\n");
}

#[test]
fn same_declaration_gives_the_same_solutions() {
    let payloads = |builder: Builder<&'static str>| -> Vec<Vec<&'static str>> {
        let mut matrix = builder.build().unwrap();
        let solutions = matrix.solve_all();
        solutions
            .iter()
            .map(|s| s.meanings(&matrix).into_iter().copied().collect())
            .collect()
    };
    let first = payloads(toy_builder());
    let second = payloads(toy_builder());
    assert_eq!(first, second);
    assert_eq!(first, [vec!["q x:A", "p r x:A y"]]);
    let cloned = toy_builder().clone();
    assert_eq!(payloads(cloned), first);
}

#[test]
fn built_matrix_is_the_toy_sample() {
    let built = toy_builder().build().unwrap();
    let sample = xcc::samples::toy();
    assert_eq!(built.num_items(), sample.num_items());
    assert_eq!(built.num_primary_items(), sample.num_primary_items());
    assert_eq!(built.num_options(), sample.num_options());
    for o in 0..built.num_options() {
        assert_eq!(
            built.items_for_option(OptionId::new(o)),
            sample.items_for_option(OptionId::new(o))
        );
    }
}

#[test]
fn default_builder_is_empty() {
    let builder: Builder<u8> = Builder::default();
    assert_eq!(builder.dump_knuth_format(), "\n");
    assert_eq!(builder.build().unwrap_err(), BuildError::NoPrimaryItems);
}

#[test]
fn build_error_messages() {
    assert_eq!(
        BuildError::ItemNotDeclared("z".to_string()).message(),
        "Item z is used in an option, but not declared"
    );
    assert_eq!(
        BuildError::ItemDeclaredTwice("b".to_string()).message(),
        "Item b is declared as both primary and secondary"
    );
    assert_eq!(BuildError::NoPrimaryItems.message(), "No primary items declared");
    assert_eq!(
        BuildError::PrimaryItemNotUsed("b".to_string()).message(),
        "Primary item b is not used in any option, so no solutions are possible."
    );
    assert_eq!(BuildError::NoOptions.message(), "No options declared");
}

#[test]
fn allows_its_options_finds_an_item_declared_primary_after_its_option() {
    let mut builder: Builder<u8> = Builder::new();
    assert!(builder.allows_its_options());
    builder.add_secondary_item("y");
    assert!(builder.allows(&["x:A", "y:B"]));
    builder.add_option(1, &["x:A", "y:B"]);
    builder.add_option(2, &["x"]);
    assert!(builder.allows_its_options());
    builder.add_primary_item("z");
    assert!(builder.allows_its_options());
    builder.add_primary_item("x");
    assert!(!builder.allows_its_options());
    assert!(!builder.allows(&["x:A"]));
}

#[test]
fn a_built_matrix_colors_no_primary_item() {
    let mut builder: Builder<u8> = Builder::new();
    builder.add_option(1, &["a", "x:red", "y"]);
    builder.add_option(2, &["b", "x:red", "y:blue"]);
    builder.add_primary_items(&["a", "b"]);
    builder.add_secondary_items(&["x", "y"]);
    assert!(builder.allows_its_options());
    let matrix = builder.build().unwrap();
    for o in 0..matrix.num_options() {
        for (item, color) in matrix.items_for_option(OptionId::new(o)) {
            if color.is_some() {
                assert!(item.index() >= matrix.num_primary_items());
            }
        }
    }
}

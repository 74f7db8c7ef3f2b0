use xcc::samples::toy;
use xcc::{Color, ColoredItem, ItemId, Limit, Matrix, OptionId, Solver, Unique};

#[test]
fn test_choose_next_item() {
    let mut builder = Matrix::builder();
    builder.add_primary_items(&["a", "b", "c", "d"]);
    builder.add_option(1, &["a", "b"]);
    builder.add_option(2, &["a", "c"]);
    builder.add_option(3, &["a", "d"]);
    builder.add_option(4, &["b", "d"]);

    let matrix = builder.build().unwrap();
    let solver = Solver::new(&matrix);
    assert_eq!(solver.count_items(), [3, 2, 1, 2]);
    assert_eq!(
        solver.choose_next_item(),
        Some(ItemId::new(2)),
        "c should be chosen because it has the lowest count"
    );
}

#[test]
fn test_simple_solve() {
    let mut builder = Matrix::builder();
    builder.add_primary_item("a");
    builder.add_primary_item("b");
    builder.add_option(1, &["a"]);
    builder.add_option(2, &["b"]);

    let mut matrix = builder.build().unwrap();
    let solutions = matrix
        .solve_all()
        .into_iter()
        .map(|s| s.meanings(&matrix))
        .collect::<Vec<_>>();
    assert_eq!(solutions, [vec![&1, &2]]);
}

#[test]
fn test_simple_colored() {
    let mut builder = Matrix::builder();
    builder.add_primary_item("a");
    builder.add_primary_item("b");
    builder.add_secondary_item("c");
    builder.add_option(1, &["a", "c:1"]);
    builder.add_option(2, &["b", "c:2"]);
    builder.add_option(3, &["a", "b", "c:3"]);

    let mut matrix = builder.build().unwrap();
    let solutions = matrix
        .solve_all()
        .into_iter()
        .map(|s| s.meanings(&matrix))
        .collect::<Vec<_>>();

    // The only way to get both a and b is to take option 3.  In particular,
    // the solution cannot be [1, 2] because that would c to have two different
    // colors.
    assert_eq!(
        solutions.as_slice(),
        [vec![&3]],
        "Should only have [3] as a solution"
    );
}

fn plain(i: usize) -> ColoredItem {
    ColoredItem::new(ItemId::new(i))
}

fn colored(i: usize, c: usize) -> ColoredItem {
    ColoredItem::with_color(ItemId::new(i), Color::new(c))
}

/// A matrix whose option `k` has the meaning `k`.
fn matrix_of(num_primary: usize, num_secondary: usize, options: &[Vec<ColoredItem>]) -> Matrix<usize> {
    let mut matrix = Matrix::new(num_primary, num_secondary);
    for (k, items) in options.iter().enumerate() {
        assert_eq!(matrix.add_option(k, items), k);
    }
    matrix
}

/// The solutions of a matrix made by `matrix_of`, as lists of option numbers
/// in the order of the search.
fn solve(matrix: &mut Matrix<usize>) -> Vec<Vec<usize>> {
    let solutions = matrix.solve_all();
    solutions
        .iter()
        .map(|s| s.meanings(matrix).into_iter().copied().collect())
        .collect()
}

/// The same, each solution sorted, and the solutions sorted.
fn solution_set(matrix: &mut Matrix<usize>) -> Vec<Vec<usize>> {
    let mut all = solve(matrix);
    for s in all.iter_mut() {
        s.sort();
    }
    all.sort();
    all
}

/// Says, by counting, whether `chosen` covers every primary item exactly once and
/// colors the secondary items consistently.
fn is_solution(matrix: &Matrix<usize>, chosen: &[usize]) -> bool {
    for item in 0..matrix.num_items() {
        let mut uses: Vec<Option<Color>> = Vec::new();
        for &o in chosen {
            for (i, color) in matrix.items_for_option(OptionId::new(o)) {
                if i.index() == item {
                    uses.push(color);
                }
            }
        }
        if item < matrix.num_primary_items() {
            if uses.len() != 1 {
                return false;
            }
        } else if uses.len() > 1 {
            if uses[0].is_none() || uses.iter().any(|c| *c != uses[0]) {
                return false;
            }
        }
    }
    true
}

/// All subsets of the options of `matrix` that solve it, found by trying
/// every subset; each sorted, and the set sorted.
fn brute_force(matrix: &Matrix<usize>) -> Vec<Vec<usize>> {
    let n = matrix.num_options();
    let mut found = Vec::new();
    for mask in 0u32..(1u32 << n) {
        let chosen: Vec<usize> = (0..n).filter(|k| mask & (1 << k) != 0).collect();
        if is_solution(matrix, &chosen) {
            found.push(chosen);
        }
    }
    found.sort();
    found
}

fn table_one() -> Matrix<usize> {
    // Items a..g are 0..6, all primary.
    matrix_of(
        7,
        0,
        &[
            vec![plain(2), plain(4)],
            vec![plain(0), plain(3), plain(6)],
            vec![plain(1), plain(2), plain(5)],
            vec![plain(0), plain(3), plain(5)],
            vec![plain(1), plain(6)],
            vec![plain(3), plain(4), plain(6)],
        ],
    )
}

fn toy_by_hand() -> Matrix<usize> {
    matrix_of(
        3,
        2,
        &[
            vec![plain(0), plain(1), plain(3), colored(4, 0)],
            vec![plain(0), plain(2), colored(3, 0), plain(4)],
            vec![plain(0), colored(3, 1)],
            vec![plain(1), colored(3, 0)],
            vec![plain(2), colored(4, 1)],
        ],
    )
}

#[test]
fn toy_has_one_solution() {
    let mut matrix = toy();
    let solutions = matrix.solve_all();
    assert_eq!(solutions.len(), 1);
    assert_eq!(solutions[0].meanings(&matrix), [&4, &2]);
}

#[test]
fn toy_is_the_matrix_of_its_description() {
    let matrix = toy();
    let by_hand = toy_by_hand();
    assert_eq!(matrix.num_items(), 5);
    assert_eq!(matrix.num_primary_items(), 3);
    assert_eq!(matrix.num_options(), 5);
    for o in 0..5 {
        assert_eq!(
            matrix.items_for_option(OptionId::new(o)),
            by_hand.items_for_option(OptionId::new(o))
        );
        assert_eq!(*matrix.meaning(o), o + 1);
    }
}

#[test]
fn toy_solution_names_the_options_q_x_a_and_p_r_x_a_y() {
    let mut builder = Matrix::builder();
    builder.add_primary_items(&["p", "q", "r"]);
    builder.add_secondary_items(&["x", "y"]);
    builder.add_option("p q x y:A", &["p", "q", "x", "y:A"]);
    builder.add_option("p r x:A y", &["p", "r", "x:A", "y"]);
    builder.add_option("p x:B", &["p", "x:B"]);
    builder.add_option("q x:A", &["q", "x:A"]);
    builder.add_option("r y:B", &["r", "y:B"]);
    let mut matrix = builder.build().unwrap();
    let solutions = matrix.solve_all();
    assert_eq!(solutions.len(), 1);
    let mut payloads: Vec<&str> = solutions[0].meanings(&matrix).into_iter().copied().collect();
    payloads.sort();
    assert_eq!(payloads, ["p r x:A y", "q x:A"]);
}

#[test]
fn table_one_has_the_known_solution() {
    let mut matrix = table_one();
    assert_eq!(solution_set(&mut matrix), [vec![0, 3, 4]]);
}

#[test]
fn solve_all_finds_what_brute_force_finds() {
    let mut cases: Vec<Matrix<usize>> = vec![table_one(), toy_by_hand()];
    // Two ways to cover a and b, and a third through a shared color.
    cases.push(matrix_of(
        2,
        1,
        &[
            vec![plain(0)],
            vec![plain(1)],
            vec![plain(0), plain(1)],
            vec![plain(0), colored(2, 0)],
            vec![plain(1), colored(2, 0)],
            vec![plain(1), colored(2, 1)],
            vec![plain(0), plain(2)],
        ],
    ));
    // An uncolored secondary item can be used once only.
    cases.push(matrix_of(
        3,
        1,
        &[
            vec![plain(0), plain(3)],
            vec![plain(1), plain(3)],
            vec![plain(2), plain(3)],
            vec![plain(0)],
            vec![plain(1)],
            vec![plain(2)],
        ],
    ));
    // No solution: c is in no option.
    cases.push(matrix_of(3, 0, &[vec![plain(0)], vec![plain(1)], vec![plain(0), plain(1)]]));
    for matrix in cases.iter_mut() {
        let expected = brute_force(matrix);
        assert_eq!(solution_set(matrix), expected);
    }
}

#[test]
fn every_solution_covers_each_primary_item_once() {
    let mut matrix = matrix_of(
        4,
        0,
        &[
            vec![plain(0), plain(1)],
            vec![plain(2), plain(3)],
            vec![plain(0), plain(2)],
            vec![plain(1), plain(3)],
            vec![plain(0)],
            vec![plain(1)],
            vec![plain(2)],
            vec![plain(3)],
        ],
    );
    let solutions = solve(&mut matrix);
    assert_eq!(solutions.len(), 7);
    for chosen in &solutions {
        let mut covered = vec![0; 4];
        for &o in chosen {
            for (item, _) in matrix.items_for_option(OptionId::new(o)) {
                covered[item.index()] += 1;
            }
        }
        assert_eq!(covered, [1, 1, 1, 1]);
    }
}

#[test]
fn every_solution_colors_secondary_items_consistently() {
    let mut matrix = matrix_of(
        3,
        2,
        &[
            vec![plain(0), colored(3, 0)],
            vec![plain(0), colored(3, 1)],
            vec![plain(1), colored(3, 0), plain(4)],
            vec![plain(1), colored(3, 1)],
            vec![plain(2), colored(3, 1), plain(4)],
            vec![plain(2), colored(3, 0)],
            vec![plain(2), plain(3)],
        ],
    );
    let solutions = solve(&mut matrix);
    assert!(!solutions.is_empty());
    for chosen in &solutions {
        assert!(is_solution(&matrix, chosen));
    }
    assert_eq!(solution_set(&mut matrix), brute_force(&matrix));
    assert_eq!(solution_set(&mut matrix), [vec![0, 2, 5], vec![1, 3, 4]]);
}

#[test]
fn solutions_come_in_the_order_of_the_search() {
    // a has the options 0 and 1; the search tries the last one first.
    let mut matrix = matrix_of(
        2,
        0,
        &[vec![plain(0)], vec![plain(0)], vec![plain(1)]],
    );
    // b has one option and a has two, so b is chosen first.
    assert_eq!(solve(&mut matrix), [vec![2, 1], vec![2, 0]]);
}

#[test]
fn solve_unique_of_two_identical_options_is_ambiguous() {
    let mut builder = Matrix::builder();
    builder.add_primary_item("x");
    builder.add_primary_item("y");
    builder.add_option("a", &vec!["x", "y"]);
    builder.add_option("b", &vec!["x", "y"]);
    let mut matrix = builder.build().expect("could not build matrix");
    let found = matrix.solve_unique();
    assert!(found.is_ambiguous());
    assert!(!found.is_unique());
    assert_eq!(found.unique(), None);
    match found {
        Unique::Ambiguous(s1, s2) => {
            // The search finds b first and a second, and returns the second first.
            assert_eq!(s1.meanings(&matrix), [&"a"]);
            assert_eq!(s2.meanings(&matrix), [&"b"]);
        }
        _ => panic!("expected two solutions"),
    }
}

#[test]
fn solve_unique_of_one_cover_is_one() {
    let mut matrix = table_one();
    let found = matrix.solve_unique();
    assert!(found.is_unique());
    assert!(!found.is_ambiguous());
    let mut ids: Vec<usize> = found
        .unique()
        .unwrap()
        .meanings(&matrix)
        .into_iter()
        .copied()
        .collect();
    ids.sort();
    assert_eq!(ids, [0, 3, 4]);
}

#[test]
fn solve_unique_of_no_cover_is_no_solution() {
    let mut matrix = matrix_of(2, 0, &[vec![plain(0)]]);
    let found = matrix.solve_unique();
    assert_eq!(found, Unique::NoSolution);
    assert!(!found.is_unique());
    assert!(!found.is_ambiguous());
}

#[test]
fn unused_primary_item_leaves_no_solution() {
    // Made without the builder, so nothing asks that c be used.
    let mut matrix = matrix_of(3, 0, &[vec![plain(0)], vec![plain(1)], vec![plain(0), plain(1)]]);
    assert!(matrix.solve_all().is_empty());
    assert!(matrix.solve_once().is_none());
}

#[test]
fn matrix_without_primary_items_has_the_empty_solution() {
    let mut matrix = matrix_of(0, 2, &[vec![plain(0)], vec![plain(1)]]);
    assert_eq!(solve(&mut matrix), [Vec::<usize>::new()]);
}

#[test]
fn solve_once_returns_the_first_solution() {
    let mut matrix = matrix_of(
        2,
        0,
        &[vec![plain(0)], vec![plain(0)], vec![plain(1)]],
    );
    let all = solve(&mut matrix);
    let once = matrix.solve_once().unwrap();
    let ids: Vec<usize> = once.meanings(&matrix).into_iter().copied().collect();
    assert_eq!(ids, all[0]);
    assert_eq!(ids, [2, 1]);
}

#[test]
fn solve_stops_at_the_limit() {
    let matrix = matrix_of(
        2,
        0,
        &[
            vec![plain(0)],
            vec![plain(0)],
            vec![plain(0)],
            vec![plain(1)],
        ],
    );
    let ids = |limit: Limit| -> Vec<Vec<usize>> {
        let mut solver = Solver::new(&matrix);
        solver
            .solve(limit)
            .iter()
            .map(|s| s.meanings(&matrix).into_iter().copied().collect())
            .collect()
    };
    let all = ids(Limit::All);
    assert_eq!(all, [vec![3, 2], vec![3, 1], vec![3, 0]]);
    assert_eq!(ids(Limit::Max(1)), all[..1]);
    assert_eq!(ids(Limit::Max(2)), all[..2]);
    assert_eq!(ids(Limit::Max(3)), all[..3]);
    assert_eq!(ids(Limit::Max(4)), all);
    // The limit is looked at after a solution is found.
    assert_eq!(ids(Limit::Max(0)), all[..1]);
}

#[test]
fn limit_reached() {
    assert!(Limit::Max(2).reached(2));
    assert!(Limit::Max(2).reached(3));
    assert!(!Limit::Max(2).reached(1));
    assert!(Limit::Max(0).reached(0));
    assert!(!Limit::All.reached(0));
    assert!(!Limit::All.reached(usize::MAX));
}

#[test]
fn new_solver_has_everything_available() {
    let matrix = table_one();
    let solver = Solver::new(&matrix);
    let state = solver.save_state();
    assert_eq!(state.available_items(), [0, 1, 2, 3, 4, 5, 6]);
    assert_eq!(state.available_options(), [0, 1, 2, 3, 4, 5]);
    assert!(state.known_correct().is_empty());
    assert_eq!(solver.count_items(), [2, 2, 2, 3, 2, 2, 3]);
    assert_eq!(solver.choose_next_item(), Some(ItemId::new(0)));
}

#[test]
fn choose_next_item_takes_the_lowest_of_equal_counts() {
    let matrix = matrix_of(
        3,
        1,
        &[
            vec![plain(0), plain(1)],
            vec![plain(1), plain(2)],
            vec![plain(0), plain(2)],
            vec![plain(3)],
        ],
    );
    let solver = Solver::new(&matrix);
    assert_eq!(solver.count_items(), [2, 2, 2, 1]);
    // The secondary item has the lowest count, but only primary items count.
    assert_eq!(solver.choose_next_item(), Some(ItemId::new(0)));
}

#[test]
fn choose_next_item_is_none_when_no_primary_item_is_left() {
    let matrix = matrix_of(1, 1, &[vec![plain(0), plain(1)], vec![plain(1)]]);
    let mut solver = Solver::new(&matrix);
    solver.cover_item_and_its_options(ItemId::new(0));
    assert_eq!(solver.choose_next_item(), None);
    let empty: Matrix<usize> = matrix_of(0, 0, &[]);
    assert_eq!(Solver::new(&empty).choose_next_item(), None);
}

#[test]
fn choose_next_item_gives_the_same_answer_each_time() {
    let matrix = table_one();
    let solver = Solver::new(&matrix);
    let first = solver.choose_next_item();
    for _ in 0..5 {
        assert_eq!(solver.choose_next_item(), first);
    }
    assert_eq!(Solver::new(&matrix).choose_next_item(), first);
}

#[test]
fn cover_hides_the_item_and_its_options() {
    let matrix = table_one();
    let mut solver = Solver::new(&matrix);
    let hidden = solver.cover_item_and_its_options(ItemId::new(3));
    assert_eq!(hidden, [OptionId::new(1), OptionId::new(3), OptionId::new(5)]);
    let state = solver.save_state();
    assert_eq!(state.available_items(), [0, 1, 2, 4, 5, 6]);
    assert_eq!(state.available_options(), [0, 2, 4]);
    // Covering again finds nothing left to hide.
    assert!(solver.cover_item_and_its_options(ItemId::new(3)).is_empty());
    assert_eq!(solver.count_items(), [0, 2, 2, 0, 1, 1, 1]);
}

#[test]
fn purify_hides_the_options_of_another_color() {
    let matrix = matrix_of(
        2,
        1,
        &[
            vec![plain(0), colored(2, 5)],
            vec![plain(1), colored(2, 6)],
            vec![plain(1), colored(2, 5)],
            vec![plain(1), plain(2)],
            vec![plain(1)],
        ],
    );
    let mut solver = Solver::new(&matrix);
    solver.purify(ItemId::new(2), Color::new(5));
    let state = solver.save_state();
    assert_eq!(state.available_options(), [0, 2, 4]);
    assert_eq!(state.available_items(), [0, 1, 2]);
    assert_eq!(state.known_correct().len(), 1);
    assert_eq!(state.known_correct().get(&2), Some(&Color::new(5)));
}

#[test]
fn purify_with_a_color_that_no_option_gives_fixes_nothing() {
    let matrix = matrix_of(1, 1, &[vec![plain(0), colored(1, 5)], vec![plain(0)]]);
    let mut solver = Solver::new(&matrix);
    solver.purify(ItemId::new(1), Color::new(6));
    let state = solver.save_state();
    assert_eq!(state.available_options(), [1]);
    assert!(state.known_correct().is_empty());
}

#[test]
fn commit_covers_plain_items_and_purifies_colored_ones() {
    let mut matrix = toy_by_hand();
    assert_eq!(solve(&mut matrix), [vec![3, 1]]);
    let mut solver = Solver::new(&matrix);
    // Commit to `q x:A`, as the search does after covering q.
    let hidden = solver.cover_item_and_its_options(ItemId::new(1));
    assert_eq!(hidden, [OptionId::new(0), OptionId::new(3)]);
    solver.commit(OptionId::new(3));
    let state = solver.save_state();
    // q and x are gone; `p x:B` clashes with x:A.
    assert_eq!(state.available_items(), [0, 2, 4]);
    assert_eq!(state.available_options(), [1, 4]);
    assert_eq!(state.known_correct().get(&3), Some(&Color::new(0)));
    assert_eq!(state.known_correct().len(), 1);
    // Then `p r x:A y`: x has its color already, y is covered.
    solver.cover_item_and_its_options(ItemId::new(0));
    solver.commit(OptionId::new(1));
    let state = solver.save_state();
    assert!(state.available_items().is_empty());
    assert!(state.available_options().is_empty());
    assert_eq!(solver.choose_next_item(), None);
}

#[test]
fn restore_brings_a_saved_state_back() {
    let matrix = table_one();
    let mut solver = Solver::new(&matrix);
    let start = solver.save_state();
    solver.cover_item_and_its_options(ItemId::new(0));
    solver.commit(OptionId::new(1));
    let later = solver.save_state();
    assert_ne!(later.available_items(), start.available_items());
    let copy = start.clone();
    solver.restore(start);
    let again = solver.save_state();
    assert_eq!(again.available_items(), copy.available_items());
    assert_eq!(again.available_options(), copy.available_options());
    assert_eq!(again.available_items(), [0, 1, 2, 3, 4, 5, 6]);
    // The copy taken before is not touched by what the solver did since.
    assert_eq!(later.available_items(), [1, 2, 4, 5]);
}

#[test]
fn a_used_solver_goes_on_from_the_state_it_was_left_in() {
    let matrix = matrix_of(
        2,
        0,
        &[vec![plain(0)], vec![plain(0)], vec![plain(1)]],
    );
    let mut solver = Solver::new(&matrix);
    let first = solver.solve(Limit::Max(1));
    assert_eq!(first.len(), 1);
    assert_eq!(first[0].meanings(&matrix), [&2, &1]);
    // The search stopped at a node where no primary item is available. A
    // search from there finds that nothing is left to choose.
    assert_eq!(solver.choose_next_item(), None);
    let again = solver.solve_all();
    assert_eq!(again.len(), 1);
    assert!(again[0].meanings(&matrix).is_empty());
    // A new solver starts from the beginning.
    assert_eq!(Solver::new(&matrix).solve_all().len(), 2);
}

#[test]
fn four_queens_have_two_solutions_and_eight_have_ninety_two() {
    fn queens(n: usize) -> Matrix<usize> {
        // Rows and columns are primary; the diagonals are secondary, and
        // without a color each holds one queen at most.
        let diagonals = 2 * n - 1;
        let mut matrix = Matrix::new(2 * n, 2 * diagonals);
        for r in 0..n {
            for c in 0..n {
                let items = [
                    ColoredItem::new(ItemId::new(r)),
                    ColoredItem::new(ItemId::new(n + c)),
                    ColoredItem::new(ItemId::new(2 * n + r + c)),
                    ColoredItem::new(ItemId::new(2 * n + diagonals + n - 1 + r - c)),
                ];
                matrix.add_option(r * n + c, &items);
            }
        }
        matrix
    }
    let mut four = queens(4);
    let solutions = solution_set(&mut four);
    assert_eq!(solutions, [vec![1, 7, 8, 14], vec![2, 4, 11, 13]]);
    assert_eq!(queens(1).solve_all().len(), 1);
    assert_eq!(queens(2).solve_all().len(), 0);
    assert_eq!(queens(3).solve_all().len(), 0);
    assert_eq!(queens(5).solve_all().len(), 10);
    assert_eq!(queens(6).solve_all().len(), 4);
    let mut eight = queens(8);
    let all = solve(&mut eight);
    assert_eq!(all.len(), 92);
    for chosen in &all {
        assert!(is_solution(&eight, chosen));
    }
    let mut distinct = solution_set(&mut eight);
    distinct.dedup();
    assert_eq!(distinct.len(), 92);
}

#[test]
fn unique_map_keeps_the_variant() {
    let none: Unique<i32> = Unique::NoSolution;
    assert_eq!(none.map(|x| x + 1), Unique::NoSolution);
    assert_eq!(Unique::One(3).map(|x| x * 2), Unique::One(6));
    assert_eq!(Unique::Ambiguous(3, 4).map(|x| x * 2), Unique::Ambiguous(6, 8));
    assert_eq!(Unique::One("ab").map(|s| s.len()), Unique::One(2));
}

#[test]
fn unique_accessors() {
    let none: Unique<i32> = Unique::NoSolution;
    assert_eq!(none.unique(), None);
    assert_eq!(Unique::One(7).unique(), Some(&7));
    assert_eq!(Unique::Ambiguous(7, 8).unique(), None);
    assert!(Unique::One(7).is_unique());
    assert!(!Unique::One(7).is_ambiguous());
    assert!(Unique::Ambiguous(7, 8).is_ambiguous());
    assert!(!Unique::Ambiguous(7, 8).is_unique());
}

#[test]
fn ids_and_colored_items() {
    assert_eq!(ItemId::new(42).index(), 42);
    assert_eq!(OptionId::new(7).index(), 7);
    assert_eq!(Color::new(3), Color::new(3));
    assert_ne!(Color::new(3), Color::new(4));
    assert!(ItemId::new(1) < ItemId::new(2));
    let item = ColoredItem::new(ItemId::new(42));
    assert_eq!(item.item(), ItemId::new(42));
    assert_eq!(item.color(), None);
    let item = ColoredItem::with_color(ItemId::new(42), Color::new(100));
    assert_eq!(item.item(), ItemId::new(42));
    assert_eq!(item.color(), Some(Color::new(100)));
}

#[test]
fn a_colored_primary_item_is_still_covered_and_colors_still_agree() {
    // Made without the builder: p (item 0) is primary and colored.
    let mut matrix = matrix_of(
        3,
        1,
        &[
            vec![colored(0, 0), plain(1), colored(3, 5)],
            vec![colored(0, 0), plain(2), colored(3, 5)],
            vec![plain(1), colored(3, 6)],
        ],
    );
    let solutions = solve(&mut matrix);
    assert!(!solutions.is_empty());
    for chosen in &solutions {
        for item in 0..matrix.num_items() {
            let uses: Vec<Option<Color>> = chosen
                .iter()
                .flat_map(|&o| matrix.items_for_option(OptionId::new(o)))
                .filter(|(i, _)| i.index() == item)
                .map(|(_, c)| c)
                .collect();
            if item < matrix.num_primary_items() {
                assert!(!uses.is_empty());
            }
            if uses.len() > 1 {
                assert!(uses[0].is_some());
                assert!(uses.iter().all(|c| *c == uses[0]));
            }
        }
    }
}

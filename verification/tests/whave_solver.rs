use mosh_whave::whave::generation::Generation;
use mosh_whave::whave::grid::Grid;
use mosh_whave::whave::position::Position;
use mosh_whave::whave::sampler::Sampler;
use mosh_whave::whave::solver::Solver;
use mosh_whave::whave::Element;

#[derive(Debug, Copy, Clone, Eq, PartialEq, Hash)]
enum Color {
    Red,
    Green,
    Blue,
}

// red keeps away from red; green and blue have no constraint
#[derive(Debug, Copy, Clone, Eq, PartialEq, Hash)]
enum Lone {
    Red,
    Green,
    Blue,
}

impl Element for Lone {
    fn full_set() -> Vec<Self> {
        vec![Self::Red, Self::Green, Self::Blue]
    }

    fn satisfies(value: &Self, sampler: &Sampler<Self>) -> bool {
        match value {
            Self::Red => sampler.test_neighbors(|possibility| *possibility != Self::Red).iter().all(|v| *v),
            Self::Green => true,
            Self::Blue => true,
        }
    }
}

impl Element for Color {
    fn full_set() -> Vec<Self> {
        vec![Self::Red, Self::Green, Self::Blue]
    }

    fn satisfies(value: &Self, sampler: &Sampler<Self>) -> bool {
        match value {
            Self::Red => sampler.test_neighbors(|possibility| *possibility != Self::Red).iter().all(|v| *v),
            Self::Green => sampler.test_neighbors(|possibility| *possibility != Self::Blue).iter().all(|v| *v),
            Self::Blue => sampler.test_neighbors(|possibility| *possibility == Self::Blue).iter().any(|v| *v),
        }
    }
}

#[test]
fn generation_test_solver() {
    let mut init_values = Grid::new_with_fill(None, Position::new(3, 3, 1));
    init_values.set(Position::new(0, 0, 0), Some(Lone::Red));
    init_values.set(Position::new(1, 1, 0), Some(Lone::Green));
    init_values.set(Position::new(2, 2, 0), Some(Lone::Blue));

    let solver_gen = Generation::new(init_values);

    // make sure that the domain is zero for all set values
    assert_eq!(solver_gen.domain(Position::new(0, 0, 0)).unwrap().len(), 0);
    assert_eq!(solver_gen.domain(Position::new(1, 1, 0)).unwrap().len(), 0);
    assert_eq!(solver_gen.domain(Position::new(2, 2, 0)).unwrap().len(), 0);

    // make sure the domains of the neighbors of the red value do not include
    // red
    let neighbors = Position::new(0, 0, 0).neighbors(&solver_gen.domains().size());
    for neighbor in neighbors {
        assert!(solver_gen.domain(neighbor).unwrap().iter().all(|color| *color != Lone::Red));
    }
}

#[test]
fn lib_test_solver() {
    let mut init_values = Grid::new_with_fill(None, Position::new(3, 3, 1));
    init_values.set(Position::new(0, 0, 0), Some(Color::Red));
    init_values.set(Position::new(1, 0, 0), Some(Color::Green));
    init_values.set(Position::new(2, 2, 0), Some(Color::Blue));

    let mut solver = Solver::new(init_values);
    let solution = solver.naive_solve().unwrap();

    assert_eq!(solution.get(Position::new(0, 0, 0)), Some(&Color::Red));
    assert_eq!(solution.get(Position::new(1, 0, 0)), Some(&Color::Green));
    assert_eq!(solution.get(Position::new(2, 2, 0)), Some(&Color::Blue));
}

#[test]
fn domains_of_unset_cells_start_full_where_unconstrained() {
    let init_values: Grid<Option<Lone>> = Grid::new_with_fill(None, Position::new(2, 1, 1));
    let generation = Generation::new(init_values);
    // with no red anywhere, every value fits every cell
    let mut domain = generation.domain(Position::new(0, 0, 0)).unwrap();
    domain.sort_by_key(|c| *c as u8);
    assert_eq!(domain, vec![Lone::Red, Lone::Green, Lone::Blue]);
    assert!(generation.domain(Position::new(2, 0, 0)).is_none());
    let ids = generation.domains().get(Position::new(1, 0, 0)).unwrap();
    assert_eq!(ids.count(), 3);
    let mut listed = ids.identifiers();
    listed.sort();
    assert_eq!(listed, vec![0, 1, 2]);
    assert!(!generation.is_solved());
    assert!(!generation.is_unsolvable());
}

#[test]
fn collapse_sets_cells_with_one_value_left() {
    // a green cell next to a cell that green's neighbor rule leaves only
    // one value for: red and green are kept out by the blue-only rule below
    #[derive(Debug, Copy, Clone, Eq, PartialEq)]
    enum Two {
        A,
        B,
    }
    impl Element for Two {
        fn full_set() -> Vec<Self> {
            vec![Self::A, Self::B]
        }

        fn satisfies(value: &Self, sampler: &Sampler<Self>) -> bool {
            // no two equal neighbors
            let v = *value;
            sampler.test_neighbors(|p| *p != v).iter().all(|b| *b)
        }
    }
    let mut init_values = Grid::new_with_fill(None, Position::new(2, 1, 1));
    init_values.set(Position::new(0, 0, 0), Some(Two::A));
    let mut generation = Generation::new(init_values);
    assert_eq!(generation.domain(Position::new(1, 0, 0)).unwrap(), vec![Two::B]);
    let diff = generation.collapse();
    assert_eq!(diff.get(Position::new(1, 0, 0)), Some(&Some(Two::B)));
    assert_eq!(diff.get(Position::new(0, 0, 0)), Some(&None));
    assert!(generation.is_solved());
    // nothing more to collapse
    let diff = generation.collapse();
    assert!(diff.iter_values().iter().all(|v| v.is_none()));
}

#[test]
fn guess_sets_one_cell_of_the_smallest_domain() {
    let init_values: Grid<Option<Lone>> = Grid::new_with_fill(None, Position::new(3, 1, 1));
    let mut generation = Generation::new(init_values);
    let diff = generation.guess();
    let set: Vec<usize> = diff
        .iter_values()
        .iter()
        .enumerate()
        .filter(|(_, v)| v.is_some())
        .map(|(i, _)| i)
        .collect();
    // every domain has all three values: the first cell is picked
    assert_eq!(set, vec![0]);
    assert!(generation.values().get(Position::new(0, 0, 0)).unwrap().is_some());
    assert!(generation.values().get(Position::new(1, 0, 0)).unwrap().is_none());
}

#[test]
fn a_cell_with_no_value_left_is_unsolvable() {
    // every value refuses every neighbor
    #[derive(Debug, Copy, Clone, Eq, PartialEq)]
    enum Alone {
        Only,
    }
    impl Element for Alone {
        fn full_set() -> Vec<Self> {
            vec![Self::Only]
        }

        fn satisfies(_value: &Self, sampler: &Sampler<Self>) -> bool {
            sampler.test_neighbors(|_| false).iter().all(|b| *b)
        }
    }
    let mut init_values = Grid::new_with_fill(None, Position::new(2, 1, 1));
    init_values.set(Position::new(0, 0, 0), Some(Alone::Only));
    let generation = Generation::new(init_values.clone());
    assert!(generation.is_unsolvable());
    let mut solver = Solver::new(init_values);
    assert!(solver.naive_solve().is_none());
}

#[test]
fn sampler_tests_out_of_bounds_as_false() {
    #[derive(Debug, Copy, Clone, Eq, PartialEq)]
    enum Edge {
        Here,
    }
    impl Element for Edge {
        fn full_set() -> Vec<Self> {
            vec![Self::Here]
        }

        fn satisfies(_value: &Self, sampler: &Sampler<Self>) -> bool {
            // outside the grid every test fails; inside, any value passes
            !sampler.test_relative(-1, 0, 0, |_| true) && sampler.test_absolute(sampler.here, |_| true)
        }
    }
    let init_values: Grid<Option<Edge>> = Grid::new_with_fill(None, Position::new(2, 1, 1));
    let generation = Generation::new(init_values);
    assert_eq!(generation.domain(Position::new(0, 0, 0)).unwrap().len(), 1);
    assert_eq!(generation.domain(Position::new(1, 0, 0)).unwrap().len(), 0);
}

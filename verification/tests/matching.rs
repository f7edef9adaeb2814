use dix::matching::{levenshtein, match_version_amounts, minimum_cost_ordered_matching, Pairing};
use dix::model::VersionAmount;
use dix::version::{Version, VersionComponent, VersionPiece};

fn version_amount(version: &str) -> VersionAmount {
    VersionAmount::new(Version::new(version), 1)
}

fn chars(s: &str) -> Vec<char> {
    s.chars().collect()
}

fn matching_cost(costs: &[Vec<usize>], matching: &[(usize, usize)]) -> usize {
    matching.iter().map(|&(row, column)| costs[row][column]).sum()
}

fn ordered_matching(costs: &[Vec<usize>]) -> Vec<(usize, usize)> {
    let rows = costs.len();
    let columns = costs.first().map_or(0, Vec::len);
    minimum_cost_ordered_matching(rows, columns, &costs.to_vec())
}

fn brute_force_minimum_cost(costs: &[Vec<usize>], row: usize, next_column: usize, current_cost: usize, minimum_cost: &mut usize) {
    if row == costs.len() {
        *minimum_cost = std::cmp::min(*minimum_cost, current_cost);
        return;
    }
    for column in next_column..costs[row].len() {
        brute_force_minimum_cost(costs, row + 1, column + 1, current_cost + costs[row][column], minimum_cost);
    }
}

fn components(v: &Version) -> Vec<VersionComponent<'_>> {
    v.iter().into_vec().into_iter().filter_map(VersionPiece::component).collect()
}

fn basic_component_distance() -> usize {
    let from = Version::from("foo-123.0-man-pages".to_owned());
    let to = Version::from("foo-123.4.12-man-pages".to_owned());
    levenshtein(&components(&from), &components(&to))
}

#[test]
fn matching_basic_component_edit_dist() {
    assert_eq!(basic_component_distance(), 2);
}

#[test]
fn diff_basic_component_edit_dist() {
    let from = Version::from("foo-123.0-man-pages".to_owned());
    let to = Version::from("foo-123.4.12-man-pages".to_owned());
    let dist = levenshtein(&components(&from), &components(&to));
    assert_eq!(dist, 2);
}

fn distance_cases() {
    assert_eq!(levenshtein(&chars("kitten"), &chars("sitting")), 3);
    assert_eq!(levenshtein(&chars(""), &chars("hello")), 5);
    assert_eq!(levenshtein(&chars("abcd"), &chars("dcba")), 4);
    assert_eq!(levenshtein(&chars("12345"), &chars("12345")), 0);
    assert_eq!(levenshtein(&chars("distance"), &chars("difference")), 5);
}

#[test]
fn matching_levenshtein_distance_tests() {
    distance_cases();
}

#[test]
fn diff_levenshtein_distance_tests() {
    distance_cases();
}

fn edge_cases() {
    assert_eq!(levenshtein::<char>(&[], &[]), 0);
    assert_eq!(levenshtein(&['a'], &[]), 1);
    assert_eq!(levenshtein(&[], &['a']), 1);
    assert_eq!(levenshtein(&['a'], &['b']), 1);
    assert_eq!(levenshtein(&['a'], &['a']), 0);
    assert_eq!(levenshtein(&chars("ab"), &chars("ba")), 2);
    assert_eq!(levenshtein(&chars("ABC"), &chars("abc")), 3);

    let long = "a".repeat(1000);
    assert_eq!(levenshtein(&chars(&long), &chars(&long)), 0);

    let long_a = "a".repeat(1000);
    let long_b = "b".repeat(1000);
    assert_eq!(levenshtein(&chars(&long_a), &chars(&long_b)), 1000);

    assert_eq!(levenshtein(&chars("こんにちは"), &chars("こんばんは")), 2);
    assert_eq!(levenshtein(&chars("abc"), &chars("abcabc")), 3);
    assert_eq!(levenshtein(&[1, 2, 3], &[1, 2, 3, 4, 5]), 2);
}

#[test]
fn matching_levenshtein_edge_cases() {
    edge_cases();
}

#[test]
fn diff_levenshtein_edge_cases() {
    edge_cases();
}

#[test]
fn levenshtein_is_symmetric_on_examples() {
    let words = ["", "a", "kitten", "sitting", "flaw", "lawn", "abcabc", "cab"];
    for a in words {
        for b in words {
            assert_eq!(levenshtein(&chars(a), &chars(b)), levenshtein(&chars(b), &chars(a)));
        }
    }
}

#[test]
fn ordered_matching_preserves_order_when_crossing_is_cheaper() {
    let costs = vec![vec![4, 1, 3], vec![2, 0, 5], vec![3, 2, 2]];

    assert_eq!(ordered_matching(&costs), vec![(0, 0), (1, 1), (2, 2)]);
}

#[test]
fn ordered_matching_supports_wide_matrices() {
    let costs = vec![vec![10, 1, 9], vec![8, 7, 2]];

    assert_eq!(ordered_matching(&costs), vec![(0, 1), (1, 2)]);
    assert!(ordered_matching(&[]).is_empty());
}

#[test]
fn ordered_matching_transposes_tall_matrices() {
    let costs = vec![vec![10, 8], vec![1, 7], vec![9, 2]];

    assert_eq!(ordered_matching(&costs), vec![(1, 0), (2, 1)]);
}

#[test]
fn ordered_matching_matches_exhaustive_search() {
    for encoded_costs in 0..3_usize.pow(6) {
        let mut encoded_costs = encoded_costs;
        let mut costs = vec![vec![0; 3]; 2];
        for row in &mut costs {
            for cost in row {
                *cost = encoded_costs % 3;
                encoded_costs /= 3;
            }
        }

        let matching = ordered_matching(&costs);
        let mut exhaustive_cost = usize::MAX;
        brute_force_minimum_cost(&costs, 0, 0, 0, &mut exhaustive_cost);

        assert_eq!(matching_cost(&costs, &matching), exhaustive_cost);

        let transposed = (0..3).map(|column| costs.iter().map(|row| row[column]).collect::<Vec<_>>()).collect::<Vec<_>>();
        let transposed_matching = ordered_matching(&transposed);
        assert_eq!(matching_cost(&transposed, &transposed_matching), exhaustive_cost);
    }
}

#[test]
fn match_version_amounts_matches_similar_versions() {
    let left = [version_amount("6.16.0"), version_amount("5.116.0")];
    let right = [version_amount("6.17.0"), version_amount("5.116.0-bin")];

    let matched = match_version_amounts(&left, &right);

    assert_eq!(matched.len(), 2);
    assert!(matched.iter().all(Pairing::has_left));
    assert!(matched.iter().all(Pairing::has_right));
}

#[test]
fn match_version_amounts_empty() {
    let empty: &[VersionAmount] = &[];
    let versions = [version_amount("1.0.0")];

    let result = match_version_amounts(empty, &versions);
    assert_eq!(result.len(), 1);
    assert!(matches!(result[0], Pairing::Right(_)));

    let result = match_version_amounts(&versions, empty);
    assert_eq!(result.len(), 1);
    assert!(matches!(result[0], Pairing::Left(_)));

    let result = match_version_amounts(empty, empty);
    assert!(result.is_empty());
}

#[test]
fn match_version_amounts_exact_matches() {
    let a = [version_amount("1.0.0"), version_amount("2.0.0")];
    let b = [version_amount("1.0.0"), version_amount("2.0.0")];

    let result = match_version_amounts(&a, &b);
    let both_count = result.iter().filter(|r| matches!(r, Pairing::Both(_, _))).count();

    assert_eq!(both_count, 2);
}

#[test]
fn match_version_amounts_unequal_sizes() {
    let a = [version_amount("1.0.0"), version_amount("2.0.0"), version_amount("3.0.0")];
    let b = [version_amount("1.0.0")];
    assert_eq!(match_version_amounts(&a, &b).len(), 3);

    let a = [version_amount("1.0.0")];
    let b = [version_amount("1.0.0"), version_amount("2.0.0"), version_amount("3.0.0")];
    assert_eq!(match_version_amounts(&a, &b).len(), 3);
}

#[test]
fn match_version_amounts_prefers_exact_matches() {
    let a = [version_amount("1.0.0"), version_amount("2.0.0")];
    let b = [version_amount("1.0.1"), version_amount("2.0.0")];

    let result = match_version_amounts(&a, &b);

    assert!(result.iter().any(|r| {
        matches!(r, Pairing::Both(left, right) if left.version.name == "2.0.0" && right.version.name == "2.0.0")
    }));
}

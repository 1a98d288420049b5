use advent::year_2025::day8::{
    compute_distances, distance_squared, magnitude, make_n_connections, points_from_records, product_of_largest,
    product_of_last, read_input, solution_a, solution_a_example, solution_b, ClusterError, Xyz,
};
use std::collections::HashSet;

const EXAMPLE: &str = "162,817,812
57,618,57
906,360,560
592,479,940
352,342,300
466,668,158
542,29,236
431,825,988
739,650,466
52,470,668
216,146,977
819,987,18
117,168,530
805,96,715
346,949,466
970,615,88
941,993,340
862,61,35
984,92,344
425,690,689
";

fn lines_of(text: &str) -> Vec<String> {
    text.lines().map(|l| l.to_string()).collect()
}

fn square() -> Vec<Xyz> {
    vec![Xyz::new(0, 0, 0), Xyz::new(1, 0, 0), Xyz::new(0, 5, 0), Xyz::new(1, 5, 0)]
}

fn set_of(members: &[usize]) -> HashSet<usize> {
    members.iter().copied().collect()
}

#[test]
fn day8_test_example() {
    assert_eq!(solution_a_example(&lines_of(EXAMPLE)), Ok(40));
}

#[test]
fn day8_test_example_b() {
    assert_eq!(solution_b(&lines_of(EXAMPLE)), Ok(25272));
}

#[test]
fn example_with_a_thousand_connections_is_one_cluster() {
    assert_eq!(solution_a(&lines_of(EXAMPLE)), Ok(20));
}

#[test]
fn read_input_reads_one_point_per_line() {
    let points = read_input(&lines_of("1,2,3\nno point here\n  40,50,60 and more\n")).unwrap();
    assert_eq!(points, vec![Xyz::new(1, 2, 3), Xyz::new(40, 50, 60)]);
}

#[test]
fn read_input_rejects_a_number_too_large() {
    assert_eq!(read_input(&lines_of("1,2,9223372036854775808")), None);
    assert_eq!(
        read_input(&lines_of("1,2,9223372036854775807")),
        Some(vec![Xyz::new(1, 2, 9223372036854775807)])
    );
}

#[test]
fn unreadable_points_are_invalid_input() {
    let lines = lines_of("1,2,99999999999999999999");
    assert_eq!(solution_a(&lines), Err(ClusterError::InvalidInput));
    assert_eq!(solution_a_example(&lines), Err(ClusterError::InvalidInput));
    assert_eq!(solution_b(&lines), Err(ClusterError::InvalidInput));
}

#[test]
fn points_from_records_wants_three_numbers() {
    let good = vec![vec!["7,8,9".to_string(), "7".to_string(), "8".to_string(), "9".to_string()]];
    assert_eq!(points_from_records(&good), Some(vec![Xyz::new(7, 8, 9)]));
    let short = vec![vec!["7,8".to_string(), "7".to_string(), "8".to_string()]];
    assert_eq!(points_from_records(&short), None);
    let signed = vec![vec!["7,8,-9".to_string(), "7".to_string(), "8".to_string(), "-9".to_string()]];
    assert_eq!(points_from_records(&signed), None);
    let empty: Vec<Vec<String>> = Vec::new();
    assert_eq!(points_from_records(&empty), Some(Vec::new()));
}

#[test]
fn magnitude_is_the_squared_length() {
    assert_eq!(magnitude(Xyz::new(3, 4, 0)), Ok(25));
    assert_eq!(magnitude(Xyz::new(-2, -4, -6)), Ok(56));
    assert_eq!(magnitude(Xyz::new(0, 0, 0)), Ok(0));
    assert_eq!(magnitude(Xyz::new(3037000499, 0, 0)), Ok(9223372030926249001));
    assert_eq!(magnitude(Xyz::new(3037000500, 0, 0)), Err(ClusterError::Overflow));
    assert_eq!(magnitude(Xyz::new(i64::MIN, 1, 1)), Err(ClusterError::Overflow));
    assert_eq!(magnitude(Xyz::new(2147483648, 2147483648, 0)), Err(ClusterError::Overflow));
    assert_eq!(magnitude(Xyz::new(2147483648, 2147483647, 0)), Ok(9223372032559808513));
}

#[test]
fn points_are_subtracted() {
    assert_eq!(Xyz::new(1, 2, 3).minus(Xyz::new(4, 6, 3)), Some(Xyz::new(-3, -4, 0)));
    assert_eq!(Xyz::new(i64::MAX, 0, 0).minus(Xyz::new(-1, 0, 0)), None);
    assert_eq!(Xyz::new(0, i64::MIN, 0).minus(Xyz::new(0, 1, 0)), None);
    assert_eq!(Xyz::new(0, 0, -1).minus(Xyz::new(0, 0, i64::MAX)), Some(Xyz::new(0, 0, i64::MIN)));
}

#[test]
fn distance_is_squared() {
    assert_eq!(distance_squared(Xyz::new(1, 2, 3), Xyz::new(4, 6, 3)), Ok(25));
    assert_eq!(distance_squared(Xyz::new(-1, -2, -3), Xyz::new(1, 2, 3)), Ok(56));
    assert_eq!(distance_squared(Xyz::new(7, 7, 7), Xyz::new(7, 7, 7)), Ok(0));
    assert_eq!(
        distance_squared(Xyz::new(i64::MIN, 0, 0), Xyz::new(i64::MAX, 0, 0)),
        Err(ClusterError::Overflow)
    );
    assert_eq!(
        distance_squared(Xyz::new(3037000500, 5, 5), Xyz::new(0, 5, 5)),
        Err(ClusterError::Overflow)
    );
    assert_eq!(
        distance_squared(Xyz::new(-1, 5, 5), Xyz::new(3037000498, 5, 5)),
        Ok(9223372030926249001)
    );
}

#[test]
fn distances_are_sorted_by_cost_then_pair() {
    let table = compute_distances(&square()).unwrap();
    assert_eq!(
        table,
        vec![(0, 1, 1), (2, 3, 1), (0, 2, 25), (1, 3, 25), (0, 3, 26), (1, 2, 26)]
    );
}

#[test]
fn distances_of_few_points_are_empty() {
    assert_eq!(compute_distances(&[]), Ok(Vec::new()));
    assert_eq!(compute_distances(&[Xyz::new(3, 4, 5)]), Ok(Vec::new()));
}

#[test]
fn distances_report_overflow() {
    let far = vec![Xyz::new(0, 0, 0), Xyz::new(1, 1, 1), Xyz::new(4000000000, 0, 0)];
    assert_eq!(compute_distances(&far), Err(ClusterError::Overflow));
    assert_eq!(product_of_largest(&far, 3), Err(ClusterError::Overflow));
    assert_eq!(product_of_last(&far, 3), Err(ClusterError::Overflow));
}

#[test]
fn budget_of_one_joins_the_closest_pair() {
    let points = square();
    let table = compute_distances(&points).unwrap();
    let (clusters, last) = make_n_connections(&points, &table, 1).unwrap();
    assert_eq!(clusters, vec![set_of(&[0, 1])]);
    assert_eq!(last, (0, 1));
}

#[test]
fn unbounded_budget_leaves_two_pairs() {
    let points = square();
    let table = compute_distances(&points).unwrap();
    let (clusters, last) = make_n_connections(&points, &table, usize::MAX).unwrap();
    assert_eq!(clusters, vec![set_of(&[0, 1]), set_of(&[2, 3])]);
    let sizes: Vec<usize> = clusters.iter().map(|c| c.len()).collect();
    assert_eq!(sizes, vec![2, 2]);
    assert_eq!(last, (2, 3));
}

#[test]
fn budget_of_zero_makes_no_cluster() {
    let points = square();
    let table = compute_distances(&points).unwrap();
    let (clusters, last) = make_n_connections(&points, &table, 0).unwrap();
    assert!(clusters.is_empty());
    assert_eq!(last, (0, 0));
}

#[test]
fn single_point_makes_no_cluster() {
    let points = vec![Xyz::new(9, 9, 9)];
    let table = compute_distances(&points).unwrap();
    assert!(table.is_empty());
    for budget in [0, 1, 5, usize::MAX] {
        let (clusters, _) = make_n_connections(&points, &table, budget).unwrap();
        assert!(clusters.is_empty());
    }
}

#[test]
fn no_connections_make_no_cluster() {
    let (clusters, last) = make_n_connections(&square(), &Vec::new(), 7).unwrap();
    assert!(clusters.is_empty());
    assert_eq!(last, (0, 0));
}

#[test]
fn connection_within_a_cluster_uses_up_budget() {
    let points = vec![Xyz::new(0, 0, 0); 5];
    let connections = vec![(0, 1, 1), (1, 2, 2), (0, 2, 3), (3, 4, 4)];
    let (clusters, last) = make_n_connections(&points, &connections, 3).unwrap();
    assert_eq!(clusters, vec![set_of(&[0, 1, 2])]);
    assert_eq!(last, (0, 2));
    let (clusters, last) = make_n_connections(&points, &connections, 4).unwrap();
    assert_eq!(clusters, vec![set_of(&[0, 1, 2]), set_of(&[3, 4])]);
    assert_eq!(last, (3, 4));
}

#[test]
fn merging_moves_the_second_cluster_into_the_first() {
    let points = vec![Xyz::new(0, 0, 0); 7];
    let connections = vec![(0, 1, 1), (2, 3, 1), (4, 5, 1), (3, 4, 2), (1, 5, 3), (0, 6, 9)];
    let (clusters, _) = make_n_connections(&points, &connections, 3).unwrap();
    assert_eq!(clusters, vec![set_of(&[0, 1]), set_of(&[2, 3]), set_of(&[4, 5])]);
    let (clusters, _) = make_n_connections(&points, &connections, 4).unwrap();
    assert_eq!(clusters, vec![set_of(&[2, 3, 4, 5]), set_of(&[0, 1])]);
    let (clusters, last) = make_n_connections(&points, &connections, 5).unwrap();
    assert_eq!(clusters, vec![set_of(&[0, 1, 2, 3, 4, 5])]);
    assert_eq!(last, (1, 5));
    let (clusters, last) = make_n_connections(&points, &connections, 100).unwrap();
    assert_eq!(clusters, vec![set_of(&[0, 1, 2, 3, 4, 5, 6])]);
    assert_eq!(last, (0, 6));
}

#[test]
fn work_stops_when_every_point_is_covered() {
    let points = vec![Xyz::new(0, 0, 0); 4];
    let connections = vec![(0, 1, 1), (2, 3, 2), (1, 2, 3)];
    let (clusters, last) = make_n_connections(&points, &connections, 10).unwrap();
    assert_eq!(clusters, vec![set_of(&[0, 1]), set_of(&[2, 3])]);
    assert_eq!(last, (2, 3));
}

#[test]
fn clusters_of_one_size_stand_by_least_member() {
    let points = vec![Xyz::new(0, 0, 0); 7];
    let connections = vec![(4, 5, 1), (1, 2, 2), (0, 3, 3)];
    let (clusters, _) = make_n_connections(&points, &connections, 3).unwrap();
    assert_eq!(clusters, vec![set_of(&[0, 3]), set_of(&[1, 2]), set_of(&[4, 5])]);
}

#[test]
fn malformed_connections_are_invalid_input() {
    let points = square();
    assert_eq!(
        make_n_connections(&points, &vec![(0, 4, 1)], 1),
        Err(ClusterError::InvalidInput)
    );
    assert_eq!(
        make_n_connections(&points, &vec![(1, 0, 1)], 1),
        Err(ClusterError::InvalidInput)
    );
    assert_eq!(
        make_n_connections(&points, &vec![(2, 2, 0)], 1),
        Err(ClusterError::InvalidInput)
    );
    assert_eq!(
        make_n_connections(&points, &vec![(0, 1, 1), (7, 9, 1)], 1),
        Err(ClusterError::InvalidInput)
    );
}

#[test]
fn merge_is_deterministic() {
    let points = read_input(&lines_of(EXAMPLE)).unwrap();
    let table = compute_distances(&points).unwrap();
    for budget in [0, 1, 3, 10, 50, usize::MAX] {
        let first = make_n_connections(&points, &table, budget).unwrap();
        let second = make_n_connections(&points, &table, budget).unwrap();
        assert_eq!(first, second);
    }
}

#[test]
fn clusters_hold_no_more_points_than_connections_allow() {
    let points = read_input(&lines_of(EXAMPLE)).unwrap();
    let table = compute_distances(&points).unwrap();
    for budget in 0..30usize {
        let (clusters, _) = make_n_connections(&points, &table, budget).unwrap();
        let mut seen: HashSet<usize> = HashSet::new();
        for cluster in &clusters {
            for &index in cluster {
                assert!(index < points.len());
                assert!(seen.insert(index));
            }
        }
        assert!(seen.len() <= points.len());
        assert!(seen.len() <= 2 * budget);
    }
}

#[test]
fn largest_cluster_grows_with_the_budget() {
    let points = read_input(&lines_of(EXAMPLE)).unwrap();
    let table = compute_distances(&points).unwrap();
    let mut largest = 0;
    for budget in 0..40usize {
        let (clusters, _) = make_n_connections(&points, &table, budget).unwrap();
        let size = clusters.first().map_or(0, |c| c.len());
        assert!(size >= largest);
        largest = size;
        for pair in clusters.windows(2) {
            assert!(pair[0].len() >= pair[1].len());
        }
    }
    let (covered, last) = make_n_connections(&points, &table, 29).unwrap();
    let (more, last_more) = make_n_connections(&points, &table, usize::MAX).unwrap();
    assert_eq!(covered, more);
    assert_eq!(last, last_more);
}

#[test]
fn full_budget_covers_every_point() {
    let points = read_input(&lines_of(EXAMPLE)).unwrap();
    let table = compute_distances(&points).unwrap();
    assert_eq!(table.len(), 190);
    let (clusters, _) = make_n_connections(&points, &table, usize::MAX).unwrap();
    let covered: usize = clusters.iter().map(|c| c.len()).sum();
    assert_eq!(covered, 20);
}

#[test]
fn product_of_largest_counts_missing_clusters_as_one() {
    assert_eq!(product_of_largest(&square(), 0), Ok(1));
    assert_eq!(product_of_largest(&square(), 1), Ok(2));
    assert_eq!(product_of_largest(&square(), 2), Ok(4));
    assert_eq!(product_of_largest(&[], 5), Ok(1));
}

#[test]
fn product_of_last_multiplies_the_first_coordinates() {
    let points = vec![Xyz::new(3, 0, 0), Xyz::new(5, 0, 0), Xyz::new(-7, 90, 0), Xyz::new(11, 91, 0)];
    assert_eq!(product_of_last(&points, 1), Ok(15));
    assert_eq!(product_of_last(&points, 2), Ok(-77));
    assert_eq!(product_of_last(&points, 0), Err(ClusterError::InvalidInput));
    assert_eq!(product_of_last(&points[..1], 3), Err(ClusterError::InvalidInput));
    let wide = vec![Xyz::new(3000000000, 0, 0), Xyz::new(3000000001, 0, 0), Xyz::new(3000000002, 0, 0), Xyz::new(3200000000, 0, 0)];
    assert_eq!(product_of_last(&wide, 1), Ok(9000000003000000000));
    assert_eq!(product_of_last(&wide, 3), Ok(9000000006000000000));
    assert_eq!(product_of_last(&wide, 4), Err(ClusterError::Overflow));
}

#[test]
fn many_points_are_clustered() {
    let mut seed: u64 = 12345;
    let mut next = || {
        seed = seed.wrapping_mul(6364136223846793005).wrapping_add(1442695040888963407);
        ((seed >> 33) % 100000) as i64
    };
    let points: Vec<Xyz> = (0..300).map(|_| Xyz::new(next(), next(), next())).collect();
    let table = compute_distances(&points).unwrap();
    assert_eq!(table.len(), 300 * 299 / 2);
    for pair in table.windows(2) {
        let (a, b) = (pair[0], pair[1]);
        assert!(a.2 < b.2 || (a.2 == b.2 && (a.0, a.1) < (b.0, b.1)));
    }
    for &(from, to, cost) in &table {
        assert!(from < to && to < 300);
        assert_eq!(distance_squared(points[from], points[to]), Ok(cost));
    }
    let (clusters, last) = make_n_connections(&points, &table, usize::MAX).unwrap();
    let covered: usize = clusters.iter().map(|c| c.len()).sum();
    assert_eq!(covered, 300);
    assert!(last.0 < last.1 && last.1 < 300);
    let (few, _) = make_n_connections(&points, &table, 100).unwrap();
    assert!(few.iter().map(|c| c.len()).sum::<usize>() <= 200);
    for cluster in &few {
        assert!(clusters.iter().any(|c| cluster.is_subset(c)));
    }
}

use pagerank_rs::{Pagerank, PagerankError};

fn round_to_places(num: f64, places: u32) -> f64 {
    let multiplier = 10f64.powi(places as i32);
    (num * multiplier).round() / multiplier
}

fn to_percentage(f: f64) -> f64 {
    round_to_places(100.000 * f, 1)
}

fn approx_eq(left: f64, right: f64, epsilon: f64) -> bool {
    (left - right).abs() <= epsilon
}

/// One step of the power iteration over the graph that the engine holds.
fn step(
    engine: &Pagerank,
    following_prob: f64,
    t_over_size: f64,
    p: &[f64],
    dangling_nodes: &[usize],
    new_p: &mut [f64],
) {
    let size = p.len();
    let inner_product: f64 = dangling_nodes.iter().map(|&node| p[node]).sum();
    let inner_product_over_size = inner_product / size as f64;
    for (i, new_p_i) in new_p.iter_mut().enumerate() {
        let rank_sum: f64 = engine
            .in_links(i)
            .iter()
            .map(|&index| p[index] / engine.number_out_links(index) as f64)
            .sum();
        *new_p_i = following_prob * (rank_sum + inner_product_over_size) + t_over_size;
    }
    let v_sum: f64 = new_p.iter().sum();
    for x in new_p.iter_mut() {
        *x /= v_sum;
    }
}

/// The score of every node, with its identifier, in the order of the nodes.
fn scores(engine: &Pagerank, following_prob: f64, tolerance: f64) -> Vec<(usize, f64)> {
    let size = engine.len();
    if size == 0 {
        return Vec::new();
    }
    let inverse_of_size = 1.0 / size as f64;
    let t_over_size = (1.0 - following_prob) * inverse_of_size;
    let dangling_nodes = engine.calculate_dangling_nodes();
    let mut p = vec![inverse_of_size; size];
    let mut new_p = vec![0.0; size];
    let mut change = 2.0;
    while change > tolerance {
        step(engine, following_prob, t_over_size, &p, &dangling_nodes, &mut new_p);
        change = p.iter().zip(&new_p).map(|(&old, &new)| (old - new).abs()).sum();
        std::mem::swap(&mut p, &mut new_p);
    }
    let mut pairs = Vec::new();
    for (i, p_i) in p.into_iter().enumerate() {
        if let Some(key) = engine.key_at(i) {
            pairs.push((key, p_i));
        }
    }
    pairs
}

/// The scores, the highest first; nodes of equal score stay in their order.
fn rank(engine: &Pagerank, following_prob: f64, tolerance: f64) -> Vec<(usize, f64)> {
    let mut pairs = scores(engine, following_prob, tolerance);
    pairs.sort_by(|left, right| right.1.partial_cmp(&left.1).unwrap());
    pairs
}

fn assert_rank(page_rank: &mut Pagerank, expected: &[(usize, f64)], tolerance: f64) {
    let mut expected_entries = &expected[..];
    let result = rank(page_rank, 0.85, tolerance);
    assert_eq!(expected.len(), result.len());

    for (node_id, node_rank) in result {
        let (expected_id, expected_rank) = expected_entries[0];
        expected_entries = &expected_entries[1..];

        assert_eq!(
            expected_id, node_id,
            "Node id should be {} but was {}",
            expected_id, node_id,
        );

        assert!(
            approx_eq(to_percentage(node_rank), expected_rank, tolerance),
            "Rank for {} should be {} but was {}",
            expected_id,
            expected_rank,
            node_rank,
        );
    }
}

fn assert_percentages(engine: &Pagerank, expected: &[(usize, f64)]) {
    let result = scores(engine, 0.85, 0.0001);
    assert_eq!(expected.len(), result.len());
    for (&(key, score), &(expected_key, expected_percentage)) in result.iter().zip(expected) {
        assert_eq!(key, expected_key);
        assert!(
            approx_eq(to_percentage(score), expected_percentage, 0.0001),
            "Rank for {} should be {} but was {}",
            key,
            expected_percentage,
            score,
        );
    }
}

#[test]
fn test_round() {
    assert!(approx_eq(round_to_places(0.6666666, 1), 0.7, 0.1));
}

#[test]
fn test_rank_to_percentage() {
    assert!(approx_eq(to_percentage(0.6666666), 66.7, 0.1));
}

#[test]
fn test_should_enter_the_block() -> Result<(), PagerankError> {
    let mut page_rank = Pagerank::new(2);
    page_rank.link(0, 1)?;

    let result = rank(&page_rank, 0.85, 0.0001);

    assert_ne!(0, result.len());
    Ok(())
}

#[test]
fn test_should_be_possible_to_recalculate_the_ranks_after_a_new_link_is_added(
) -> Result<(), PagerankError> {
    let mut page_rank = Pagerank::new(3);
    page_rank.link(0, 1)?;
    let expected = vec![(1, 64.9), (0, 35.1)];
    assert_rank(&mut page_rank, &expected, 0.0001);

    page_rank.link(1, 2)?;
    let expected = vec![(2, 47.4), (1, 34.1), (0, 18.4)];
    assert_rank(&mut page_rank, &expected, 0.0001);
    Ok(())
}

#[test]
fn test_should_be_possible_to_clear_the_graph() -> Result<(), PagerankError> {
    let mut page_rank = Pagerank::new(3);
    page_rank.link(0, 1)?;
    page_rank.link(1, 2)?;
    page_rank.clear();
    page_rank.link(0, 1)?;

    let expected = vec![(1, 64.9), (0, 35.1)];
    assert_rank(&mut page_rank, &expected, 0.0001);
    Ok(())
}

#[test]
fn test_should_not_fail_when_calculating_the_rank_of_an_empty_graph() -> Result<(), PagerankError>
{
    let page_rank = Pagerank::new(1);

    let result = rank(&page_rank, 0.85, 0.0001);

    assert_eq!(
        0,
        result.len(),
        "Rank calculation should not have entered the block for an empty graph."
    );
    Ok(())
}

#[test]
fn test_should_return_correct_results_when_having_a_dangling_node() -> Result<(), PagerankError> {
    let mut page_rank = Pagerank::new(3);
    // Node 2 is a dangling node because it has no outbound links.
    page_rank.link(0, 2)?;
    page_rank.link(1, 2)?;

    let expected = vec![(2, 57.4), (0, 21.3), (1, 21.3)];
    assert_rank(&mut page_rank, &expected, 0.0001);
    Ok(())
}

#[test]
fn test_should_not_change_the_graph_when_adding_the_same_link_many_times(
) -> Result<(), PagerankError> {
    let mut page_rank = Pagerank::new(3);
    page_rank.link(0, 2)?;
    page_rank.link(0, 2)?; // Duplicate link
    page_rank.link(0, 2)?; // Duplicate link
    page_rank.link(1, 2)?;
    page_rank.link(1, 2)?; // Duplicate link

    let expected = vec![(2, 57.4), (0, 21.3), (1, 21.3)];
    assert_rank(&mut page_rank, &expected, 0.0001);
    Ok(())
}

#[test]
fn test_should_return_correct_results_for_a_star_graph() -> Result<(), PagerankError> {
    let mut page_rank = Pagerank::new(3);
    page_rank.link(0, 2)?;
    page_rank.link(1, 2)?;
    page_rank.link(2, 2)?; // Node 2 links to itself, forming a star graph

    let expected = vec![(2, 90.0), (0, 5.0), (1, 5.0)];
    assert_rank(&mut page_rank, &expected, 0.0001);
    Ok(())
}

#[test]
fn test_should_be_uniform_for_a_circular_graph() -> Result<(), PagerankError> {
    let mut page_rank = Pagerank::new(5);
    page_rank.link(0, 1)?;
    page_rank.link(1, 2)?;
    page_rank.link(2, 3)?;
    page_rank.link(3, 4)?;
    page_rank.link(4, 0)?; // Creates a circular graph

    let expected = vec![(0, 20.0), (1, 20.0), (2, 20.0), (3, 20.0), (4, 20.0)];
    assert_rank(&mut page_rank, &expected, 0.0001);
    Ok(())
}

#[test]
fn test_should_return_correct_results_for_a_converging_graph() -> Result<(), PagerankError> {
    let mut page_rank = Pagerank::new(3);
    page_rank.link(0, 1)?;
    page_rank.link(0, 2)?;
    page_rank.link(1, 2)?;
    page_rank.link(2, 2)?; // Node 2 links to itself, forming a converging graph

    let expected = vec![(2, 87.9), (1, 7.1), (0, 5.0)];
    assert_rank(&mut page_rank, &expected, 0.0001);
    Ok(())
}

fn wikipedia_example() -> Result<Pagerank, PagerankError> {
    // Based on the example from: http://en.wikipedia.org/wiki/File:PageRanks-Example.svg
    let mut page_rank = Pagerank::new(11);
    page_rank.link(1, 2)?;
    page_rank.link(2, 1)?;
    page_rank.link(3, 0)?;
    page_rank.link(3, 1)?;
    page_rank.link(4, 3)?;
    page_rank.link(4, 1)?;
    page_rank.link(4, 5)?;
    page_rank.link(5, 4)?;
    page_rank.link(5, 1)?;
    page_rank.link(6, 1)?;
    page_rank.link(6, 4)?;
    page_rank.link(7, 1)?;
    page_rank.link(7, 4)?;
    page_rank.link(8, 1)?;
    page_rank.link(8, 4)?;
    page_rank.link(9, 4)?;
    page_rank.link(10, 4)?;
    Ok(page_rank)
}

#[test]
fn test_should_correctly_reproduce_the_wikipedia_example() -> Result<(), PagerankError> {
    let mut page_rank = wikipedia_example()?;

    let expected = vec![
        (1, 38.4), // Node 'b'
        (2, 34.3), // Node 'c'
        (4, 8.1),  // Node 'e'
        (3, 3.9),  // Node 'd'
        (5, 3.9),  // Node 'f'
        (0, 3.3),  // Node 'a'
        (6, 1.6),  // Node 'g'
        (7, 1.6),  // Node 'h'
        (8, 1.6),  // Node 'i'
        (9, 1.6),  // Node 'j'
        (10, 1.6), // Node 'k'
    ];
    assert_rank(&mut page_rank, &expected, 0.0001);
    Ok(())
}

#[test]
fn test_single_edge_in_the_order_of_the_nodes() {
    let mut engine = Pagerank::new(3);
    engine.link(0, 1).unwrap();
    assert_percentages(&engine, &[(0, 35.1), (1, 64.9)]);
}

#[test]
fn test_star_with_a_loop_on_the_hub_in_the_order_of_the_nodes() {
    let mut engine = Pagerank::new(3);
    engine.link(0, 2).unwrap();
    engine.link(1, 2).unwrap();
    engine.link(2, 2).unwrap();
    assert_percentages(&engine, &[(0, 5.0), (2, 90.0), (1, 5.0)]);
}

#[test]
fn test_cycle_of_five_is_uniform() {
    let mut engine = Pagerank::new(5);
    for node in 0..5 {
        engine.link(node, (node + 1) % 5).unwrap();
    }
    assert_percentages(&engine, &[(0, 20.0), (1, 20.0), (2, 20.0), (3, 20.0), (4, 20.0)]);
}

#[test]
fn test_wikipedia_example_in_the_order_of_the_nodes() {
    let engine = wikipedia_example().unwrap();
    assert_percentages(
        &engine,
        &[
            (1, 38.4),
            (2, 34.3),
            (3, 3.9),
            (0, 3.3),
            (4, 8.1),
            (5, 3.9),
            (6, 1.6),
            (7, 1.6),
            (8, 1.6),
            (9, 1.6),
            (10, 1.6),
        ],
    );
}

#[test]
fn test_scores_add_up_to_one() {
    let engine = wikipedia_example().unwrap();
    let total: f64 = scores(&engine, 0.85, 0.0001).iter().map(|&(_, score)| score).sum();
    assert!(approx_eq(total, 1.0, 1e-12));

    let mut dangling = Pagerank::new(3);
    dangling.link(0, 2).unwrap();
    dangling.link(1, 2).unwrap();
    let total: f64 = scores(&dangling, 0.85, 0.0001).iter().map(|&(_, score)| score).sum();
    assert!(approx_eq(total, 1.0, 1e-12));
}

#[test]
fn test_dangling_node_keeps_its_share() {
    let mut engine = Pagerank::new(3);
    engine.link(0, 2).unwrap();
    engine.link(1, 2).unwrap();
    assert_eq!(engine.index_of(2), Some(1));
    assert_eq!(engine.calculate_dangling_nodes(), vec![1]);
    let result = scores(&engine, 0.85, 0.0001);
    assert_eq!(result[1].0, 2);
    assert!(result[1].1 > result[0].1);
    assert!(result[1].1 > result[2].1);
    assert!(result.iter().all(|&(_, score)| score > 0.0));
}

#[test]
fn test_node_without_links_gets_a_score() {
    let mut full = Pagerank::new(3);
    full.link(0, 1).unwrap();
    full.link(1, 0).unwrap();
    assert!(full.link(7, 8).is_err());
    let result = scores(&full, 0.85, 0.0001);
    assert_eq!(result.len(), 3);
    assert_eq!(result[2].0, 7);
    assert!(result[2].1 > 0.0);
    let total: f64 = result.iter().map(|&(_, score)| score).sum();
    assert!(approx_eq(total, 1.0, 1e-12));
}

#[test]
fn test_scores_are_the_same_on_every_call() {
    let engine = wikipedia_example().unwrap();
    let first = scores(&engine, 0.85, 0.0001);
    let second = scores(&engine, 0.85, 0.0001);
    assert_eq!(first, second);
}

#[test]
fn test_clear_and_repeat_gives_the_same_scores() {
    let mut engine = wikipedia_example().unwrap();
    let first = scores(&engine, 0.85, 0.0001);
    engine.clear();
    assert!(scores(&engine, 0.85, 0.0001).is_empty());
    let again = wikipedia_example().unwrap();
    let links = [
        (1, 2), (2, 1), (3, 0), (3, 1), (4, 3), (4, 1), (4, 5), (5, 4), (5, 1),
        (6, 1), (6, 4), (7, 1), (7, 4), (8, 1), (8, 4), (9, 4), (10, 4),
    ];
    for &(from, to) in links.iter() {
        engine.link(from, to).unwrap();
    }
    assert_eq!(scores(&engine, 0.85, 0.0001), first);
    assert_eq!(scores(&again, 0.85, 0.0001), first);
}

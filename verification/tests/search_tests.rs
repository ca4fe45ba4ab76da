use r_descent::dao::dao_from_data;
use r_descent::rdescent::{IntoRDescent, IntoRDescentWithRevNNs, RDescent, RDescentWithRev};
use r_descent::search::RevSearch;

fn sample() -> r_descent::dao::Dao {
    dao_from_data(
        vec![
            vec![1, 1, 0, 0],
            vec![1, 0, 1, 0],
            vec![0, 1, 1, 0],
            vec![-1, -1, 0, 0],
            vec![1, 1, 1, 1],
            vec![0, 0, -1, 1],
        ],
        4,
    )
    .unwrap()
}

#[test]
fn into_rdescent_builds_a_true_table() {
    let dao = sample();
    let d = dao.into_rdescent(3, 4, 0);
    assert_eq!(d.neighbours.len(), 6);
    for r in 0..6 {
        assert_eq!(d.neighbours[r].len(), 3);
        for c in 0..3 {
            assert!(d.neighbours[r][c] < 6);
            assert_eq!(d.similarities[r][c], dao.similarity_between(r, d.neighbours[r][c]));
            for c2 in 0..3 {
                if c != c2 {
                    assert_ne!(d.neighbours[r][c], d.neighbours[r][c2]);
                }
            }
        }
    }
}

#[test]
fn initial_table_is_random_distinct_and_true() {
    let dao = sample();
    let t = dao.initialise_table_randomly(6);
    for r in 0..6 {
        let mut ids: Vec<u32> = t[r].iter().map(|e| e.id).collect();
        ids.sort();
        assert_eq!(ids, vec![0, 1, 2, 3, 4, 5]);
        for e in &t[r] {
            assert_eq!(e.sim, dao.similarity_between(r, e.id as usize));
        }
    }
}

#[test]
fn into_rdescent_with_rev_nn_pads_reverse_rows() {
    let dao = sample();
    let d = dao.into_rdescent_with_rev_nn(2, 4, 0, 3);
    assert_eq!(d.reverse_neighbours.len(), 6);
    for t in 0..6 {
        assert_eq!(d.reverse_neighbours[t].len(), 3);
        for &x in &d.reverse_neighbours[t] {
            if x != u32::MAX as usize {
                // x lists t, and t does not list x
                assert!(d.rdescent.neighbours[x].contains(&t));
                assert!(!d.rdescent.neighbours[t].contains(&x));
            }
        }
    }
}

fn sample_tables() -> RDescentWithRev {
    RDescentWithRev {
        rdescent: RDescent {
            neighbours: vec![vec![4, 1], vec![0, 2], vec![1, 4], vec![5, 1], vec![0, 2], vec![1, 3]],
            similarities: vec![vec![2, 1], vec![1, 2], vec![2, 2], vec![0, -1], vec![2, 2], vec![-1, 0]],
        },
        reverse_neighbours: vec![
            vec![1, u32::MAX as usize],
            vec![3, 5],
            vec![u32::MAX as usize, u32::MAX as usize],
            vec![5, u32::MAX as usize],
            vec![u32::MAX as usize, u32::MAX as usize],
            vec![3, u32::MAX as usize],
        ],
    }
}

#[test]
fn rev_search_from_walks_to_better_points() {
    let dao = sample();
    let table = sample_tables();
    let query = vec![1, 1, 0, 0];
    // from 3 (similarity -2): 5 (0), then 1 (1), then 0 (2)
    assert_eq!(table.rev_search_from(&query, &dao, vec![3]), vec![0]);
    // from 3 and 5, the threshold starts at -2 (the least start similarity)
    assert_eq!(table.rev_search_from(&query, &dao, vec![3, 5]), vec![4, 0]);
    assert_eq!(table.rev_search_from(&query, &dao, vec![0, 1]), vec![0, 4]);
    // a best point stays put
    assert_eq!(table.rev_search_from(&query, &dao, vec![0]), vec![0]);
}

#[test]
fn rev_search_returns_data_points() {
    let dao = sample();
    let table = sample_tables();
    let query = vec![1, 1, 0, 0];
    for _ in 0..20 {
        let r = table.rev_search(&query, &dao, 2);
        assert_eq!(r.len(), 2);
        assert!(r.iter().all(|&x| x < 6));
    }
    // everything is reachable from everywhere here: the best point is always found
    for _ in 0..20 {
        let r = table.rev_search(&query, &dao, 1);
        assert_eq!(r.len(), 1);
        assert!(dao.similarity_to(r[0], &query) >= 1);
    }
}

#[test]
fn rev_search_from_starts_at_the_least_similarity() {
    let dao = dao_from_data(vec![vec![0, 0], vec![1, 1], vec![1, 0]], 2).unwrap();
    let m = u32::MAX as usize;
    let table = RDescentWithRev {
        rdescent: RDescent {
            neighbours: vec![vec![2], vec![0], vec![0]],
            similarities: vec![vec![0], vec![0], vec![0]],
        },
        reverse_neighbours: vec![vec![m], vec![m], vec![m]],
    };
    // point 2 (similarity 1) beats point 0 (similarity 0), the least start
    assert_eq!(table.rev_search_from(&vec![1, 1], &dao, vec![0, 1]), vec![2, 1]);
}

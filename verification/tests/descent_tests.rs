use r_descent::dao::{dao_from_data, Dao, DaoError};
use r_descent::descent::{
    all_new_flags, draw_samples, get_nn_table2_bsp, get_nn_table_up_to_phase2_bsp, split_all_rows,
};
use r_descent::join::local_join;
use r_descent::nality::{contains_id, min_index_and_value, minimum_in_nality, Nality};
use r_descent::phases::{build_reverse_lists, get_selectors_from_flags, split_row_new_old};
use r_descent::rdescent::get_reverse_nality_links_not_in_forward;
use r_descent::similarity::similarity;
use r_descent::update::check_apply_update;

fn sample_dao() -> Dao {
    let data: Vec<Vec<i8>> = vec![
        vec![1, 1, 0, 0],
        vec![1, 0, 1, 0],
        vec![0, 1, 1, 0],
        vec![-1, -1, 0, 0],
        vec![1, 1, 1, 1],
        vec![0, 0, -1, 1],
    ];
    dao_from_data(data, 4).unwrap()
}

fn n(id: u32, sim: i64) -> Nality {
    Nality::new(sim, id)
}

#[test]
fn similarity_is_the_ternary_inner_product() {
    assert_eq!(similarity(&vec![1, 1, 0, 0], &vec![1, 0, 1, 0]), 1);
    assert_eq!(similarity(&vec![1, 1, 0, 0], &vec![-1, -1, 0, 0]), -2);
    assert_eq!(similarity(&vec![1, -1, 1, -1], &vec![1, -1, 1, -1]), 4);
    assert_eq!(similarity(&vec![], &vec![]), 0);
}

#[test]
fn dao_similarities() {
    let dao = sample_dao();
    assert_eq!(dao.similarity_between(0, 4), 2);
    assert_eq!(dao.similarity_between(4, 0), 2);
    assert_eq!(dao.similarity_between(0, 3), -2);
    assert_eq!(dao.similarity_to(5, &vec![0, 0, 1, -1]), -2);
}

#[test]
fn dao_from_data_rejects_bad_embeddings() {
    let r = dao_from_data(vec![vec![1, 0], vec![1, 0, 0]], 2);
    assert_eq!(r.err(), Some(DaoError::BadEmbedding { index: 1 }));
    let r = dao_from_data(vec![vec![1, 2], vec![1, 0]], 2);
    assert_eq!(r.err(), Some(DaoError::BadEmbedding { index: 0 }));
    let r = dao_from_data(vec![vec![1, -1], vec![0, 0]], 2);
    let d = r.unwrap();
    assert_eq!(d.num_data, 2);
    assert_eq!(d.dim, 2);
    let r = dao_from_data(vec![], 0);
    assert_eq!(r.unwrap().num_data, 0);
}

#[test]
fn minimum_takes_the_first_smallest() {
    assert_eq!(min_index_and_value(&vec![5, 3, 7, 3]), (1, 3));
    assert_eq!(min_index_and_value(&vec![-4]), (0, -4));
    let row = vec![n(1, 5), n(2, 2), n(3, 2), n(4, 9)];
    assert_eq!(minimum_in_nality(&row), (1, n(2, 2)));
    assert!(contains_id(&row, 3));
    assert!(!contains_id(&row, 7));
}

#[test]
fn check_apply_update_replaces_the_least_similar_entry() {
    let mut table = vec![vec![n(1, 5), n(2, 2), n(3, 4)]];
    let mut flags = vec![vec![false, false, false]];
    let mut work: usize = 7;
    check_apply_update(0, 9, 3, &mut flags, &mut table, &mut work);
    assert_eq!(table, vec![vec![n(1, 5), n(9, 3), n(3, 4)]]);
    assert_eq!(flags, vec![vec![false, true, false]]);
    assert_eq!(work, 8);
}

#[test]
fn check_apply_update_refuses_weaker_or_known_entries() {
    let mut table = vec![vec![n(1, 5), n(2, 2)], vec![n(0, 1), n(2, 1)]];
    let mut flags = vec![vec![false, false], vec![false, false]];
    let mut work: usize = 0;
    // not more similar than the least similar entry
    check_apply_update(0, 7, 2, &mut flags, &mut table, &mut work);
    // already in the row
    check_apply_update(0, 1, 9, &mut flags, &mut table, &mut work);
    assert_eq!(table, vec![vec![n(1, 5), n(2, 2)], vec![n(0, 1), n(2, 1)]]);
    assert_eq!(flags, vec![vec![false, false], vec![false, false]]);
    assert_eq!(work, 0);
    // ties go to the first least similar column
    check_apply_update(1, 3, 2, &mut flags, &mut table, &mut work);
    assert_eq!(table[1], vec![n(3, 2), n(2, 1)]);
    assert_eq!(flags[1], vec![true, false]);
    assert_eq!(work, 1);
}

#[test]
fn check_apply_update_work_counter_wraps() {
    let mut table = vec![vec![n(1, 0)]];
    let mut flags = vec![vec![false]];
    let mut work: usize = usize::MAX;
    check_apply_update(0, 2, 1, &mut flags, &mut table, &mut work);
    assert_eq!(work, 0);
    assert_eq!(table[0], vec![n(2, 1)]);
}

#[test]
fn selectors_and_row_split() {
    let flags = vec![true, false, true, false];
    assert_eq!(get_selectors_from_flags(&flags, true), vec![0, 2]);
    assert_eq!(get_selectors_from_flags(&flags, false), vec![1, 3]);
    let row = vec![n(10, 1), n(11, 2), n(12, 3), n(13, 4)];
    let mut f = flags.clone();
    // two entries are flagged new, so the sample is an ordering of 0..2
    let (new_list, old_list) = split_row_new_old(&row, &mut f, &vec![1, 0]);
    assert_eq!(new_list, vec![n(11, 2), n(10, 1)]);
    assert_eq!(old_list, vec![n(11, 2), n(13, 4)]);
    assert_eq!(f, vec![false, false, true, false]);
}

#[test]
fn drawn_samples_fit_the_flags() {
    let flags = vec![vec![true, true, true], vec![false, true, false], vec![false, false, false]];
    let s = draw_samples(&flags);
    assert_eq!(s.len(), 3);
    let mut first = s[0].clone();
    first.sort();
    assert_eq!(first, vec![0, 1, 2]);
    assert_eq!(s[1], vec![0]);
    assert!(s[2].is_empty());
}

#[test]
fn split_all_rows_with_given_samples() {
    let table = vec![vec![n(1, 5), n(2, 2)], vec![n(0, 1), n(2, 1)], vec![n(0, 3), n(1, 4)]];
    let mut flags = vec![vec![true, true], vec![false, true], vec![false, false]];
    let samples = vec![vec![1, 0], vec![0], vec![]];
    let (news, olds) = split_all_rows(&table, &mut flags, &samples);
    assert_eq!(news, vec![vec![n(2, 2), n(1, 5)], vec![n(0, 1)], vec![]]);
    assert_eq!(olds, vec![vec![], vec![n(0, 1)], vec![n(0, 3), n(1, 4)]]);
    assert_eq!(flags, vec![vec![false, false], vec![false, true], vec![false, false]]);
}

#[test]
fn reverse_lists_keep_the_most_similar() {
    // rows 0, 1 and 2 all list point 3; only two fit its reverse list
    let table = vec![vec![n(3, 5)], vec![n(3, 1)], vec![n(3, 7)], vec![n(0, 5)]];
    let news = vec![vec![], vec![], vec![], vec![]];
    let rev = build_reverse_lists(&table, &news, 2);
    // 0 and 1 fill the list, then 2 replaces the less similar 1
    assert_eq!(rev[3], vec![n(0, 5), n(2, 7)]);
    assert_eq!(rev[0], vec![n(3, 5)]);
    assert!(rev[1].is_empty());
    assert!(rev[2].is_empty());
    // a row is not offered to a point whose new list already holds it
    let news = vec![vec![], vec![], vec![], vec![n(0, 0)]];
    let rev = build_reverse_lists(&table, &news, 2);
    assert_eq!(rev[3], vec![n(1, 1), n(2, 7)]);
}

#[test]
fn reverse_links_not_in_forward() {
    let table = vec![vec![n(1, 2)], vec![n(0, 2)], vec![n(0, 1)]];
    let rev = get_reverse_nality_links_not_in_forward(&table, 3);
    // 0 and 1 list each other, so only 2 is a reverse link of 0
    assert_eq!(rev, vec![vec![n(2, 1)], vec![], vec![]]);
}

#[test]
fn local_join_proposes_pairs() {
    let dao = sample_dao();
    // row 0 knows 1 (new) and 2 (old); the join proposes 1 and 2 to each other
    let mut table = vec![
        vec![n(1, 1), n(2, 1)],
        vec![n(0, 1), n(3, -1)],
        vec![n(0, 1), n(3, -1)],
        vec![n(0, -2), n(1, -1)],
        vec![n(0, 2), n(1, 2)],
        vec![n(1, -1), n(2, -1)],
    ];
    let mut flags = vec![vec![false; 2]; 6];
    let mut news = vec![vec![]; 6];
    let mut olds = vec![vec![]; 6];
    news[0] = vec![n(1, 1)];
    olds[0] = vec![n(2, 1)];
    let revs = vec![vec![n(4, 2)], vec![], vec![], vec![], vec![], vec![]];
    let mut work: usize = 0;
    local_join(&dao, &news, &olds, &revs, &mut flags, &mut table, &mut work);
    // the new and reverse ids of row 0 are [1, 4]: sim(1, 4) = 2 replaces 3 in row 1,
    // and row 4 refuses 1, which it holds already; then new 1 meets old 2 with
    // sim(1, 2) = 1: row 1 refuses 2 (its least similarity is 1), row 2 takes 1 in place of 3
    assert_eq!(table[1], vec![n(0, 1), n(4, 2)]);
    assert_eq!(table[2], vec![n(0, 1), n(1, 1)]);
    assert_eq!(table[4], vec![n(0, 2), n(1, 2)]);
    assert_eq!(flags[1], vec![false, true]);
    assert_eq!(flags[2], vec![false, true]);
    assert_eq!(work, 2);
}

#[test]
fn descent_keeps_true_similarities_and_improves_rows() {
    let dao = sample_dao();
    let mut table: Vec<Vec<Nality>> = (0..6u32)
        .map(|r| {
            let a = (r + 1) % 6;
            let b = (r + 2) % 6;
            vec![
                n(a, dao.similarity_between(r as usize, a as usize)),
                n(b, dao.similarity_between(r as usize, b as usize)),
            ]
        })
        .collect();
    let before = table.clone();
    get_nn_table2_bsp(&dao, &mut table, 2, 0, 4);
    assert_eq!(table.len(), 6);
    for r in 0..6 {
        assert_eq!(table[r].len(), 2);
        assert_ne!(table[r][0].id, table[r][1].id);
        for e in &table[r] {
            assert!((e.id as usize) < 6);
            assert_eq!(e.sim, dao.similarity_between(r, e.id as usize));
        }
        let min_before = before[r].iter().map(|e| e.sim).min().unwrap();
        let min_after = table[r].iter().map(|e| e.sim).min().unwrap();
        assert!(min_after >= min_before);
    }
}

#[test]
fn first_two_phases_from_all_new_flags() {
    let dao = sample_dao();
    let table: Vec<Vec<Nality>> = (0..6u32)
        .map(|r| {
            let a = (r + 1) % 6;
            vec![n(a, dao.similarity_between(r as usize, a as usize))]
        })
        .collect();
    // the run leaves the table as it was and returns nothing
    let before = table.clone();
    get_nn_table_up_to_phase2_bsp(&dao, &table, 1, 3);
    assert_eq!(table, before);
    // the phases it runs, one by one
    let mut flags = all_new_flags(6, 1);
    let samples = draw_samples(&flags);
    let (news, olds) = split_all_rows(&table, &mut flags, &samples);
    let rev = build_reverse_lists(&table, &news, 3);
    for r in 0..6 {
        assert_eq!(flags[r], vec![false]);
        assert_eq!(news[r], table[r]);
        assert!(olds[r].is_empty());
    }
    // row r lists r + 1 and r + 1 does not list r back in its new list
    for r in 0..6u32 {
        let listed_by = (r + 5) % 6;
        assert_eq!(rev[r as usize], vec![n(listed_by, table[listed_by as usize][0].sim)]);
    }
    assert_eq!(all_new_flags(2, 3), vec![vec![true; 3]; 2]);
}

#[test]
fn descent_with_a_high_threshold_makes_no_round() {
    let dao = sample_dao();
    let mut table: Vec<Vec<Nality>> = (0..6u32)
        .map(|r| {
            let a = (r + 3) % 6;
            vec![n(a, dao.similarity_between(r as usize, a as usize))]
        })
        .collect();
    let before = table.clone();
    get_nn_table2_bsp(&dao, &mut table, 1, 6, 2);
    assert_eq!(table, before);
}

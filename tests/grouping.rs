use rand_groups::groups::{copy_items, new_groups};
use rand_groups::{group_by_draws, rand_group, rand_group_select, select_by_draws};
use std::collections::HashSet;

fn gen_rand_string() -> String {
    let r: usize = rand::random();
    format!("uid:{}", r)
}

fn unique_people(people_num: usize) -> Vec<String> {
    let mut arr = vec![];
    let mut hashset: HashSet<String> = HashSet::new();
    for _ in 0..people_num {
        let mut p = gen_rand_string();
        while !hashset.insert(p.clone()) {
            p = gen_rand_string();
        }
        arr.push(p);
    }
    arr
}

fn names(v: &[&str]) -> Vec<String> {
    v.iter().map(|s| s.to_string()).collect()
}

fn check_all_kinds(group_fn: fn(&Vec<String>, usize) -> Vec<Vec<String>>) {
    let people_num = 200;
    let arr = unique_people(people_num);

    {
        let k = 20;
        let group = group_fn(&arr, k);
        let num_team = people_num / k;
        for v in group {
            assert!(v.len() == num_team);
        }
    }
    {
        let k = 19;
        let group = group_fn(&arr, k);
        let num_team = people_num / k;
        for v in group {
            assert!((v.len() - num_team) <= 1);
        }
    }
    {
        let k = 0;
        let group = group_fn(&arr, k);
        assert!(group.len() == 1 && group[0].len() == arr.len());
    }
    {
        let k = 18;
        let arr = vec![];
        let group = group_fn(&arr, k);
        for v in group {
            assert!(v.len() == 0);
        }
    }
    {
        let k = 19;
        let group = group_fn(&arr, k);
        let mut seen = HashSet::new();
        let mut count = 0;
        for v in group {
            for p in v {
                count += 1;
                assert!(seen.insert(p), "rand_group_select has repetition people");
            }
        }
        assert!(count == arr.len(), "rand_group_select number of error");
    }
}

#[test]
fn test_range_group() {
    check_all_kinds(rand_group);
}

#[test]
fn test_range_group_select() {
    check_all_kinds(rand_group_select);
}

fn large_group_count(group: &[Vec<String>], low: usize) -> usize {
    group.iter().filter(|v| v.len() == low + 1).count()
}

#[test]
fn remainder_groups_rand_group() {
    let arr = unique_people(200);
    let group = rand_group(&arr, 19);
    assert_eq!(group.len(), 19);
    for v in &group {
        assert!(v.len() == 10 || v.len() == 11);
    }
    assert_eq!(large_group_count(&group, 10), 10);
}

#[test]
fn remainder_groups_rand_group_select() {
    let arr = unique_people(200);
    let group = rand_group_select(&arr, 19);
    assert_eq!(group.len(), 19);
    for (g, v) in group.iter().enumerate() {
        assert_eq!(v.len(), if g < 10 { 11 } else { 10 });
    }
    assert_eq!(large_group_count(&group, 10), 10);
}

#[test]
fn zero_groups_keep_order() {
    let arr = names(&["a", "b", "c", "d"]);
    assert_eq!(rand_group(&arr, 0), vec![arr.clone()]);
    assert_eq!(rand_group_select(&arr, 0), vec![arr.clone()]);
    let empty: Vec<String> = vec![];
    assert_eq!(rand_group(&empty, 0), vec![empty.clone()]);
    assert_eq!(rand_group_select(&empty, 0), vec![empty.clone()]);
}

#[test]
fn empty_input_gives_empty_groups() {
    let empty: Vec<String> = vec![];
    let expected: Vec<Vec<String>> = vec![vec![]; 18];
    assert_eq!(rand_group(&empty, 18), expected);
    assert_eq!(rand_group_select(&empty, 18), expected);
}

#[test]
fn more_groups_than_elements() {
    let arr = names(&["a", "b", "c"]);
    for group in [rand_group(&arr, 5), rand_group_select(&arr, 5)] {
        assert_eq!(group.len(), 5);
        let mut sizes: Vec<usize> = group.iter().map(|v| v.len()).collect();
        sizes.sort();
        assert_eq!(sizes, vec![0, 0, 1, 1, 1]);
        let mut all: Vec<String> = group.into_iter().flatten().collect();
        all.sort();
        assert_eq!(all, arr);
    }
}

#[test]
fn single_group_holds_everything() {
    let arr = unique_people(30);
    for group in [rand_group(&arr, 1), rand_group_select(&arr, 1)] {
        assert_eq!(group.len(), 1);
        let mut got = group[0].clone();
        got.sort();
        let mut want = arr.clone();
        want.sort();
        assert_eq!(got, want);
    }
}

#[test]
fn two_runs_differ() {
    let arr = unique_people(200);
    assert_ne!(rand_group(&arr, 20), rand_group(&arr, 20));
    assert_ne!(rand_group_select(&arr, 20), rand_group_select(&arr, 20));
}

#[test]
fn draws_probe_past_full_groups() {
    // n = 5, k = 2: ceilings are 2 for the first 4 elements, then 3.
    let arr = names(&["a", "b", "c", "d", "e"]);
    let group = group_by_draws(&arr, 2, &vec![0, 0, 0, 0, 0]);
    assert_eq!(group, vec![names(&["a", "b", "e"]), names(&["c", "d"])]);
}

#[test]
fn draws_probe_wraps_around() {
    let arr = names(&["a", "b", "c"]);
    let group = group_by_draws(&arr, 3, &vec![2, 2, 2]);
    assert_eq!(group, vec![names(&["b"]), names(&["c"]), names(&["a"])]);
}

#[test]
fn draws_follow_the_drawn_group() {
    let arr = names(&["a", "b", "c", "d"]);
    let group = group_by_draws(&arr, 2, &vec![1, 0, 1, 0]);
    assert_eq!(group, vec![names(&["b", "d"]), names(&["a", "c"])]);
}

#[test]
fn draws_exact_division_fill_evenly() {
    let arr = names(&["a", "b", "c", "d", "e", "f"]);
    // the first three elements fill each group to one, the next three to two
    let group = group_by_draws(&arr, 3, &vec![1, 1, 1, 1, 1, 1]);
    assert_eq!(
        group,
        vec![names(&["c", "f"]), names(&["a", "d"]), names(&["b", "e"])]
    );
}

#[test]
fn select_draws_first_of_pool() {
    let arr = names(&["a", "b", "c", "d"]);
    let group = select_by_draws(&arr, 2, &vec![0, 0, 0, 0]);
    assert_eq!(group, vec![names(&["a", "c"]), names(&["d", "b"])]);
}

#[test]
fn select_draws_last_of_pool() {
    let arr = names(&["a", "b", "c", "d"]);
    let group = select_by_draws(&arr, 2, &vec![3, 2, 1, 0]);
    assert_eq!(group, vec![names(&["d", "b"]), names(&["c", "a"])]);
}

#[test]
fn select_draws_remainder_to_first_groups() {
    let arr = names(&["a", "b", "c", "d", "e"]);
    let group = select_by_draws(&arr, 3, &vec![1, 1, 1, 1, 0]);
    // pool: a b c d e -> b; a e c d -> e; a d c -> d; a c -> c; a -> a
    assert_eq!(
        group,
        vec![names(&["b", "c"]), names(&["e", "a"]), names(&["d"])]
    );
}

#[test]
fn draws_with_zero_groups() {
    let arr = names(&["x", "y"]);
    assert_eq!(group_by_draws(&arr, 0, &vec![]), vec![arr.clone()]);
    assert_eq!(select_by_draws(&arr, 0, &vec![]), vec![arr.clone()]);
}

#[test]
fn helpers_copy_and_create() {
    let arr = names(&["p", "q"]);
    assert_eq!(copy_items(&arr), arr);
    let groups = new_groups(4);
    assert_eq!(groups, vec![Vec::<String>::new(); 4]);
}

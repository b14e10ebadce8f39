//! The time line.

use huub::helpers::timeline::{TimeLine, UnionFind};

#[test]
fn paper_example_1() {
    let est = vec![4, 1, 5];
    let lct = vec![15, 10, 8];
    let p = vec![5, 6, 2];

    let mut tl = TimeLine::new(&est, &lct, &p);
    assert_eq!(tl.t, vec![1, 4, 5, 28]);
    assert_eq!(tl.c, vec![3, 1, 23]);

    for (i, &p_i) in p.iter().enumerate() {
        tl.schedule_task(i, p_i);
    }
    assert_eq!(tl.earliest_completion_time(), 14);
}

#[test]
fn single_task_ect_is_est_plus_p() {
    let p = vec![5];
    let mut tl = TimeLine::new(&vec![4], &vec![15], &p);
    tl.schedule_task(0, p[0]);
    assert_eq!(tl.earliest_completion_time(), 9);
}

#[test]
fn empty_schedule_is_negative_infinity() {
    let tl = TimeLine::new(&vec![1, 3], &vec![10, 12], &vec![2, 2]);
    assert_eq!(tl.earliest_completion_time(), i64::MIN);
}

#[test]
fn gaps_between_tasks_stay_idle() {
    // The second task starts after the first one is completed.
    let mut tl = TimeLine::new(&vec![0, 10], &vec![20, 20], &vec![3, 4]);
    tl.schedule_task(0, 3);
    assert_eq!(tl.earliest_completion_time(), 3);
    tl.schedule_task(1, 4);
    assert_eq!(tl.earliest_completion_time(), 14);
}

#[test]
fn tasks_without_duration_count_with_their_start() {
    let mut tl = TimeLine::new(&vec![2, 7], &vec![9, 9], &vec![1, 0]);
    tl.schedule_task(1, 0);
    assert_eq!(tl.earliest_completion_time(), 7);
    tl.schedule_task(0, 1);
    assert_eq!(tl.earliest_completion_time(), 7);
}

#[test]
fn completion_time_is_the_largest_start_with_the_work_from_there_on() {
    let mut seed: u64 = 3;
    let mut next = |n: u64| {
        seed = seed.wrapping_mul(6364136223846793005).wrapping_add(1442695040888963407);
        ((seed >> 33) % n) as i64
    };
    for _ in 0..200 {
        let n = 1 + next(6) as usize;
        let est: Vec<i64> = (0..n).map(|_| next(12) - 4).collect();
        let p: Vec<i64> = (0..n).map(|_| next(5)).collect();
        let lct: Vec<i64> = (0..n).map(|i| est[i] + p[i] + 1 + next(4)).collect();
        let mut tl = TimeLine::new(&est, &lct, &p);
        let mut done: Vec<usize> = Vec::new();
        for i in 0..n {
            tl.schedule_task(i, p[i]);
            done.push(i);
            let expected = done
                .iter()
                .map(|&a| {
                    est[a]
                        + done.iter().filter(|&&b| est[b] >= est[a]).map(|&b| p[b]).sum::<i64>()
                })
                .max()
                .unwrap();
            assert_eq!(tl.earliest_completion_time(), expected);
        }
        // The order of the tasks does not matter.
        let mut other = TimeLine::new(&est, &lct, &p);
        for i in (0..n).rev() {
            other.schedule_task(i, p[i]);
        }
        assert_eq!(other.earliest_completion_time(), tl.earliest_completion_time());
        assert_eq!(other.c, tl.c);
    }
}

#[test]
fn joined_sets_have_a_greatest_element() {
    let mut uf = UnionFind::new(6);
    uf.union(1, 2);
    uf.union(2, 3);
    uf.union(4, 5);
    let greatest: Vec<usize> = (0..6).map(|x| uf.find_greatest(x)).collect();
    assert_eq!(greatest, vec![0, 3, 3, 3, 5, 5]);
    uf.union(3, 4);
    assert_eq!(uf.find_greatest(1), 5);
}

use comp_work::direct::do_comp_work_in_cur_thread;
use comp_work::even::is_even;
use comp_work::plan::{choose_strategy, num_of_threads, Strategy, MAX_NUM_OF_THREADS, THRESHOLD};
use comp_work::sharded::do_comp_work_in_chunks;

fn alternating(len: usize) -> Vec<bool> {
    (1..=len).map(|position| position % 2 == 0).collect()
}

fn counting(len: usize) -> Vec<i64> {
    (1..=len as i64).collect()
}

fn square(num: u64) -> u64 {
    num * num
}

#[test]
fn four_numbers_go_the_direct_way() {
    let vector: Vec<i64> = vec![1, 2, 3, 4];
    assert_eq!(choose_strategy(vector.len()), Strategy::Direct);
    let result = do_comp_work_in_cur_thread(vector, is_even);
    assert_eq!(result, vec![false, true, false, true]);
}

#[test]
fn thirty_four_numbers_go_the_sharded_way() {
    let vector: Vec<i64> = vec![
        1, 2, 3, 4, 5, 6, 7, 8, 9, 10, 11, 12, 13, 14, 15, 16, 17, 18, 19, 20, 21, 22, 23, 24,
        25, 26, 27, 28, 29, 30, 31, 32, 33, 34,
    ];
    assert_eq!(choose_strategy(vector.len()), Strategy::Sharded);
    let result = do_comp_work_in_chunks(vector, is_even);
    let result_for_check = vec![
        false, true, false, true, false, true, false, true, false, true, false, true, false,
        true, false, true, false, true, false, true, false, true, false, true, false, true,
        false, true, false, true, false, true, false, true,
    ];
    assert_eq!(result, result_for_check);
}

#[test]
fn empty_input_gives_empty_output() {
    assert_eq!(choose_strategy(0), Strategy::Direct);
    let direct: Vec<bool> = do_comp_work_in_cur_thread(Vec::<i64>::new(), is_even);
    assert_eq!(direct, Vec::<bool>::new());
    let sharded: Vec<bool> = do_comp_work_in_chunks(Vec::<i64>::new(), is_even);
    assert_eq!(sharded, Vec::<bool>::new());
}

#[test]
fn single_element_goes_the_direct_way() {
    assert_eq!(choose_strategy(1), Strategy::Direct);
    assert_eq!(do_comp_work_in_cur_thread(vec![7i64], is_even), vec![false]);
    assert_eq!(do_comp_work_in_cur_thread(vec![12i64], is_even), vec![true]);
    assert_eq!(do_comp_work_in_cur_thread(vec![9u64], square), vec![81]);
}

#[test]
fn strategy_changes_at_the_threshold() {
    assert_eq!(THRESHOLD, 8);
    assert_eq!(choose_strategy(THRESHOLD - 1), Strategy::Direct);
    assert_eq!(choose_strategy(THRESHOLD), Strategy::Sharded);
    assert_eq!(choose_strategy(THRESHOLD + 1), Strategy::Sharded);
    assert_eq!(choose_strategy(usize::MAX), Strategy::Sharded);

    let below = do_comp_work_in_cur_thread(counting(THRESHOLD - 1), is_even);
    assert_eq!(below, alternating(THRESHOLD - 1));
    assert_eq!(below, vec![false, true, false, true, false, true, false]);

    let at = do_comp_work_in_chunks(counting(THRESHOLD), is_even);
    assert_eq!(at, alternating(THRESHOLD));
    assert_eq!(at, vec![false, true, false, true, false, true, false, true]);
}

#[test]
fn large_input_stays_within_the_worker_cap() {
    assert_eq!(MAX_NUM_OF_THREADS, 64);
    let len = THRESHOLD * MAX_NUM_OF_THREADS + 1;
    assert_eq!(num_of_threads(len), MAX_NUM_OF_THREADS);
    let result = do_comp_work_in_chunks(counting(len), is_even);
    assert_eq!(result, alternating(len));

    let len = 10_000;
    assert_eq!(num_of_threads(len), MAX_NUM_OF_THREADS);
    let vector: Vec<u64> = (0..len as u64).collect();
    let result = do_comp_work_in_chunks(vector, square);
    assert_eq!(result.len(), len);
    for (position, value) in result.iter().enumerate() {
        assert_eq!(*value, (position as u64) * (position as u64));
    }
}

#[test]
fn results_stand_at_the_positions_of_their_elements() {
    let vector: Vec<u64> = vec![5, 3, 9, 1, 1, 8, 0, 2, 7, 7, 4, 6, 11, 10, 13, 12, 3];
    let expected: Vec<u64> = vec![25, 9, 81, 1, 1, 64, 0, 4, 49, 49, 16, 36, 121, 100, 169, 144, 9];
    assert_eq!(do_comp_work_in_cur_thread(vector.clone(), square), expected);
    assert_eq!(do_comp_work_in_chunks(vector, square), expected);
}

#[test]
fn both_strategies_give_the_same_output() {
    for len in [0usize, 1, 2, 7, 8, 9, 15, 16, 17, 34, 63, 64, 65, 511, 512, 513, 1000] {
        let vector: Vec<u64> = (0..len as u64).map(|num| num * 7 + 3).collect();
        let direct = do_comp_work_in_cur_thread(vector.clone(), square);
        let sharded = do_comp_work_in_chunks(vector, square);
        assert_eq!(direct, sharded);
    }
}

#[test]
fn no_slot_is_left_at_its_default() {
    for len in [1usize, 7, 8, 9, 34, 513, 4000] {
        let vector: Vec<u64> = (0..len as u64).collect();
        let successors = do_comp_work_in_chunks(vector, |num: u64| num + 1);
        assert_eq!(successors.len(), len);
        assert!(successors.iter().all(|value| *value != u64::default()));
    }
}

#[test]
fn closures_and_owned_values_are_mapped_too() {
    let words: Vec<String> = (0..20).map(|num| format!("w{}", num)).collect();
    let lengths = do_comp_work_in_chunks(words.clone(), |word: String| word.len());
    let expected: Vec<usize> = words.iter().map(|word| word.len()).collect();
    assert_eq!(lengths, expected);
    let shouted = do_comp_work_in_cur_thread(words, |word: String| word.to_uppercase());
    assert_eq!(shouted[13], "W13");
}

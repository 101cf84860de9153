use comp_work::chunks::split_into_chunks;
use comp_work::plan::{items_per_thread, num_of_threads, MAX_NUM_OF_THREADS};

#[test]
fn one_worker_per_eight_elements_rounded_up() {
    assert_eq!(num_of_threads(8), 1);
    assert_eq!(num_of_threads(9), 2);
    assert_eq!(num_of_threads(16), 2);
    assert_eq!(num_of_threads(17), 3);
    assert_eq!(num_of_threads(34), 5);
    assert_eq!(num_of_threads(504), 63);
    assert_eq!(num_of_threads(505), 64);
    assert_eq!(num_of_threads(512), 64);
}

#[test]
fn at_least_one_worker_is_planned() {
    assert_eq!(num_of_threads(0), 1);
    assert_eq!(num_of_threads(1), 1);
    assert_eq!(num_of_threads(7), 1);
}

#[test]
fn never_more_workers_than_the_cap() {
    assert_eq!(num_of_threads(513), 64);
    assert_eq!(num_of_threads(100_000), 64);
    assert_eq!(num_of_threads(usize::MAX), 64);
    assert_eq!(num_of_threads(usize::MAX - 6), 64);
    for len in 0..3000usize {
        let threads = num_of_threads(len);
        assert!(1 <= threads && threads <= MAX_NUM_OF_THREADS);
    }
}

#[test]
fn chunk_size_is_length_by_workers_rounded_up() {
    assert_eq!(items_per_thread(0), 0);
    assert_eq!(items_per_thread(1), 1);
    assert_eq!(items_per_thread(7), 7);
    assert_eq!(items_per_thread(8), 8);
    assert_eq!(items_per_thread(9), 5);
    assert_eq!(items_per_thread(34), 7);
    assert_eq!(items_per_thread(512), 8);
    assert_eq!(items_per_thread(513), 9);
    assert_eq!(items_per_thread(640), 10);
    assert_eq!(items_per_thread(641), 11);
    assert_eq!(items_per_thread(usize::MAX), usize::MAX / 64 + 1);
}

#[test]
fn thirty_four_elements_make_five_chunks() {
    let vector: Vec<char> = ('a'..='z').chain('A'..='H').collect();
    assert_eq!(vector.len(), 34);
    let chunks = split_into_chunks(vector.clone());
    let sizes: Vec<usize> = chunks.iter().map(|chunk| chunk.len()).collect();
    assert_eq!(sizes, vec![7, 7, 7, 7, 6]);
    assert_eq!(chunks[0][0], (0, 'a'));
    assert_eq!(chunks[0][6], (6, 'g'));
    assert_eq!(chunks[1][0], (7, 'h'));
    assert_eq!(chunks[4][0], (28, 'C'));
    assert_eq!(chunks[4][5], (33, 'H'));
}

#[test]
fn chunks_cover_every_position_once_and_in_order() {
    for len in [1usize, 2, 7, 8, 9, 33, 34, 35, 511, 512, 513, 520, 3000, 3969, 3970, 5000] {
        let vector: Vec<usize> = (0..len).map(|position| position * 3).collect();
        let chunks = split_into_chunks(vector);
        assert!(chunks.len() <= num_of_threads(len));
        let mut next = 0usize;
        for chunk in &chunks {
            assert!(!chunk.is_empty());
            assert!(chunk.len() <= items_per_thread(len));
            for (index, item) in chunk {
                assert_eq!(*index, next);
                assert_eq!(*item, next * 3);
                next += 1;
            }
        }
        assert_eq!(next, len);
    }
}

#[test]
fn only_chunks_that_hold_an_element_are_made() {
    assert!(split_into_chunks(Vec::<u8>::new()).is_empty());
    assert_eq!(split_into_chunks(vec![42u8]), vec![vec![(0usize, 42u8)]]);
    let chunks = split_into_chunks((0..513u32).collect::<Vec<u32>>());
    assert_eq!(items_per_thread(513), 9);
    assert_eq!(chunks.len(), 57);
    assert!(chunks.iter().all(|chunk| chunk.len() == 9));
    let chunks = split_into_chunks((0..514u32).collect::<Vec<u32>>());
    assert_eq!(chunks.len(), 58);
    assert_eq!(chunks[57], vec![(513usize, 513u32)]);
}

#[test]
fn chunks_grow_once_the_cap_is_reached() {
    let chunks = split_into_chunks((0..10_000u32).collect::<Vec<u32>>());
    assert_eq!(items_per_thread(10_000), 157);
    assert_eq!(chunks.len(), 64);
    assert!(chunks[..63].iter().all(|chunk| chunk.len() == 157));
    assert_eq!(chunks[63].len(), 109);
    assert_eq!(chunks[63][108], (9_999usize, 9_999u32));
}

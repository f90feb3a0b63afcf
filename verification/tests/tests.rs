use concurrent_bst_map::concurrent::ConcurrentBSTMap;
use concurrent_bst_map::DEFAULT_MAX_DEPTH;
use std::sync::atomic::{AtomicUsize, Ordering};
use std::sync::Arc;

fn should_update(value_1: &u64, value_2: &u64) -> bool {
    value_2 > value_1
}

fn get_vec_of_key_values(length: usize) -> Vec<(u64, u64)> {
    let mut to_return = Vec::new();
    for _ in 0..length {
        to_return.push(rand::random::<(u64, u64)>());
    }
    to_return
}

#[test]
fn length_test() {
    let expected = 10000;
    let bst = ConcurrentBSTMap::<u64>::new();
    get_vec_of_key_values(expected)
        .iter()
        .for_each(|x| _ = bst.insert_or_update(x.0, x.1, DEFAULT_MAX_DEPTH));
    assert_eq!(bst.len(), expected);
}

#[test]
fn depth_test() {
    let expected = 10000;
    let bst = ConcurrentBSTMap::<u64>::new();
    get_vec_of_key_values(expected)
        .iter()
        .for_each(|x| _ = bst.insert_or_update(x.0, x.1, DEFAULT_MAX_DEPTH));
    println!("{}", bst.depth());
}

#[test]
fn remove_test() {
    let expected = 10000;
    let to_insert = get_vec_of_key_values(expected);
    let bst = ConcurrentBSTMap::<u64>::new();
    to_insert
        .iter()
        .for_each(|x| _ = bst.insert_or_update(x.0, x.1, DEFAULT_MAX_DEPTH));
    to_insert.iter().for_each(|x| bst.remove(x.0));
    assert!(to_insert.iter().all(|x| bst.get(x.0).is_none()));
}

#[test]
fn should_update_test() {
    let bst = ConcurrentBSTMap::<u64>::new();
    let (key, mut value) = (1000, 0);
    assert!(bst
        .insert_or_update_if(key, value, &should_update, DEFAULT_MAX_DEPTH)
        .is_ok_and(|x| x));
    value += 1;
    assert!(bst
        .insert_or_update_if(key, value, &should_update, DEFAULT_MAX_DEPTH)
        .is_ok_and(|x| x));
    value -= 1;
    assert!(!bst
        .insert_or_update_if(key, value, &should_update, DEFAULT_MAX_DEPTH)
        .is_ok_and(|x| x));
    assert_eq!(bst.get(key), Some(1));
}

#[test]
fn insert_and_get_test() {
    let bst = ConcurrentBSTMap::<u64>::new();
    _ = bst.insert_or_update(0, 1, DEFAULT_MAX_DEPTH);
    assert!(bst.get(0).is_some_and(|x| x == 1));
}

#[test]
fn bench_insert_or_update_if() {
    let bst = ConcurrentBSTMap::<u64>::new();
    let (key, mut value) = (1000, 0);
    let mut true_count = 0;
    let total = 1000000;
    for _ in 0..total {
        if bst
            .insert_or_update_if(key, value, &should_update, DEFAULT_MAX_DEPTH)
            .is_ok_and(|x| x)
        {
            true_count += 1;
        }
        value += 1;
    }
    assert_eq!(true_count, total);
}

// Multiplying the index by an odd constant is a bijection on u64, so every
// thread inserts distinct keys in a pseudorandom order that keeps the
// unbalanced tree shallow.
fn mixed_key(i: u64) -> u64 {
    i.wrapping_mul(0x9E3779B97F4A7C15)
}

#[test]
fn bench_multi_thread_insert_or_update_if_and_remove() {
    const NO_THREADS: usize = 10;
    const TOTAL_PER_THREAD: usize = 10000;
    let bst = Arc::new(ConcurrentBSTMap::<u64>::new());
    let true_count = Arc::new(AtomicUsize::new(0));
    let runtime = tokio::runtime::Builder::new_multi_thread()
        .enable_all()
        .build()
        .unwrap();
    runtime.block_on(async {
        let mut threads = Vec::new();
        for i in 0..NO_THREADS {
            let bst = Arc::clone(&bst);
            let true_count = Arc::clone(&true_count);
            threads.push(tokio::spawn(async move {
                let start_index = (TOTAL_PER_THREAD * i) as u64;
                for j in start_index..(start_index + TOTAL_PER_THREAD as u64) {
                    let key = mixed_key(j);
                    if bst
                        .insert_or_update_if(key, j, &should_update, DEFAULT_MAX_DEPTH)
                        .is_ok_and(|x| x)
                    {
                        true_count.fetch_add(1, Ordering::Relaxed);
                    }
                }
            }));
        }
        for t in threads {
            t.await.unwrap();
        }
        assert_eq!(true_count.load(Ordering::Relaxed), NO_THREADS * TOTAL_PER_THREAD);
        assert_eq!(bst.len(), NO_THREADS * TOTAL_PER_THREAD);

        let mut threads = Vec::new();
        for i in 0..NO_THREADS {
            let bst = Arc::clone(&bst);
            threads.push(tokio::spawn(async move {
                let start_index = (TOTAL_PER_THREAD * i) as u64;
                for j in start_index..(start_index + TOTAL_PER_THREAD as u64) {
                    bst.remove(mixed_key(j));
                }
            }));
        }
        for t in threads {
            t.await.unwrap();
        }
        assert_eq!(bst.len(), 0);
    });
}

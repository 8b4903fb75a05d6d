use segment_search::executor::{gather, Executor};

#[test]
#[should_panic]
fn test_panic_propagates_single_thread() {
    let _result: Vec<usize> = Executor::single_thread()
        .map(
            |_: usize| -> Result<usize, ()> {
                panic!("panic should propagate");
            },
            vec![0],
        )
        .unwrap();
}

#[test]
#[should_panic]
fn test_panic_propagates_multi_thread() {
    let _result: Vec<usize> = Executor::multi_thread(2)
        .map(
            |_: usize| -> Result<usize, ()> {
                panic!("panic should propagate");
            },
            vec![0],
        )
        .unwrap();
}

#[test]
fn single_thread_keeps_input_order() {
    let items: Vec<u32> = (0..50).collect();
    let result: Result<Vec<u32>, ()> = Executor::single_thread().map(|x: u32| Ok(x * 2 + 1), items);
    let expected: Vec<u32> = (0..50).map(|x| x * 2 + 1).collect();
    assert_eq!(result, Ok(expected));
}

#[test]
fn single_thread_stops_at_first_error() {
    let result: Result<Vec<u32>, u32> =
        Executor::single_thread().map(|x: u32| if x >= 3 { Err(x) } else { Ok(x) }, vec![1, 2, 3, 4, 5]);
    assert_eq!(result, Err(3));
}

#[test]
fn multi_thread_returns_every_result_once() {
    let items: Vec<u32> = (0..200).collect();
    let result: Result<Vec<u32>, ()> = Executor::multi_thread(4).map(|x: u32| Ok(x * x), items);
    let mut values = result.unwrap();
    values.sort();
    let expected: Vec<u32> = (0..200).map(|x| x * x).collect();
    assert_eq!(values, expected);
}

#[test]
fn multi_thread_reports_an_error() {
    let result: Result<Vec<u32>, u32> =
        Executor::multi_thread(3).map(|x: u32| if x == 7 { Err(x) } else { Ok(x) }, (0..20).collect());
    assert_eq!(result, Err(7));
}

#[test]
fn empty_batch_is_empty() {
    let inline: Result<Vec<u32>, ()> = Executor::single_thread().map(|x: u32| Ok(x), vec![]);
    assert_eq!(inline, Ok(vec![]));
    let pooled: Result<Vec<u32>, ()> = Executor::multi_thread(2).map(|x: u32| Ok(x), vec![]);
    assert_eq!(pooled, Ok(vec![]));
}

#[test]
fn gather_takes_values_or_first_error() {
    let all: Vec<Result<u8, &str>> = vec![Ok(1), Ok(2), Ok(3)];
    assert_eq!(gather(all), Ok(vec![1, 2, 3]));
    let some: Vec<Result<u8, &str>> = vec![Ok(1), Err("first"), Ok(3), Err("second")];
    assert_eq!(gather(some), Err("first"));
    let none: Vec<Result<u8, &str>> = vec![];
    assert_eq!(gather(none), Ok(vec![]));
}

#[test]
fn pool_without_workers_takes_an_empty_batch() {
    let pooled: Result<Vec<u32>, ()> = Executor::multi_thread(0).map(|x: u32| Ok(x), vec![]);
    assert_eq!(pooled, Ok(vec![]));
}

use tonyutils::par_map::{par_map_with, ParMap};

// Euler steps for dy/dt = 3t - y, as a stand-in for real work.
fn difficult_computation(y1: i32) -> f32 {
    let dy = |y: f32, t: f32| 3.0 * t - y;
    let step = 0.01;
    let mut t = 0.0;
    let mut y = y1 as f32;

    for _ in 0..100 {
        y += step * dy(y, t);
        t += step;
    }

    y
}

fn square(x: u64) -> u64 {
    x * x
}

#[test]
fn par_map() {
    let ys: Vec<_> = tonyutils::par_map(0..1_000_000, difficult_computation).collect();
    assert_eq!(ys.len(), 1_000_000);
}

#[test]
fn par_map_matches_a_plain_map() {
    let ys = tonyutils::par_map(0..1000, difficult_computation).collect();
    let expected: Vec<f32> = (0..1000).map(difficult_computation).collect();
    assert_eq!(ys, expected);
}

#[test]
fn squares_come_out_in_input_order() {
    let input: Vec<u64> = vec![5, 1, 4, 1, 5, 9, 2, 6];
    let out = par_map_with(input.into_iter(), square, 3).collect();
    assert_eq!(out, vec![25, 1, 16, 1, 25, 81, 4, 36]);
}

#[test]
fn squares_are_pulled_one_by_one() {
    let input: Vec<u64> = vec![5, 1, 4, 1, 5, 9, 2, 6];
    let mut stream = par_map_with(input.into_iter(), square, 3);
    assert_eq!(stream.next(), Some(25));
    assert_eq!(stream.next(), Some(1));
    assert_eq!(stream.next(), Some(16));
    assert_eq!(stream.next(), Some(1));
    assert_eq!(stream.next(), Some(25));
    assert_eq!(stream.next(), Some(81));
    assert_eq!(stream.next(), Some(4));
    assert_eq!(stream.next(), Some(36));
    assert_eq!(stream.next(), None);
    assert_eq!(stream.next(), None);
}

#[test]
fn order_is_kept_for_every_pool_size() {
    let input: Vec<u64> = (0..257).collect();
    let expected: Vec<u64> = input.iter().map(|x| x * 3 + 1).collect();
    for pool_size in 1..20 {
        let out = par_map_with(input.clone().into_iter(), |x: u64| x * 3 + 1, pool_size).collect();
        assert_eq!(out, expected);
    }
}

#[test]
fn length_is_kept_for_empty_input() {
    let input: Vec<u64> = Vec::new();
    let out = par_map_with(input.into_iter(), square, 4).collect();
    assert_eq!(out.len(), 0);
}

#[test]
fn length_is_kept_for_one_item() {
    let out = par_map_with(vec![7u64].into_iter(), square, 4).collect();
    assert_eq!(out, vec![49]);
}

#[test]
fn length_is_kept_for_large_input() {
    let out = par_map_with(0..200_000u64, square, 7).collect();
    assert_eq!(out.len(), 200_000);
    assert_eq!(out[0], 0);
    assert_eq!(out[199_999], 199_999 * 199_999);
}

#[test]
fn two_runs_give_the_same() {
    let first = par_map_with(0..5000u64, square, 5).collect();
    let second = par_map_with(0..5000u64, square, 5).collect();
    assert_eq!(first, second);
}

#[test]
fn pool_size_does_not_show() {
    let input: Vec<u64> = vec![3, 1, 4, 1, 5, 9, 2, 6, 5, 3, 5];
    let expected: Vec<u64> = input.iter().map(|x| x * x).collect();
    let one = par_map_with(input.clone().into_iter(), square, 1).collect();
    let two = par_map_with(input.clone().into_iter(), square, 2).collect();
    let as_many = par_map_with(input.clone().into_iter(), square, 11).collect();
    let more = par_map_with(input.clone().into_iter(), square, 64).collect();
    assert_eq!(one, expected);
    assert_eq!(two, expected);
    assert_eq!(as_many, expected);
    assert_eq!(more, expected);
}

#[test]
fn empty_input_gives_nothing() {
    let input: Vec<u64> = Vec::new();
    let mut stream = tonyutils::par_map(input.into_iter(), square);
    assert_eq!(stream.next(), None);
    assert_eq!(stream.next(), None);
}

#[test]
fn payloads_are_moved_not_copied() {
    let input = vec![String::from("a"), String::from("bc"), String::from("def")];
    let out = par_map_with(input.into_iter(), |s: String| s + "!", 2).collect();
    assert_eq!(out, vec![String::from("a!"), String::from("bc!"), String::from("def!")]);
}

#[test]
fn the_method_is_the_function() {
    let by_method = (0..100u64).par_map(square).collect();
    let by_function = tonyutils::par_map(0..100u64, square).collect();
    assert_eq!(by_method, by_function);
    assert_eq!(by_method[99], 99 * 99);
}

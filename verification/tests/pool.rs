use tonyutils::pool::{deal, transform, work, worker_step, Dispatcher, Inbox, Step};
use tonyutils::wrap::Wrap;

fn numbers<A>(queue: &Vec<Wrap<A>>) -> Vec<usize> {
    queue.iter().map(|item| item.0).collect()
}

#[test]
fn sequence_numbers_start_at_zero_and_leave_no_gap() {
    let mut dispatcher = Dispatcher::new(3);
    assert_eq!(dispatcher.count(), 0);
    for expected in 0..10usize {
        let (_, item) = dispatcher.assign('x');
        assert_eq!(item.0, expected);
        assert_eq!(item.1, 'x');
        assert_eq!(dispatcher.count(), expected + 1);
    }
}

#[test]
fn workers_are_served_in_turn() {
    let mut dispatcher = Dispatcher::new(3);
    let mut workers = Vec::new();
    for _ in 0..7 {
        let (worker, _) = dispatcher.assign(());
        workers.push(worker);
    }
    assert_eq!(workers, vec![0, 1, 2, 0, 1, 2, 0]);
}

#[test]
fn a_pool_of_one_gets_everything() {
    let mut dispatcher = Dispatcher::new(1);
    for _ in 0..5 {
        let (worker, _) = dispatcher.assign(());
        assert_eq!(worker, 0);
    }
}

#[test]
fn transform_keeps_the_number() {
    let out = transform(&|x: i32| x + 1, Wrap(17, 41));
    assert_eq!(out.0, 17);
    assert_eq!(out.1, 42);
}

#[test]
fn deal_fills_the_queues_in_turn() {
    let (queues, count) = deal("abcdefgh".chars(), 3);
    assert_eq!(count, 8);
    assert_eq!(queues.len(), 3);
    assert_eq!(numbers(&queues[0]), vec![0, 3, 6]);
    assert_eq!(numbers(&queues[1]), vec![1, 4, 7]);
    assert_eq!(numbers(&queues[2]), vec![2, 5]);
    let payloads: Vec<char> = queues[1].iter().map(|item| item.1).collect();
    assert_eq!(payloads, vec!['b', 'e', 'h']);
}

#[test]
fn deal_leaves_queues_empty_when_workers_outnumber_items() {
    let (queues, count) = deal(vec![10u8, 20].into_iter(), 4);
    assert_eq!(count, 2);
    assert_eq!(queues.len(), 4);
    assert_eq!(numbers(&queues[0]), vec![0]);
    assert_eq!(numbers(&queues[1]), vec![1]);
    assert!(queues[2].is_empty());
    assert!(queues[3].is_empty());
}

#[test]
fn deal_of_nothing_gives_empty_queues() {
    let (queues, count) = deal(Vec::<u8>::new().into_iter(), 2);
    assert_eq!(count, 0);
    assert_eq!(queues.len(), 2);
    assert!(queues[0].is_empty());
    assert!(queues[1].is_empty());
}

#[test]
fn work_runs_the_workers_one_after_the_other() {
    let (queues, count) = deal(0..8u32, 3);
    let results = work(queues, &|x: u32| x * 10, count);
    let order: Vec<(usize, u32)> = results.iter().map(|item| (item.0, item.1)).collect();
    assert_eq!(
        order,
        vec![(0, 0), (3, 30), (6, 60), (1, 10), (4, 40), (7, 70), (2, 20), (5, 50)]
    );
}

#[test]
fn a_worker_sends_on_what_it_made_of_an_item() {
    match worker_step(&|x: u32| x + 1, Inbox::Item(Wrap(9, 1))) {
        Step::Send(result) => {
            assert_eq!(result.0, 9);
            assert_eq!(result.1, 2);
        }
        _ => panic!("an item must be worked on"),
    }
}

#[test]
fn a_worker_waits_on_an_empty_queue() {
    let step: Step<u32> = worker_step(&|x: u32| x + 1, Inbox::Empty);
    assert!(matches!(step, Step::Wait));
}

#[test]
fn a_worker_ends_on_a_closed_queue() {
    let step: Step<u32> = worker_step(&|x: u32| x + 1, Inbox::Closed);
    assert!(matches!(step, Step::Stop));
}

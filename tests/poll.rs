use garage_k2v::causal::CausalContext;
use garage_k2v::item::Item;
use garage_k2v::poll::{poll_decide, PollDecision, Waiters};

#[test]
fn poll_with_an_outdated_token_answers_at_once() {
    let mut item = Item::new();
    let seen = item.put(1, Some(vec![1]), &CausalContext::new()).unwrap();
    item.put(1, Some(vec![2]), &seen).unwrap();
    let (_, current) = item.read();
    assert_eq!(poll_decide(&current, &seen, 0, 1000), PollDecision::Changed);
}

#[test]
fn poll_without_change_waits_then_times_out() {
    let mut item = Item::new();
    let seen = item.put(1, Some(vec![1]), &CausalContext::new()).unwrap();
    let (_, current) = item.read();
    assert_eq!(poll_decide(&current, &seen, 0, 50), PollDecision::Wait);
    assert_eq!(poll_decide(&current, &seen, 49, 50), PollDecision::Wait);
    assert_eq!(poll_decide(&current, &seen, 50, 50), PollDecision::Unchanged);
    assert_eq!(poll_decide(&current, &seen, 51, 50), PollDecision::Unchanged);
}

#[test]
fn poll_on_a_never_written_item_times_out() {
    let item = Item::new();
    let (_, current) = item.read();
    assert_eq!(poll_decide(&current, &CausalContext::new(), 60, 50), PollDecision::Unchanged);
}

#[test]
fn notify_wakes_every_waiter_of_the_key() {
    let mut w = Waiters::new();
    w.register(1, 10);
    w.register(2, 20);
    w.register(3, 10);
    w.register(4, 10);
    assert_eq!(w.notify(10), vec![1, 3, 4]);
    assert_eq!(w.entries, vec![(2, 20)]);
    assert_eq!(w.notify(10), Vec::<u64>::new());
}

#[test]
fn cancel_withdraws_a_waiter() {
    let mut w = Waiters::new();
    w.register(1, 10);
    w.register(2, 10);
    w.register(1, 30);
    w.cancel(1);
    assert_eq!(w.entries, vec![(2, 10)]);
    assert_eq!(w.notify(10), vec![2]);
    assert!(w.entries.is_empty());
}

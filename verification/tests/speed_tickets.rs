use protohackers::speed::client::Reading;
use protohackers::speed::msg::Ticket;
use protohackers::speed::tickets::{issue, issue_all, neighbours, Dispatchers, Issue};
use std::collections::HashSet;

#[test]
fn neighbours_are_the_closest_readings_around() {
    let readings = vec![Reading::new(0, 8), Reading::new(45, 9), Reading::new(100, 10), Reading::new(60, 3)];
    let (before, after) = neighbours(&readings, &Reading::new(50, 1));
    assert_eq!(before, Some(Reading::new(45, 9)));
    assert_eq!(after, Some(Reading::new(60, 3)));
    let (before, after) = neighbours(&readings, &Reading::new(0, 8));
    assert_eq!(before, None);
    assert_eq!(after, Some(Reading::new(45, 9)));
    let (before, after) = neighbours(&readings, &Reading::new(100, 11));
    assert_eq!(before, Some(Reading::new(100, 10)));
    assert_eq!(after, None);
    assert_eq!(neighbours(&vec![], &Reading::new(1, 1)), (None, None));
}

#[test]
fn dispatchers_come_and_go() {
    let mut d = Dispatchers::new();
    assert_eq!(d.pick(66), None);
    d.register(1, &vec![66, 368]);
    assert_eq!(d.pick(66), Some(1));
    assert_eq!(d.pick(368), Some(1));
    assert_eq!(d.pick(5000), None);
    d.register(2, &vec![66]);
    assert!(matches!(d.pick(66), Some(1) | Some(2)));
    d.unregister(1, &vec![66, 368]);
    assert_eq!(d.pick(66), Some(2));
    assert_eq!(d.pick(368), None);
    d.unregister(2, &vec![66]);
    assert_eq!(d.pick(66), None);
}

#[test]
fn tickets_are_sent_held_or_dropped() {
    let t = Ticket::new("UN1X", 123, 8, 0, 9, 45, 8000);
    let mut days = HashSet::new();
    assert_eq!(issue(&t, &mut days, None), Issue::Hold);
    assert!(days.is_empty());
    assert_eq!(issue(&t, &mut days, Some(7)), Issue::Send(7));
    assert!(days.contains(&0));
    let same_day = Ticket::new("UN1X", 123, 9, 50000, 10, 80000, 9000);
    assert_eq!(issue(&same_day, &mut days, Some(7)), Issue::Drop);
    let next_days = Ticket::new("UN1X", 123, 9, 86400, 10, 2 * 86400 + 5, 9000);
    assert_eq!(issue(&next_days, &mut days, Some(3)), Issue::Send(3));
    assert!(days.contains(&1) && days.contains(&2));
}

#[test]
fn tickets_of_one_reading_never_share_a_day() {
    let earlier = Ticket::new("UN1X", 123, 8, 0, 9, 45, 8000);
    let later = Ticket::new("UN1X", 123, 9, 50000, 10, 86400 + 10, 9000);
    let beyond = Ticket::new("UN1X", 123, 10, 3 * 86400, 11, 3 * 86400 + 9, 9000);
    let mut days = HashSet::new();
    days.insert(3);
    let outcomes = issue_all(&vec![earlier.clone(), later.clone(), beyond.clone()], &mut days, Some(4));
    assert_eq!(outcomes, vec![Issue::Send(4), Issue::Drop, Issue::Drop]);
    assert_eq!(days, HashSet::from([0, 3]));
    let mut days = HashSet::new();
    let outcomes = issue_all(&vec![earlier, later], &mut days, None);
    assert_eq!(outcomes, vec![Issue::Hold, Issue::Hold]);
    assert!(days.is_empty());
}

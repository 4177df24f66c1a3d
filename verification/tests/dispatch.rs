use workpool::dispatch::{Channel, Entry};

#[test]
fn entries_leave_in_arrival_order() {
    let mut c = Channel::<u64>::new();
    c.send(Entry::Work(1));
    c.send(Entry::Work(2));
    c.send(Entry::Stop);
    assert_eq!(c.len(), 3);
    assert!(matches!(c.receive(), Some(Entry::Work(1))));
    assert!(matches!(c.receive(), Some(Entry::Work(2))));
    assert!(matches!(c.receive(), Some(Entry::Stop)));
    assert!(c.receive().is_none());
}

#[test]
fn empty_channel_hands_out_nothing() {
    let mut c = Channel::<u64>::new();
    assert_eq!(c.len(), 0);
    assert!(c.receive().is_none());
    assert_eq!(c.len(), 0);
}

#[test]
fn each_entry_leaves_exactly_once() {
    let mut c = Channel::<u64>::new();
    for j in 0..100u64 {
        c.send(Entry::Work(j));
    }
    let mut seen: Vec<u64> = Vec::new();
    while let Some(e) = c.receive() {
        match e {
            Entry::Work(j) => seen.push(j),
            Entry::Stop => panic!("no stop was sent"),
        }
    }
    assert_eq!(seen, (0..100u64).collect::<Vec<u64>>());
}

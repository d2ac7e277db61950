use asteroid_mq::protocol::endpoint::EndpointAddr;
use asteroid_mq::protocol::interest::{split_segments, Interest, InterestMap, Subject};

fn accepts(pattern: &str, subject: &str) -> bool {
    Interest::new(pattern).matches(&Subject::new(subject))
}

fn found(index: &InterestMap, subject: &str) -> Vec<u128> {
    index.find(&Subject::new(subject)).iter().map(|ep| ep.bits).collect()
}

#[test]
fn names_split_at_every_dot() {
    assert_eq!(split_segments(b"orders.eu.new"), vec![b"orders".to_vec(), b"eu".to_vec(), b"new".to_vec()]);
    assert_eq!(split_segments(b""), vec![Vec::<u8>::new()]);
    assert_eq!(split_segments(b"a..b"), vec![b"a".to_vec(), Vec::new(), b"b".to_vec()]);
    assert_eq!(split_segments(b"."), vec![Vec::<u8>::new(), Vec::new()]);
    assert_eq!(split_segments(b"a."), vec![b"a".to_vec(), Vec::new()]);
}

#[test]
fn literal_interest_accepts_itself_only() {
    assert!(accepts("orders.eu.new", "orders.eu.new"));
    assert!(!accepts("orders.eu.new", "orders.eu.old"));
    assert!(!accepts("orders.eu", "orders.eu.new"));
    assert!(!accepts("orders.eu.new", "orders.eu"));
    assert!(accepts("", ""));
}

#[test]
fn star_accepts_one_non_empty_segment() {
    assert!(accepts("orders.*.new", "orders.eu.new"));
    assert!(accepts("*", "orders"));
    assert!(!accepts("*", "orders.eu"));
    assert!(!accepts("orders.*", "orders"));
    assert!(!accepts("orders.*.new", "orders..new"));
    assert!(!accepts("*", ""));
    assert!(accepts("*.*", "a.b"));
    // A star inside a longer segment is an ordinary byte.
    assert!(!accepts("ord*", "orders"));
    assert!(accepts("ord*", "ord*"));
}

#[test]
fn tail_accepts_one_or_more_non_empty_segments() {
    assert!(accepts("orders.>", "orders.eu"));
    assert!(accepts("orders.>", "orders.eu.new"));
    assert!(!accepts("orders.>", "orders"));
    assert!(!accepts("orders.>", "orders."));
    assert!(!accepts("orders.>", "orders.eu..new"));
    assert!(accepts(">", "a"));
    assert!(accepts(">", "a.b.c"));
    assert!(!accepts(">", ""));
    assert!(accepts("*.>", "a.b"));
    assert!(!accepts("*.>", "a"));
    // A tail wildcard that is not the last segment is an ordinary segment.
    assert!(!accepts(">.b", "a.b"));
    assert!(accepts(">.b", ">.b"));
}

#[test]
fn subjects_and_interests_compare_by_segments() {
    assert!(Subject::new("a.b").eq(&Subject::from_bytes(b"a.b")));
    assert!(!Subject::new("a.b").eq(&Subject::new("a.c")));
    assert!(Subject::new("a.b").clone().eq(&Subject::new("a.b")));
    assert!(Interest::new("a.*").eq(&Interest::from_bytes(b"a.*")));
    assert!(!Interest::new("a.*").eq(&Interest::new("a.>")));
    assert!(Interest::new("a.*").clone().eq(&Interest::new("a.*")));
}

#[test]
fn index_finds_subscribers_in_address_order() {
    let mut index = InterestMap::new();
    index.insert(Interest::new("orders.>"), EndpointAddr::new(30));
    index.insert(Interest::new("orders.eu.*"), EndpointAddr::new(10));
    index.insert(Interest::new("invoices.*"), EndpointAddr::new(20));
    index.insert(Interest::new("orders.us.*"), EndpointAddr::new(20));
    assert_eq!(found(&index, "orders.eu.new"), vec![10, 30]);
    assert_eq!(found(&index, "orders.us.new"), vec![20, 30]);
    assert_eq!(found(&index, "invoices.paid"), vec![20]);
    assert_eq!(found(&index, "payments"), Vec::<u128>::new());
    let both = index.find_any(&vec![Subject::new("invoices.paid"), Subject::new("orders.eu.new")]);
    assert_eq!(both.iter().map(|ep| ep.bits).collect::<Vec<_>>(), vec![10, 20, 30]);
    assert!(index.is_valid());
}

#[test]
fn index_insert_is_idempotent() {
    let mut index = InterestMap::new();
    index.insert(Interest::new("a.*"), EndpointAddr::new(1));
    index.insert(Interest::new("a.*"), EndpointAddr::new(1));
    index.insert(Interest::new("b"), EndpointAddr::new(1));
    index.insert(Interest::new("a.*"), EndpointAddr::new(1));
    let own = index.interest_of(EndpointAddr::new(1)).unwrap();
    assert_eq!(own.len(), 2);
    assert!(own[0].eq(&Interest::new("a.*")));
    assert!(own[1].eq(&Interest::new("b")));
    assert_eq!(found(&index, "a.x"), vec![1]);
}

#[test]
fn index_delete_forgets_the_endpoint() {
    let mut index = InterestMap::new();
    index.insert(Interest::new("a"), EndpointAddr::new(1));
    index.insert(Interest::new("a"), EndpointAddr::new(2));
    index.insert(Interest::new("b"), EndpointAddr::new(1));
    index.delete(EndpointAddr::new(1));
    assert!(index.interest_of(EndpointAddr::new(1)).is_none());
    assert_eq!(found(&index, "a"), vec![2]);
    assert_eq!(found(&index, "b"), Vec::<u128>::new());
    index.delete(EndpointAddr::new(7));
    assert_eq!(found(&index, "a"), vec![2]);
}

#[test]
fn index_copy_is_deep() {
    let mut index = InterestMap::new();
    index.insert(Interest::new("a"), EndpointAddr::new(1));
    let copy = index.duplicate();
    index.insert(Interest::new("b"), EndpointAddr::new(1));
    index.delete(EndpointAddr::new(1));
    assert_eq!(found(&copy, "a"), vec![1]);
    assert_eq!(copy.interest_of(EndpointAddr::new(1)).unwrap().len(), 1);
}

#[test]
fn index_wraps_a_table_of_interests() {
    let mut raw = asteroid_mq::protocol::table::EpTable::new();
    raw.insert(EndpointAddr::new(2), vec![Interest::new("a.*")]);
    raw.insert(EndpointAddr::new(1), vec![Interest::new("a.b"), Interest::new("c")]);
    let index = InterestMap::from_raw(raw);
    assert!(index.is_valid());
    assert_eq!(found(&index, "a.b"), vec![1, 2]);
    assert_eq!(found(&index, "c"), vec![1]);
}

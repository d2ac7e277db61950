use asteroid_mq::protocol::endpoint::{EndpointAddr, MessageId};
use asteroid_mq::protocol::ring::{build_ring, pick_push_target, stands_before};
use asteroid_mq::protocol::table::EpTable;
use asteroid_mq::util::{bytes_eq, bytes_to_vec, hash64};

fn keys_of(table: &EpTable<u32>) -> Vec<u128> {
    (0..table.len()).map(|i| table.key_at(i).bits).collect()
}

#[test]
fn table_keeps_rows_in_address_order() {
    let mut table: EpTable<u32> = EpTable::new();
    assert_eq!(table.insert(EndpointAddr::new(30), 3), None);
    assert_eq!(table.insert(EndpointAddr::new(10), 1), None);
    assert_eq!(table.insert(EndpointAddr::new(20), 2), None);
    assert_eq!(keys_of(&table), vec![10, 20, 30]);
    assert_eq!(*table.value_at(1), 2);
    assert!(table.is_ordered());
    assert_eq!(table.position(EndpointAddr::new(20)), Some(1));
    assert_eq!(table.position(EndpointAddr::new(25)), None);
}

#[test]
fn table_insert_replaces_and_returns_the_old_value() {
    let mut table: EpTable<u32> = EpTable::new();
    table.insert(EndpointAddr::new(10), 1);
    table.insert(EndpointAddr::new(20), 2);
    assert_eq!(table.insert(EndpointAddr::new(10), 7), Some(1));
    assert_eq!(table.len(), 2);
    assert_eq!(table.get(EndpointAddr::new(10)).copied(), Some(7));
    assert_eq!(table.get(EndpointAddr::new(20)).copied(), Some(2));
    assert!(table.contains_key(EndpointAddr::new(20)));
    assert!(!table.contains_key(EndpointAddr::new(30)));
}

#[test]
fn table_remove_returns_the_value() {
    let mut table: EpTable<u32> = EpTable::new();
    table.insert(EndpointAddr::new(10), 1);
    table.insert(EndpointAddr::new(20), 2);
    table.insert(EndpointAddr::new(30), 3);
    assert_eq!(table.remove(EndpointAddr::new(20)), Some(2));
    assert_eq!(table.remove(EndpointAddr::new(20)), None);
    assert_eq!(keys_of(&table), vec![10, 30]);
    table.set_value_at(1, 9);
    assert_eq!(table.get(EndpointAddr::new(30)).copied(), Some(9));
    *table.value_at_mut(0) += 5;
    assert_eq!(table.get(EndpointAddr::new(10)).copied(), Some(6));
}

#[test]
fn tables_compare_their_keys() {
    let mut numbers: EpTable<u32> = EpTable::new();
    let mut flags: EpTable<bool> = EpTable::new();
    assert!(numbers.same_keys(&flags));
    numbers.insert(EndpointAddr::new(1), 1);
    assert!(!numbers.same_keys(&flags));
    flags.insert(EndpointAddr::new(2), true);
    assert!(!numbers.same_keys(&flags));
    flags.insert(EndpointAddr::new(1), false);
    numbers.insert(EndpointAddr::new(2), 2);
    assert!(numbers.same_keys(&flags));
    let copy = numbers.duplicate();
    numbers.remove(EndpointAddr::new(1));
    assert_eq!(keys_of(&copy), vec![1, 2]);
}

#[test]
fn digest_folds_the_two_halves() {
    assert_eq!(hash64(0), 0);
    assert_eq!(hash64(0x22), 0x22);
    assert_eq!(hash64(1u128 << 64), 1);
    assert_eq!(hash64((5u128 << 64) | 3), 6);
    assert_eq!(hash64(u128::MAX), 0);
    assert_eq!(EndpointAddr::new((0xffu128 << 64) | 0x0f).hash64(), 0xf0);
    assert_eq!(MessageId::new((1u128 << 100) | 1).hash64(), (1u64 << 36) | 1);
}

#[test]
fn ring_orders_by_digest_then_address() {
    // 0x0f and (0x0e << 64 | 0x01) have the digest 0x0f; they stand in
    // address order.  0x10 has a larger digest, (1 << 64 | 1) the digest 0.
    let twin = (0x0eu128 << 64) | 0x01;
    let low = (1u128 << 64) | 1;
    let members = vec![
        EndpointAddr::new(0x10),
        EndpointAddr::new(twin),
        EndpointAddr::new(0x0f),
        EndpointAddr::new(low),
        EndpointAddr::new(0x0f),
    ];
    let ring: Vec<u128> = build_ring(&members).iter().map(|ep| ep.bits).collect();
    assert_eq!(ring, vec![low, 0x0f, twin, 0x10]);
    assert!(stands_before(EndpointAddr::new(0x0f), EndpointAddr::new(twin)));
    assert!(!stands_before(EndpointAddr::new(twin), EndpointAddr::new(0x0f)));
    assert!(!stands_before(EndpointAddr::new(0x0f), EndpointAddr::new(0x0f)));
}

#[test]
fn ring_pick_is_the_digest_modulo_the_size() {
    let members = vec![EndpointAddr::new(0x30), EndpointAddr::new(0x10), EndpointAddr::new(0x20)];
    assert_eq!(pick_push_target(&members, MessageId::new(0x22)), Some(EndpointAddr::new(0x20)));
    assert_eq!(pick_push_target(&members, MessageId::new(0x21)), Some(EndpointAddr::new(0x10)));
    assert_eq!(pick_push_target(&members, MessageId::new(0x23)), Some(EndpointAddr::new(0x30)));
    assert_eq!(pick_push_target(&Vec::new(), MessageId::new(0x23)), None);
    // The order in which the candidates are given does not matter.
    let shuffled = vec![EndpointAddr::new(0x20), EndpointAddr::new(0x30), EndpointAddr::new(0x10)];
    for id in 0..16u128 {
        assert_eq!(
            pick_push_target(&members, MessageId::new(id)),
            pick_push_target(&shuffled, MessageId::new(id))
        );
    }
}

#[test]
fn byte_helpers_compare_and_copy() {
    assert!(bytes_eq(b"abc", b"abc"));
    assert!(!bytes_eq(b"abc", b"abd"));
    assert!(!bytes_eq(b"abc", b"ab"));
    assert!(bytes_eq(b"", b""));
    assert_eq!(bytes_to_vec(b"xyz"), b"xyz".to_vec());
}

#[test]
fn snowflake_packs_time_node_and_sequence() {
    use_snowflake(0, 0, 0, 0);
    use_snowflake(1, 0, 0, 1u128 << 64);
    use_snowflake(0, 1, 0, 1u128 << 32);
    use_snowflake(0, 0, 1, 1);
    use_snowflake(0x1122, 0x33, 0x44, (0x1122u128 << 64) | (0x33u128 << 32) | 0x44);
    use_snowflake(u64::MAX, u32::MAX, u32::MAX, u128::MAX);
}

fn use_snowflake(seconds: u64, node: u32, sequence: u32, expected: u128) {
    assert_eq!(asteroid_mq::util::snowflake(seconds, node, sequence), expected);
}

use ordhash::OrdHash;

#[test]
fn empty_structure_signals_absence_everywhere() {
    let mut m: OrdHash<u32, &str> = OrdHash::new();
    assert_eq!(m.get(&7), None);
    assert_eq!(m.pop_front(), None);
    assert_eq!(m.peek_front(), None);
    assert_eq!(m.mark_unused(&7), None);
    assert_eq!(m.refresh(&7), None);
    assert!(m.is_empty());
    assert_eq!(m.len(), 0);
    assert_eq!(m.used_entries(), 0);
}

#[test]
fn len_counts_live_keys_through_mixed_operations() {
    let mut m = OrdHash::new();
    m.push_back(1u64, 'a');
    m.push_back(2u64, 'b');
    m.push_back(3u64, 'c');
    assert_eq!(m.len(), 3);
    assert_eq!(m.mark_unused(&2), Some(&'b'));
    assert_eq!(m.len(), 2);
    assert_eq!(m.mark_unused(&2), None);
    assert_eq!(m.len(), 2);
    assert_eq!(m.refresh(&2), Some(&'b'));
    assert_eq!(m.len(), 3);
    assert_eq!(m.refresh(&2), Some(&'b'));
    assert_eq!(m.len(), 3);
    assert_eq!(m.pop_front(), Some((1, 'a')));
    assert_eq!(m.len(), 2);
}

#[test]
fn used_entries_equals_len_without_stale_tags() {
    let mut m = OrdHash::new();
    m.push_back(5i64, 50);
    m.push_back(6i64, 60);
    assert_eq!(m.used_entries(), m.len());
    m.push_back(5i64, 51);
    assert_eq!(m.used_entries(), 3);
    assert_eq!(m.len(), 2);
    assert!(m.used_entries() > m.len());
}

#[test]
fn pops_come_out_in_stamp_order_without_repeats() {
    let mut m = OrdHash::new();
    m.push_back(1, "a");
    m.push_back(2, "b");
    m.push_back(3, "c");
    m.refresh(&1);
    m.push_back(2, "b2");
    let mut keys = Vec::new();
    while let Some((k, _)) = m.pop_front() {
        keys.push(k);
    }
    assert_eq!(keys, vec![3, 1, 2]);
    assert!(m.is_empty());
    assert_eq!(m.used_entries(), 0);
}

#[test]
fn disable_then_refresh_keeps_value_and_moves_key_back() {
    let mut m = OrdHash::new();
    m.push_back(1, "one");
    m.push_back(2, "two");
    m.push_back(3, "three");
    assert_eq!(m.mark_unused(&1), Some(&"one"));
    assert_eq!(m.refresh(&1), Some(&"one"));
    assert_eq!(m.get(&1), Some(&"one"));
    assert_eq!(m.pop_front(), Some((2, "two")));
    assert_eq!(m.pop_front(), Some((3, "three")));
    assert_eq!(m.pop_front(), Some((1, "one")));
    assert_eq!(m.pop_front(), None);
}

#[test]
fn push_back_on_live_key_adds_one_tag_and_moves_it_back() {
    let mut m = OrdHash::new();
    m.push_back(1, "one");
    m.push_back(2, "two");
    let (len, used) = (m.len(), m.used_entries());
    m.push_back(1, "uno");
    assert_eq!(m.len(), len);
    assert_eq!(m.used_entries(), used + 1);
    assert_eq!(m.peek_front(), Some((&2, &"two")));
    assert_eq!(m.pop_front(), Some((2, "two")));
    assert_eq!(m.pop_front(), Some((1, "uno")));
}

#[test]
fn push_back_on_disabled_key_makes_it_live_again() {
    let mut m = OrdHash::new();
    m.push_back(1, "one");
    m.push_back(2, "two");
    assert_eq!(m.mark_unused(&1), Some(&"one"));
    assert_eq!(m.len(), 1);
    m.push_back(1, "again");
    assert_eq!(m.len(), 2);
    assert_eq!(m.get(&1), Some(&"again"));
    assert_eq!(m.pop_front(), Some((2, "two")));
    assert_eq!(m.pop_front(), Some((1, "again")));
    assert!(m.is_empty());
}

#[test]
fn peek_keeps_stale_tags_and_pop_discards_them() {
    let mut m = OrdHash::new();
    for k in 0..10u32 {
        m.push_back(k, k * 10);
    }
    for k in 0..9u32 {
        m.mark_unused(&k);
    }
    for _ in 0..5 {
        assert_eq!(m.peek_front(), Some((&9, &90)));
        assert_eq!(m.used_entries(), 10);
    }
    assert_eq!(m.pop_front(), Some((9, 90)));
    assert_eq!(m.used_entries(), 0);
    assert_eq!(m.len(), 0);
    assert_eq!(m.pop_front(), None);
}

#[test]
fn disabled_key_is_never_popped() {
    let mut m = OrdHash::new();
    m.push_back(1u8, 1u8);
    m.mark_unused(&1);
    assert_eq!(m.peek_front(), None);
    assert_eq!(m.pop_front(), None);
    assert_eq!(m.used_entries(), 0);
    assert_eq!(m.refresh(&1), Some(&1));
    assert_eq!(m.pop_front(), Some((1, 1)));
    assert_eq!(m.refresh(&1), None);
}

#[test]
fn fresh_map_can_stamp_and_is_empty_matches_len() {
    let mut m = OrdHash::new();
    assert!(m.can_stamp());
    assert_eq!(m.is_empty(), m.len() == 0);
    m.push_back(4u16, "four");
    assert!(m.can_stamp());
    assert_eq!(m.is_empty(), m.len() == 0);
    assert!(!m.is_empty());
    assert_eq!(m.peek_front().is_none(), m.len() == 0);
}

use one_brc::container::{bytes_equal, fnv1a, Container, TableError, ARRAY_SIZE};
use one_brc::station::StationAverage;

fn stats(table: &Container, key: &[u8]) -> Option<(i16, i16, u64, i64)> {
    table.get(key).map(|entry| (entry.min(), entry.max(), entry.count(), entry.running_total()))
}

#[test]
fn hash_matches_the_published_vectors() {
    assert_eq!(0xcbf29ce484222325, fnv1a(b""));
    assert_eq!(0xaf63dc4c8601ec8c, fnv1a(b"a"));
    assert_eq!(0x85944171f73967e8, fnv1a(b"foobar"));
}

#[test]
fn home_slot_is_the_hash_reduced_to_the_slots() {
    let table = Container::new();
    assert_eq!(ARRAY_SIZE, table.slots());
    assert_eq!((0x85944171f73967e8u64 % 1024) as usize, table.compute_index(b"foobar"));
    let small = Container::with_capacity(7);
    assert_eq!((0xaf63dc4c8601ec8cu64 % 7) as usize, small.compute_index(b"a"));
}

#[test]
fn bytes_compare_by_content() {
    assert!(bytes_equal(b"", b""));
    assert!(bytes_equal(b"abc", b"abc"));
    assert!(!bytes_equal(b"abc", b"abd"));
    assert!(!bytes_equal(b"abc", b"ab"));
    assert!(!bytes_equal(b"", b"a"));
}

#[test]
fn first_sighting_then_folding() {
    let mut table = Container::new();
    assert_eq!(0, table.len());
    assert_eq!(None, stats(&table, b"Tokyo"));
    assert_eq!(Ok(()), table.update(b"Tokyo", 234));
    assert_eq!(Some((234, 234, 1, 234)), stats(&table, b"Tokyo"));
    assert_eq!(Ok(()), table.update(b"Tokyo", 181));
    assert_eq!(Ok(()), table.update(b"Porto", 90));
    assert_eq!(Ok(()), table.update(b"Tokyo", 300));
    assert_eq!(Some((181, 300, 3, 715)), stats(&table, b"Tokyo"));
    assert_eq!(Some((90, 90, 1, 90)), stats(&table, b"Porto"));
    assert_eq!(None, stats(&table, b"Paris"));
    assert_eq!(2, table.len());
    assert_eq!(b"Tokyo", table.get(b"Tokyo").unwrap().name());
}

#[test]
fn keys_that_share_a_home_slot_keep_their_own_statistics() {
    // With two slots at least two of three keys start at the same slot.
    let mut table = Container::with_capacity(3);
    let keys: [&[u8]; 3] = [b"a", b"b", b"c"];
    for round in 0..5i16 {
        for (at, key) in keys.iter().enumerate() {
            assert_eq!(Ok(()), table.update(key, round * 10 + at as i16));
        }
    }
    for (at, key) in keys.iter().enumerate() {
        let at = at as i16;
        assert_eq!(Some((at, 40 + at, 5, (100 + 5 * at) as i64)), stats(&table, key));
    }
    assert_eq!(3, table.len());
}

#[test]
fn many_keys_in_a_small_table() {
    let capacity = 64;
    let mut table = Container::with_capacity(capacity);
    for round in 0..3 {
        for k in 0..capacity {
            let key = format!("station-{}", k);
            assert_eq!(Ok(()), table.update(key.as_bytes(), (k as i16) - round));
        }
    }
    assert_eq!(capacity, table.len());
    for k in 0..capacity {
        let key = format!("station-{}", k);
        let k = k as i16;
        assert_eq!(Some((k - 2, k, 3, (3 * k - 3) as i64)), stats(&table, key.as_bytes()));
    }
}

#[test]
fn a_new_key_in_a_full_table_is_refused() {
    let mut table = Container::with_capacity(2);
    assert_eq!(Ok(()), table.update(b"one", 1));
    assert_eq!(Ok(()), table.update(b"two", 2));
    assert_eq!(Err(TableError::Full), table.update(b"three", 3));
    assert_eq!(2, table.len());
    assert_eq!(None, stats(&table, b"three"));
    // Known keys are still taken.
    assert_eq!(Ok(()), table.update(b"one", 5));
    assert_eq!(Some((1, 5, 2, 6)), stats(&table, b"one"));
    assert_eq!(Some((2, 2, 1, 2)), stats(&table, b"two"));
}

#[test]
fn an_overflowing_count_is_refused() {
    let mut table = Container::with_capacity(4);
    let heavy = StationAverage::from_parts(b"k", -1, 1, u64::MAX, 0);
    assert_eq!(Ok(()), table.absorb(&heavy));
    assert_eq!(Err(TableError::Overflow), table.update(b"k", 0));
    assert_eq!(Some((-1, 1, u64::MAX, 0)), stats(&table, b"k"));
    assert_eq!(Ok(()), table.update(b"other", 0));
}

#[test]
fn absorbing_an_entry_that_saw_nothing_changes_nothing() {
    let mut table = Container::with_capacity(1);
    assert_eq!(Ok(()), table.absorb(&StationAverage::default()));
    assert_eq!(0, table.len());
    assert_eq!(Ok(()), table.update(b"k", 3));
    assert_eq!(Ok(()), table.absorb(&StationAverage::default()));
    assert_eq!(1, table.len());
}

fn table_of(readings: &[(&[u8], i16)], capacity: usize) -> Container {
    let mut table = Container::with_capacity(capacity);
    for (key, value) in readings {
        assert_eq!(Ok(()), table.update(key, *value));
    }
    table
}

#[test]
fn merge_equals_the_table_of_all_readings() {
    let readings: [(&[u8], i16); 9] = [
        (b"Tokyo", 234),
        (b"Porto", 90),
        (b"Tokyo", 181),
        (b"Oslo", -37),
        (b"Tokyo", 300),
        (b"Oslo", -120),
        (b"Lima", 0),
        (b"Porto", 95),
        (b"Oslo", 12),
    ];
    let whole = table_of(&readings, 16);
    for cut in 0..=readings.len() {
        let left = table_of(&readings[..cut], 16);
        let right = table_of(&readings[cut..], 16);
        let mut one_way = Container::with_capacity(16);
        assert_eq!(Ok(()), one_way.merge(&left));
        assert_eq!(Ok(()), one_way.merge(&right));
        let mut other_way = Container::with_capacity(16);
        assert_eq!(Ok(()), other_way.merge(&right));
        assert_eq!(Ok(()), other_way.merge(&left));
        for merged in [&one_way, &other_way] {
            assert_eq!(whole.len(), merged.len());
            for key in [&b"Tokyo"[..], b"Porto", b"Oslo", b"Lima", b"Nowhere"] {
                assert_eq!(stats(&whole, key), stats(merged, key));
            }
        }
    }
    assert_eq!(Some((181, 300, 3, 715)), stats(&whole, b"Tokyo"));
    assert_eq!(Some((-120, 12, 3, -145)), stats(&whole, b"Oslo"));
}

#[test]
fn merge_of_interleaved_parts_in_any_grouping() {
    let readings: [(&[u8], i16); 8] = [
        (b"a", 1),
        (b"b", 2),
        (b"a", 3),
        (b"c", 4),
        (b"b", 5),
        (b"a", 6),
        (b"c", 7),
        (b"d", 8),
    ];
    let whole = table_of(&readings, 8);
    let mut parts: Vec<Vec<(&[u8], i16)>> = vec![Vec::new(), Vec::new(), Vec::new()];
    for (at, reading) in readings.iter().enumerate() {
        parts[at % 3].push(*reading);
    }
    let tables: Vec<Container> = parts.iter().map(|part| table_of(part, 8)).collect();
    // (0 + 1) + 2
    let mut grouped_left = Container::with_capacity(8);
    grouped_left.merge(&tables[0]).unwrap();
    grouped_left.merge(&tables[1]).unwrap();
    grouped_left.merge(&tables[2]).unwrap();
    // 2 + (1 + 0), the inner merge made first
    let mut inner = Container::with_capacity(8);
    inner.merge(&tables[1]).unwrap();
    inner.merge(&tables[0]).unwrap();
    let mut grouped_right = Container::with_capacity(8);
    grouped_right.merge(&tables[2]).unwrap();
    grouped_right.merge(&inner).unwrap();
    for key in [&b"a"[..], b"b", b"c", b"d"] {
        assert_eq!(stats(&whole, key), stats(&grouped_left, key));
        assert_eq!(stats(&whole, key), stats(&grouped_right, key));
    }
    assert_eq!(Some((1, 6, 3, 10)), stats(&whole, b"a"));
}

#[test]
fn merge_that_does_not_fit_is_refused() {
    let left = table_of(&[(b"a", 1), (b"b", 2)], 4);
    let right = table_of(&[(b"b", 3), (b"c", 4), (b"d", 5)], 4);
    let mut small = Container::with_capacity(3);
    assert_eq!(Ok(()), small.merge(&left));
    assert_eq!(Err(TableError::Full), small.merge(&right));
    let mut fits = Container::with_capacity(4);
    assert_eq!(Ok(()), fits.merge(&left));
    assert_eq!(Ok(()), fits.merge(&right));
    assert_eq!(Some((2, 3, 2, 5)), stats(&fits, b"b"));
    assert_eq!(4, fits.len());
}

#[test]
fn merge_that_overflows_is_refused() {
    let mut left = Container::with_capacity(2);
    left.absorb(&StationAverage::from_parts(b"k", 0, 0, u64::MAX - 1, 0)).unwrap();
    let mut right = Container::with_capacity(2);
    right.absorb(&StationAverage::from_parts(b"k", 0, 0, 2, 0)).unwrap();
    assert_eq!(Err(TableError::Overflow), left.merge(&right));
    assert_eq!(Some((0, 0, u64::MAX - 1, 0)), stats(&left, b"k"));
}

#[test]
fn entry_at_walks_the_slots() {
    let table = table_of(&[(b"x", 1), (b"y", 2), (b"x", 3)], 8);
    let mut seen: Vec<Vec<u8>> = Vec::new();
    for slot in 0..table.slots() {
        if let Some(entry) = table.entry_at(slot) {
            seen.push(entry.name().to_vec());
        }
    }
    seen.sort();
    assert_eq!(vec![b"x".to_vec(), b"y".to_vec()], seen);
}

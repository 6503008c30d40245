use one_brc::container::Container;
use one_brc::cursor::Cursor;
use one_brc::reader::{process_chunk, scan_records, worker};
use one_brc::reducer::{reduce, sorted_entries, write_lines};
use std::collections::BTreeMap;

struct Lcg(u64);

impl Lcg {
    fn next(&mut self) -> u64 {
        self.0 = self.0.wrapping_mul(6364136223846793005).wrapping_add(1442695040888963407);
        self.0 >> 33
    }

    fn below(&mut self, bound: u64) -> u64 {
        self.next() % bound
    }
}

fn tenths_text(tenths: i64) -> String {
    let sign = if tenths < 0 { "-" } else { "" };
    format!("{}{}.{}", sign, tenths.abs() / 10, tenths.abs() % 10)
}

fn mean_text(total: i64, count: u64) -> String {
    let size = (total.unsigned_abs() as u128) * 1000 / (count as u128);
    let sign = if total < 0 && size > 0 { "-" } else { "" };
    let mut digits = format!("{:04}", size % 10000);
    while digits.len() > 1 && digits.ends_with('0') {
        digits.pop();
    }
    format!("{}{}.{}", sign, size / 10000, digits)
}

/// Input with good lines, broken lines and empty lines, and what a plain
/// reading of it gives.
fn input(seed: u64, lines: usize, keys: u64) -> (Vec<u8>, Vec<u8>) {
    let mut random = Lcg(seed);
    let mut data: Vec<u8> = Vec::new();
    let mut seen: BTreeMap<Vec<u8>, (i64, i64, u64, i64)> = BTreeMap::new();
    for _ in 0..lines {
        match random.below(12) {
            0 => data.extend_from_slice(b"\n"),
            1 => data.extend_from_slice(b"no separator here\n"),
            2 => data.extend_from_slice(b"key;12\n"),
            3 => data.extend_from_slice(b";1.0\n"),
            _ => {
                let which = random.below(keys);
                let mut key = format!("St.{}", which).into_bytes();
                if which % 3 == 0 {
                    key.extend_from_slice("-Ünïcödé;x".as_bytes());
                }
                let tenths = random.below(1999) as i64 - 999;
                data.extend_from_slice(&key);
                data.push(b';');
                data.extend_from_slice(tenths_text(tenths).as_bytes());
                data.push(b'\n');
                let entry = seen.entry(key).or_insert((tenths, tenths, 0, 0));
                entry.0 = entry.0.min(tenths);
                entry.1 = entry.1.max(tenths);
                entry.2 += 1;
                entry.3 += tenths;
            }
        }
    }
    if random.below(2) == 0 {
        data.extend_from_slice(b"cut off;1.");
    }
    let mut expected: Vec<u8> = Vec::new();
    for (key, (min, max, count, total)) in seen {
        expected.extend_from_slice(&key);
        expected.extend_from_slice(
            format!("={}/{}/{}\n", tenths_text(min), mean_text(total, count), tenths_text(max))
                .as_bytes(),
        );
    }
    (data, expected)
}

#[test]
fn one_pass_agrees_with_a_plain_reading() {
    for seed in 0..20 {
        let (data, expected) = input(seed, 300, 40);
        let mut table = Container::with_capacity(64);
        let mut offsets: Vec<Option<usize>> = vec![None; 1 + (seed as usize % 50)];
        assert_eq!(Ok(()), scan_records(&data, &mut table, &mut offsets));
        assert_eq!(expected, write_lines(&sorted_entries(&table)), "seed {}", seed);
    }
}

#[test]
fn chunks_in_any_order_agree_with_a_plain_reading() {
    for seed in 100..115u64 {
        let (data, expected) = input(seed, 200, 25);
        let mut random = Lcg(seed);
        let chunk_size = 1 + random.below(300) as usize;
        let mut starts: Vec<usize> = (0..data.len()).step_by(chunk_size).collect();
        // Shuffle the chunks and deal them out to three tables.
        for at in (1..starts.len()).rev() {
            starts.swap(at, random.below(at as u64 + 1) as usize);
        }
        let mut tables: Vec<Container> =
            (0..3).map(|_| Container::with_capacity(32)).collect();
        let mut offsets: Vec<Option<usize>> = vec![None; 7];
        for (at, c) in starts.iter().enumerate() {
            assert_eq!(
                Ok(()),
                process_chunk(&data, *c, chunk_size, &mut tables[at % 3], &mut offsets)
            );
        }
        assert_eq!(Ok(expected), reduce(&tables, 32), "seed {}", seed);
    }
}

#[test]
fn a_worker_agrees_with_a_plain_reading() {
    for seed in 200..210u64 {
        let (data, expected) = input(seed, 250, 30);
        let chunk_size = 1 + (seed as usize * 37) % 500;
        let cursor = Cursor::new();
        let mut table = Container::with_capacity(32);
        let mut offsets: Vec<Option<usize>> = vec![None; 16];
        let mut claims: Vec<usize> = Vec::new();
        assert_eq!(
            Ok(()),
            worker(&data, &cursor, chunk_size, &mut table, &mut offsets, &mut claims)
        );
        assert_eq!(expected, write_lines(&sorted_entries(&table)), "seed {}", seed);
    }
}

#[test]
fn the_default_table_holds_a_thousand_keys() {
    let (data, expected) = input(7, 20000, 1000);
    let mut table = Container::new();
    let mut offsets: Vec<Option<usize>> = vec![None; 1 << 16];
    assert_eq!(Ok(()), scan_records(&data, &mut table, &mut offsets));
    assert!(table.len() > 900);
    assert_eq!(expected, write_lines(&sorted_entries(&table)));
}

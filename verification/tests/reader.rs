use one_brc::container::{Container, TableError};
use one_brc::cursor::Cursor;
use one_brc::reader::{
    align_forward, find_start_end_bounds, get_sep, process_chunk, record_line, scan_records,
    split_record, worker,
};
use one_brc::reducer::{reduce, sorted_entries, write_lines};

const SAMPLE: &[u8] = b"Tokyo;23.4\nTokyo;18.1\nPorto;9.0\nTokyo;30.0\n";

fn report(table: &Container) -> Vec<u8> {
    write_lines(&sorted_entries(table))
}

fn sequential(data: &[u8]) -> Vec<u8> {
    let mut table = Container::with_capacity(64);
    let mut offsets: Vec<Option<usize>> = vec![None; 1 << 16];
    assert_eq!(Ok(()), scan_records(data, &mut table, &mut offsets));
    report(&table)
}

fn long_input() -> Vec<u8> {
    let names = ["Tokyo", "Porto", "Oslo", "Lima", "Ulaanbaatar", "Xi'an", "Z"];
    let mut data: Vec<u8> = Vec::new();
    for i in 0..400i32 {
        let name = names[(i * 7 % 11) as usize % names.len()];
        let tenths = (i * 37) % 1999 - 999;
        let sign = if tenths < 0 { "-" } else { "" };
        let line = format!("{};{}{}.{}\n", name, sign, tenths.abs() / 10, tenths.abs() % 10);
        data.extend_from_slice(line.as_bytes());
    }
    data
}

#[test]
fn example_lines_come_out_sorted() {
    assert_eq!(
        b"Porto=9.0/9.0/9.0\nTokyo=18.1/23.8333/30.0\n".to_vec(),
        sequential(SAMPLE)
    );
}

#[test]
fn separator_is_the_last_semicolon() {
    assert_eq!(Some(5), get_sep(b"Tokyo;23.4"));
    assert_eq!(Some(5), get_sep(b"Porto;9.0"));
    assert_eq!(Some(3), get_sep(b"a;b;1.0"));
    assert_eq!(Some(0), get_sep(b";1.0"));
    assert_eq!(Some(3), get_sep(b"abc;"));
    assert_eq!(None, get_sep(b"no separator"));
    assert_eq!(None, get_sep(b""));
}

#[test]
fn lines_split_into_key_and_value() {
    assert_eq!(Some((5, 234)), split_record(b"Tokyo;23.4"));
    assert_eq!(Some((5, -37)), split_record(b"Tokyo;-3.7"));
    assert_eq!(Some((3, 10)), split_record(b"a;b;1.0"));
    assert_eq!(None, split_record(b"Tokyo23.4"));
    assert_eq!(None, split_record(b";23.4"));
    assert_eq!(None, split_record(b"Tokyo;"));
    assert_eq!(None, split_record(b"Tokyo;23"));
    assert_eq!(None, split_record(b"Tokyo;23.45"));
    assert_eq!(None, split_record(b"Tokyo;abc"));
    assert_eq!(None, split_record(b"Tokyo;9999.9"));
    assert_eq!(None, split_record(b""));
    let mut long = vec![b'k'; 100];
    long.extend_from_slice(b";1.0");
    assert_eq!(Some((100, 10)), split_record(&long));
    let mut too_long = vec![b'k'; 101];
    too_long.extend_from_slice(b";1.0");
    assert_eq!(None, split_record(&too_long));
}

#[test]
fn lines_that_record_nothing_are_skipped() {
    let mut table = Container::with_capacity(4);
    assert_eq!(Ok(()), record_line(&mut table, b"broken"));
    assert_eq!(Ok(()), record_line(&mut table, b""));
    assert_eq!(Ok(()), record_line(&mut table, b"k;1.x"));
    assert_eq!(0, table.len());
    assert_eq!(Ok(()), record_line(&mut table, b"k;1.5"));
    assert_eq!(1, table.len());
    let data = b"Tokyo;23.4\nrubbish\n\nTokyo;18.1\n;1.0\nPorto;9.0\nTokyo;30.0\nPorto;1\n";
    assert_eq!(sequential(SAMPLE), sequential(data));
}

#[test]
fn a_last_line_without_delimiter_is_no_record() {
    assert_eq!(sequential(SAMPLE), sequential(b"Tokyo;23.4\nTokyo;18.1\nPorto;9.0\nTokyo;30.0\nOslo;1.0"));
    assert_eq!(Vec::<u8>::new(), sequential(b"Oslo;1.0"));
    assert_eq!(Vec::<u8>::new(), sequential(b""));
}

#[test]
fn chunk_starts_on_record_starts() {
    // offsets:       0         10 11        21 22       31 32        42
    assert_eq!(0, align_forward(SAMPLE, 0));
    assert_eq!(11, align_forward(SAMPLE, 1));
    assert_eq!(11, align_forward(SAMPLE, 10));
    assert_eq!(11, align_forward(SAMPLE, 11));
    assert_eq!(22, align_forward(SAMPLE, 12));
    assert_eq!(32, align_forward(SAMPLE, 32));
    assert_eq!(43, align_forward(SAMPLE, 33));
    assert_eq!(43, align_forward(SAMPLE, 42));
    assert_eq!(43, align_forward(SAMPLE, 43));
    assert_eq!(2, align_forward(b"a\n", 1));
    assert_eq!(3, align_forward(b"abc", 1));
    assert_eq!(0, align_forward(b"", 0));
}

#[test]
fn chunk_bounds_follow_the_nominal_range() {
    assert_eq!((0, 11), find_start_end_bounds(SAMPLE, 0, 5));
    assert_eq!((11, 11), find_start_end_bounds(SAMPLE, 5, 5));
    assert_eq!((11, 22), find_start_end_bounds(SAMPLE, 10, 5));
    assert_eq!((0, 43), find_start_end_bounds(SAMPLE, 0, 1000));
    assert_eq!((0, 43), find_start_end_bounds(SAMPLE, 0, usize::MAX));
    assert_eq!((43, 43), find_start_end_bounds(SAMPLE, 43, 7));
    assert_eq!((22, 32), find_start_end_bounds(SAMPLE, 22, 10));
    assert_eq!((0, 0), find_start_end_bounds(SAMPLE, 0, 0));
}

fn chunked(data: &[u8], chunk_size: usize, buffer: usize, backwards: bool) -> Vec<u8> {
    let mut starts: Vec<usize> = (0..data.len()).step_by(chunk_size).collect();
    if backwards {
        starts.reverse();
    }
    let mut tables: Vec<Container> = Vec::new();
    let mut offsets: Vec<Option<usize>> = vec![None; buffer];
    for c in starts {
        let mut table = Container::with_capacity(64);
        assert_eq!(Ok(()), process_chunk(data, c, chunk_size, &mut table, &mut offsets));
        tables.push(table);
    }
    reduce(&tables, 64).unwrap()
}

#[test]
fn any_chunk_size_gives_what_one_pass_gives() {
    let expected = sequential(SAMPLE);
    for chunk_size in 1..=SAMPLE.len() + 2 {
        assert_eq!(expected, chunked(SAMPLE, chunk_size, 8, false), "size {}", chunk_size);
        assert_eq!(expected, chunked(SAMPLE, chunk_size, 1, true), "size {}", chunk_size);
    }
}

#[test]
fn long_input_in_chunks_of_many_sizes() {
    let data = long_input();
    let expected = sequential(&data);
    assert!(expected.starts_with(b"Lima="));
    for chunk_size in [1, 2, 3, 7, 16, 17, 64, 100, 1000, 4096, data.len(), data.len() + 1] {
        assert_eq!(expected, chunked(&data, chunk_size, 5, false), "size {}", chunk_size);
        assert_eq!(expected, chunked(&data, chunk_size, 1000, true), "size {}", chunk_size);
    }
}

#[test]
fn a_small_offset_buffer_loses_nothing() {
    let data = long_input();
    let expected = sequential(&data);
    for buffer in [1, 2, 3, 15, 16, 17, 399, 400, 401] {
        let mut table = Container::with_capacity(64);
        let mut offsets: Vec<Option<usize>> = vec![None; buffer];
        assert_eq!(Ok(()), scan_records(&data, &mut table, &mut offsets));
        assert_eq!(buffer, offsets.len());
        assert_eq!(expected, report(&table));
    }
}

#[test]
fn a_boundary_on_a_delimiter_neither_doubles_nor_drops() {
    let expected = sequential(SAMPLE);
    // Byte 10 is the first delimiter, byte 11 the first byte behind it.
    for cut in [10, 11, 21, 22, 31, 32, 42] {
        let mut offsets: Vec<Option<usize>> = vec![None; 8];
        let mut first = Container::with_capacity(8);
        let mut second = Container::with_capacity(8);
        assert_eq!(Ok(()), process_chunk(SAMPLE, 0, cut, &mut first, &mut offsets));
        assert_eq!(Ok(()), process_chunk(SAMPLE, cut, SAMPLE.len(), &mut second, &mut offsets));
        let sizes = first.get(b"Tokyo").map_or(0, |e| e.count())
            + second.get(b"Tokyo").map_or(0, |e| e.count())
            + first.get(b"Porto").map_or(0, |e| e.count())
            + second.get(b"Porto").map_or(0, |e| e.count());
        assert_eq!(4, sizes, "cut {}", cut);
        assert_eq!(expected, reduce(&vec![first, second], 8).unwrap(), "cut {}", cut);
    }
    // A cut on the delimiter leaves the record that it ends with the first chunk.
    let mut offsets: Vec<Option<usize>> = vec![None; 8];
    let mut first = Container::with_capacity(8);
    process_chunk(SAMPLE, 0, 10, &mut first, &mut offsets).unwrap();
    assert_eq!(1, first.get(b"Tokyo").unwrap().count());
    let mut second = Container::with_capacity(8);
    process_chunk(SAMPLE, 10, 1, &mut second, &mut offsets).unwrap();
    assert_eq!(0, second.len());
    let mut third = Container::with_capacity(8);
    process_chunk(SAMPLE, 11, 1, &mut third, &mut offsets).unwrap();
    assert_eq!(181, third.get(b"Tokyo").unwrap().min());
    assert_eq!(1, third.len());
}

#[test]
fn empty_lines_at_a_boundary() {
    let data = b"a;1.0\n\n\nb;2.0\n\n";
    let expected = sequential(data);
    assert_eq!(b"a=1.0/1.0/1.0\nb=2.0/2.0/2.0\n".to_vec(), expected);
    for chunk_size in 1..=data.len() {
        assert_eq!(expected, chunked(data, chunk_size, 2, false));
    }
}

#[test]
fn a_scan_stops_at_the_first_reading_that_does_not_fit() {
    let data = b"a;1.0\nb;2.0\na;3.0\nc;4.0\na;5.0\n";
    let mut table = Container::with_capacity(2);
    let mut offsets: Vec<Option<usize>> = vec![None; 4];
    assert_eq!(Err(TableError::Full), scan_records(data, &mut table, &mut offsets));
    assert_eq!(2, table.len());
    assert_eq!(2, table.get(b"a").unwrap().count());
    assert_eq!(40, table.get(b"a").unwrap().running_total());
    assert_eq!(1, table.get(b"b").unwrap().count());
}

#[test]
fn one_worker_claims_every_chunk() {
    let data = long_input();
    let expected = sequential(&data);
    for chunk_size in [1, 13, 64, 500, data.len(), data.len() * 2] {
        let cursor = Cursor::new();
        let mut table = Container::with_capacity(64);
        let mut offsets: Vec<Option<usize>> = vec![None; 32];
        let mut claims: Vec<usize> = Vec::new();
        assert_eq!(
            Ok(()),
            worker(&data, &cursor, chunk_size, &mut table, &mut offsets, &mut claims)
        );
        // Every chunk start, and the claim beyond the input that ended the
        // scan, unless the worker had reached its budget before.
        let mut handed_out: Vec<usize> = (0..data.len()).step_by(chunk_size).collect();
        if data.len() % chunk_size == 0 {
            handed_out.push(data.len());
        }
        assert_eq!(handed_out, claims);
        assert!(claims.len() <= data.len() / chunk_size + 1);
        assert_eq!(expected, report(&table));
        // A second worker on the same cursor finds nothing left: its first
        // claim lies beyond the input.
        let mut late = Container::with_capacity(64);
        let mut log: Vec<usize> = vec![7];
        assert_eq!(
            Ok(()),
            worker(&data, &cursor, chunk_size, &mut late, &mut offsets, &mut log)
        );
        assert_eq!(vec![7, claims.len() * chunk_size], log);
        assert_eq!(0, late.len());
    }
}

#[test]
fn a_worker_on_empty_input_claims_once() {
    let cursor = Cursor::new();
    let mut table = Container::with_capacity(4);
    let mut offsets: Vec<Option<usize>> = vec![None; 4];
    let mut claims: Vec<usize> = Vec::new();
    assert_eq!(Ok(()), worker(b"", &cursor, 10, &mut table, &mut offsets, &mut claims));
    assert_eq!(vec![0], claims);
    assert_eq!(0, table.len());
    assert_eq!(Ok(()), worker(b"", &cursor, 10, &mut table, &mut offsets, &mut claims));
    assert_eq!(vec![0, 10], claims);
}

#[test]
fn the_cursor_hands_out_steps_of_the_size() {
    let cursor = Cursor::new();
    assert_eq!(0, cursor.claim(5));
    assert_eq!(5, cursor.claim(5));
    assert_eq!(10, cursor.claim(7));
    assert_eq!(17, cursor.claim(1));
}

#[test]
fn workers_that_share_the_claims_cover_the_input() {
    let data = long_input();
    let expected = sequential(&data);
    let chunk_size = 97;
    let cursor = Cursor::new();
    let mut tables: Vec<Container> = Vec::new();
    let mut all_claims: Vec<usize> = Vec::new();
    // Other claimants take every other chunk away from the first worker.
    let mut offsets: Vec<Option<usize>> = vec![None; 16];
    let mut other = Container::with_capacity(64);
    loop {
        let c = cursor.claim(chunk_size);
        if c >= data.len() {
            break;
        }
        all_claims.push(c);
        process_chunk(&data, c, chunk_size, &mut other, &mut offsets).unwrap();
        let mut table = Container::with_capacity(64);
        let c = cursor.claim(chunk_size);
        if c < data.len() {
            all_claims.push(c);
            process_chunk(&data, c, chunk_size, &mut table, &mut offsets).unwrap();
        }
        tables.push(table);
    }
    tables.push(other);
    let starts: Vec<usize> = (0..data.len()).step_by(chunk_size).collect();
    assert_eq!(starts, all_claims);
    assert_eq!(expected, reduce(&tables, 64).unwrap());
}

#[test]
fn a_worker_reports_what_its_table_cannot_take() {
    let data = b"a;1.0\nb;2.0\nc;3.0\n";
    let cursor = Cursor::new();
    let mut table = Container::with_capacity(2);
    let mut offsets: Vec<Option<usize>> = vec![None; 4];
    let mut claims: Vec<usize> = Vec::new();
    assert_eq!(
        Err(TableError::Full),
        worker(data, &cursor, 6, &mut table, &mut offsets, &mut claims)
    );
    assert_eq!(vec![0, 6, 12], claims);
    assert_eq!(2, table.len());
}

use one_brc::station::StationAverage;

fn average(station: &StationAverage) -> f32 {
    station.running_total() as f32 / 10.0 / station.count() as f32
}

#[test]
fn test_updating() {
    const EPS: f32 = 1e-6;
    let mut station_average = StationAverage::new("Test".as_bytes(), 100);
    assert_eq!(average(&station_average), 10.0);
    assert_eq!(station_average.max(), 100);
    assert_eq!(station_average.min(), 100);
    station_average.update_values(200);

    assert_eq!(station_average.min(), 100);
    assert_eq!(station_average.max(), 200);
    let expected_average = 15.0;
    // 20 + 10 / 2 = 15
    assert!((average(&station_average) - expected_average).abs() <= EPS);

    station_average.update_values(50);
    assert_eq!(station_average.min(), 50);
    assert_eq!(station_average.max(), 200);
    // (20 + 10 + 5) / 3 = 35/3 = 11 + 2/3
    let expected_average = 11.666666667;
    assert!((average(&station_average) - expected_average).abs() <= EPS);
}

#[test]
fn first_value_starts_all_fields() {
    let station = StationAverage::new(b"Oslo", -37);
    assert_eq!(b"Oslo", station.name());
    assert_eq!(-37, station.min());
    assert_eq!(-37, station.max());
    assert_eq!(1, station.count());
    assert_eq!(-37, station.running_total());
}

#[test]
fn default_entry_takes_its_first_value_whole() {
    let mut station = StationAverage::default();
    assert_eq!(0, station.count());
    assert_eq!(b"", station.name());
    assert!(station.update_values(-120));
    assert_eq!(-120, station.min());
    assert_eq!(-120, station.max());
    assert_eq!(1, station.count());
    assert_eq!(-120, station.running_total());
}

#[test]
fn statistics_do_not_depend_on_the_order() {
    let values: [i16; 6] = [234, -181, 300, 0, -999, 999];
    let orders: [[usize; 6]; 4] =
        [[0, 1, 2, 3, 4, 5], [5, 4, 3, 2, 1, 0], [2, 0, 5, 1, 4, 3], [3, 5, 0, 4, 2, 1]];
    for order in orders {
        let mut station = StationAverage::new(b"k", values[order[0]]);
        for at in &order[1..] {
            assert!(station.update_values(values[*at]));
        }
        assert_eq!(-999, station.min());
        assert_eq!(999, station.max());
        assert_eq!(6, station.count());
        assert_eq!(353, station.running_total());
    }
}

#[test]
fn merge_is_the_same_as_updating_with_all_values() {
    let mut left = StationAverage::new(b"k", 10);
    left.update_values(-30);
    let mut right = StationAverage::new(b"k", 50);
    right.update_values(20);
    right.update_values(-70);
    let mut both = StationAverage::new(b"k", 10);
    for value in [-30, 50, 20, -70] {
        both.update_values(value);
    }
    let mut one_way = left.duplicate();
    assert!(one_way.merge(&right));
    let mut other_way = right.duplicate();
    assert!(other_way.merge(&left));
    for merged in [&one_way, &other_way] {
        assert_eq!(both.min(), merged.min());
        assert_eq!(both.max(), merged.max());
        assert_eq!(both.count(), merged.count());
        assert_eq!(both.running_total(), merged.running_total());
    }
    assert_eq!(-70, one_way.min());
    assert_eq!(50, one_way.max());
    assert_eq!(5, one_way.count());
    assert_eq!(-20, one_way.running_total());
}

#[test]
fn merge_with_an_entry_that_saw_nothing() {
    let mut seen = StationAverage::new(b"k", 42);
    assert!(seen.merge(&StationAverage::default()));
    assert_eq!((42, 42, 1, 42), (seen.min(), seen.max(), seen.count(), seen.running_total()));
    let mut blank = StationAverage::default();
    assert!(blank.merge(&seen));
    assert_eq!((42, 42, 1, 42), (blank.min(), blank.max(), blank.count(), blank.running_total()));
}

#[test]
fn overflowing_count_is_refused() {
    let mut station = StationAverage::from_parts(b"k", -5, 7, u64::MAX, 100);
    assert!(!station.update_values(3));
    assert_eq!((-5, 7, u64::MAX, 100), (
        station.min(),
        station.max(),
        station.count(),
        station.running_total()
    ));
    let other = StationAverage::new(b"k", 1);
    assert!(!station.merge(&other));
    assert_eq!(u64::MAX, station.count());
}

#[test]
fn overflowing_total_is_refused() {
    let mut high = StationAverage::from_parts(b"k", 1, 1, 5, i64::MAX);
    assert!(!high.update_values(1));
    assert!(high.update_values(0));
    assert!(high.update_values(-1));
    assert_eq!(i64::MAX - 1, high.running_total());
    let mut low = StationAverage::from_parts(b"k", -1, -1, 5, i64::MIN);
    assert!(!low.update_values(-1));
    assert_eq!(i64::MIN, low.running_total());
    assert_eq!(5, low.count());
}

#[test]
fn lines_show_min_mean_max() {
    let mut tokyo = StationAverage::new(b"Tokyo", 234);
    tokyo.update_values(181);
    tokyo.update_values(300);
    assert_eq!(b"Tokyo=18.1/23.8333/30.0".to_vec(), tokyo.to_line());
    let porto = StationAverage::new(b"Porto", 90);
    assert_eq!(b"Porto=9.0/9.0/9.0".to_vec(), porto.to_line());
}

#[test]
fn mean_is_cut_after_four_digits_and_loses_trailing_zeros() {
    let cases: [(i64, u64, &[u8]); 12] = [
        (715, 3, b"23.8333"),
        (90, 1, b"9.0"),
        (5, 2, b"0.25"),
        (-5, 2, b"-0.25"),
        (1, 8, b"0.0125"),
        (1, 3, b"0.0333"),
        (-1, 3, b"-0.0333"),
        (2, 3, b"0.0666"),
        (-1, 1000000, b"0.0"),
        (0, 5, b"0.0"),
        (-999, 1, b"-99.9"),
        (12345, 10, b"123.45"),
    ];
    for (total, count, mean) in cases {
        let station = StationAverage::from_parts(b"k", -999, 999, count, total);
        let mut expected = b"k=-99.9/".to_vec();
        expected.extend_from_slice(mean);
        expected.extend_from_slice(b"/99.9");
        assert_eq!(expected, station.to_line(), "{} / {}", total, count);
    }
}

#[test]
fn mean_magnitude_is_total_times_thousand_over_count() {
    let station = StationAverage::from_parts(b"k", 0, 0, 3, 715);
    assert_eq!(238333, station.mean_magnitude());
    let largest = StationAverage::from_parts(b"k", 0, 0, 1, i64::MIN);
    assert_eq!(9223372036854775808000, largest.mean_magnitude());
    let mut expected = b"k=0.0/-922337203685477580.8/0.0".to_vec();
    assert_eq!(expected, largest.to_line());
    expected.clear();
}

#[test]
fn key_of_the_greatest_length() {
    let name = vec![b'n'; 100];
    let station = StationAverage::new(&name, 1);
    assert_eq!(name.as_slice(), station.name());
    let mut line = name.clone();
    line.extend_from_slice(b"=0.1/0.1/0.1");
    assert_eq!(line, station.to_line());
}

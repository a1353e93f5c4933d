use station_stats::mmap::{map_region, MapError, MapRegion, MmapOptions};
use station_stats::partition::{align_at, partition, PartitionRange};
use station_stats::record::{find_byte, parse_record_at, parse_value_at};
use station_stats::report::{format_report, mean};
use station_stats::scan::{aggregate_file, merge_partials, scan_range, Partial};
use station_stats::station_map::StationMap;
use station_stats::stats::Stats;

fn report_of(p: &Partial) -> String {
    String::from_utf8(format_report(&p.map)).unwrap()
}

fn report(data: &[u8], workers: usize) -> String {
    report_of(&aggregate_file(data, workers))
}

fn value(text: &str) -> Option<i64> {
    let b = text.as_bytes();
    parse_value_at(b, 0, b.len())
}

fn stats(min: i64, max: i64, count: u64, sum: i128) -> Stats {
    Stats { min, max, count, sum }
}

fn same(a: &Stats, b: &Stats) -> bool {
    a.min == b.min && a.max == b.max && a.count == b.count && a.sum == b.sum
}

#[test]
fn example_three_lines() {
    let data = b"Paris;10.0\nParis;20.0\nHamburg;5.5";
    for workers in 1..6 {
        assert_eq!(report(data, workers), "{Hamburg=5.5/5.5/5.5, Paris=10.0/20.0/15.0}");
    }
}

#[test]
fn example_two_partitions_any_split() {
    let data = b"A;1.0\nB;2.0\nA;3.0";
    let mut splits = vec![0usize];
    for (i, b) in data.iter().enumerate() {
        if *b == b'\n' {
            splits.push(i + 1);
        }
    }
    splits.push(data.len());
    for s in splits {
        let parts = vec![scan_range(data, 0, s), scan_range(data, s, data.len())];
        let merged = merge_partials(&parts);
        assert_eq!(report_of(&merged), "{A=1.0/3.0/2.0, B=2.0/2.0/2.0}");
        assert_eq!(merged.lines, 3);
    }
    assert_eq!(report(data, 2), "{A=1.0/3.0/2.0, B=2.0/2.0/2.0}");
}

#[test]
fn worker_count_does_not_change_result() {
    let data = b"x;1.5\nlonger station name;-3.25\ny;7\nx;2.5\nz;0.1\ny;-7\nlonger station name;12.125\nx;-0.5\n";
    let one = report(data, 1);
    for workers in 2..40 {
        assert_eq!(report(data, workers), one);
        let p = aggregate_file(data, workers);
        assert_eq!(p.lines, 8);
        assert_eq!(p.failures, 0);
    }
    assert_eq!(one, "{longer station name=-3.25/12.125/4.4375, x=-0.5/2.5/1.166667, y=-7.0/7.0/0.0, z=0.1/0.1/0.1}");
}

#[test]
fn per_partition_line_counts_add_up() {
    let data = b"a;1\nbb;2\n\nccc;3\nbad line\ndddd;4";
    for workers in 1..20 {
        let ranges = partition(data, workers);
        let mut total = 0u64;
        let mut fails = 0u64;
        for r in &ranges {
            let p = scan_range(data, r.start, r.end);
            total += p.lines;
            fails += p.failures;
        }
        assert_eq!(total, 6);
        assert_eq!(fails, 2);
    }
}

#[test]
fn combine_is_commutative_associative_with_identity() {
    let a = stats(-5, 10, 3, 12);
    let b = stats(2, 4, 2, 6);
    let c = stats(-20, -1, 4, -30);
    assert!(same(&Stats::combine(a, b), &Stats::combine(b, a)));
    assert!(same(
        &Stats::combine(Stats::combine(a, b), c),
        &Stats::combine(a, Stats::combine(b, c))
    ));
    assert!(same(&Stats::combine(Stats::identity(), a), &a));
    assert!(same(&Stats::combine(a, Stats::identity()), &a));
    assert!(same(&Stats::combine(a, b), &stats(-5, 10, 5, 18)));
    assert!(same(&Stats::default(), &Stats::identity()));
}

#[test]
fn merge_folds_one_value() {
    let mut s = Stats::identity();
    s.merge(4_000_000);
    assert!(same(&s, &stats(4_000_000, 4_000_000, 1, 4_000_000)));
    s.merge(-1_000_000);
    s.merge(9_000_000);
    assert!(same(&s, &stats(-1_000_000, 9_000_000, 3, 12_000_000)));
    assert_eq!(String::from_utf8(s.render()).unwrap(), "-1.0/9.0/4.0");
}

#[test]
fn boundaries_sit_at_line_starts() {
    let data = b"a;1\nabcdefghij;2\nxy;3\nlonglonglonglong;4\nq;5\nr;6.25";
    for workers in 1..30 {
        let ranges = partition(data, workers);
        assert!(ranges.len() <= workers);
        assert_eq!(ranges[0].start, 0);
        assert_eq!(ranges[ranges.len() - 1].end, data.len());
        for (i, r) in ranges.iter().enumerate() {
            assert!(r.start < r.end);
            if r.start > 0 {
                assert_eq!(data[r.start - 1], b'\n');
            }
            if i + 1 < ranges.len() {
                assert_eq!(r.end, ranges[i + 1].start);
            }
        }
    }
}

#[test]
fn partition_exact_ranges() {
    let data = b"ab;1\ncd;2\nef;3\n";
    assert_eq!(data.len(), 15);
    let r = partition(data, 3);
    assert_eq!(
        r,
        vec![
            PartitionRange { start: 0, end: 5 },
            PartitionRange { start: 5, end: 10 },
            PartitionRange { start: 10, end: 15 },
        ]
    );
    let r = partition(data, 2);
    assert_eq!(r, vec![PartitionRange { start: 0, end: 10 }, PartitionRange { start: 10, end: 15 }]);
    assert_eq!(partition(data, 1), vec![PartitionRange { start: 0, end: 15 }]);
}

#[test]
fn partition_collapses_when_workers_exceed_length() {
    let data = b"a;1\nb;2";
    assert_eq!(partition(data, 100), vec![PartitionRange { start: 0, end: 7 }]);
    assert_eq!(partition(data, 2), vec![PartitionRange { start: 0, end: 4 }, PartitionRange { start: 4, end: 7 }]);
    assert_eq!(partition(b"", 4), vec![PartitionRange { start: 0, end: 0 }]);
}

#[test]
fn align_moves_to_next_line_start() {
    let data = b"abc\ndef\ng";
    assert_eq!(align_at(data, 0), 0);
    assert_eq!(align_at(data, 1), 4);
    assert_eq!(align_at(data, 4), 4);
    assert_eq!(align_at(data, 5), 8);
    assert_eq!(align_at(data, 9), 9);
}

#[test]
fn malformed_lines_are_skipped_and_counted() {
    let dirty = b"A;1.0\nno delimiter\nB;2.0\nC;abc\nA;3.0\nD;inf\nE;nan\nF;1e5\n;\n";
    let clean = b"A;1.0\nB;2.0\nA;3.0\n";
    for workers in 1..8 {
        let d = aggregate_file(dirty, workers);
        let c = aggregate_file(clean, workers);
        assert_eq!(report_of(&d), report_of(&c));
        assert_eq!(d.failures, 6);
        assert_eq!(c.failures, 0);
    }
}

#[test]
fn empty_file_gives_empty_result() {
    let p = aggregate_file(b"", 3);
    assert_eq!(report_of(&p), "{}");
    assert_eq!(p.lines, 0);
    assert_eq!(p.map.len(), 0);
}

#[test]
fn single_line_without_terminator() {
    let p = aggregate_file(b"Oslo;-2.3", 2);
    assert_eq!(report_of(&p), "{Oslo=-2.3/-2.3/-2.3}");
    let s = p.map.get(b"Oslo").unwrap();
    assert_eq!(s.count, 1);
    assert_eq!(s.min, -2_300_000);
    assert_eq!(s.max, -2_300_000);
    assert_eq!(mean(&s), -2_300_000);
}

#[test]
fn crlf_and_empty_lines() {
    let p = aggregate_file(b"A;1.5\r\n\r\nA;2.5\r\n", 1);
    assert_eq!(report_of(&p), "{A=1.5/2.5/2.0}");
    assert_eq!(p.lines, 3);
    assert_eq!(p.failures, 1);
}

#[test]
fn keys_sort_bytewise() {
    let p = aggregate_file("b;1\nB;2\nab;3\na;4\n\u{e9};5\n".as_bytes(), 2);
    assert_eq!(report_of(&p), "{B=2.0/2.0/2.0, a=4.0/4.0/4.0, ab=3.0/3.0/3.0, b=1.0/1.0/1.0, \u{e9}=5.0/5.0/5.0}");
}

#[test]
fn key_taken_verbatim() {
    let p = aggregate_file(b" x ;1\nx;2\n;3\n", 1);
    assert_eq!(report_of(&p), "{=3.0/3.0/3.0,  x =1.0/1.0/1.0, x=2.0/2.0/2.0}");
    assert!(p.map.get(b" x ").is_some());
    assert!(p.map.get(b"y").is_none());
}

#[test]
fn value_literals() {
    assert_eq!(value("10.0"), Some(10_000_000));
    assert_eq!(value("-0.5"), Some(-500_000));
    assert_eq!(value("+3"), Some(3_000_000));
    assert_eq!(value("1."), Some(1_000_000));
    assert_eq!(value(".25"), Some(250_000));
    assert_eq!(value("007.5"), Some(7_500_000));
    assert_eq!(value("1.23456789"), Some(1_234_567));
    assert_eq!(value("999999999999.999999"), Some(999_999_999_999_999_999));
    assert_eq!(value("1000000000000"), None);
    assert_eq!(value("."), None);
    assert_eq!(value(""), None);
    assert_eq!(value("-"), None);
    assert_eq!(value("1.2.3"), None);
    assert_eq!(value("1e5"), None);
    assert_eq!(value("inf"), None);
    assert_eq!(value("NaN"), None);
    assert_eq!(value(" 1"), None);
    assert_eq!(value("--1"), None);
}

#[test]
fn record_split_on_first_delimiter() {
    let line = b"a;b;1";
    assert_eq!(parse_record_at(line, 0, line.len()), None);
    let line = b"key;12.5";
    assert_eq!(parse_record_at(line, 0, line.len()), Some((3, 12_500_000)));
    let line = b"key;12.5\r";
    assert_eq!(parse_record_at(line, 0, line.len()), Some((3, 12_500_000)));
    let line = b"no delimiter";
    assert_eq!(parse_record_at(line, 0, line.len()), None);
    assert_eq!(find_byte(b"ab;c;", 0, 5, b';'), 2);
    assert_eq!(find_byte(b"ab;c;", 3, 5, b';'), 4);
    assert_eq!(find_byte(b"abc", 0, 3, b';'), 3);
}

#[test]
fn mean_rounds_half_away_from_zero() {
    assert_eq!(mean(&stats(1, 2, 2, 3)), 2);
    assert_eq!(mean(&stats(-2, -1, 2, -3)), -2);
    assert_eq!(mean(&stats(1_000_000, 2_000_000, 3, 4_000_000)), 1_333_333);
    assert_eq!(mean(&stats(1, 2, 3, 5)), 2);
    let p = aggregate_file(b"m;1\nm;1\nm;2\n", 1);
    assert_eq!(report_of(&p), "{m=1.0/2.0/1.333333}");
}

#[test]
fn station_map_absorb_and_merge() {
    let mut a = StationMap::new();
    a.absorb(b"k", 0, 1, stats(1, 1, 1, 1));
    a.absorb(b"k", 0, 1, stats(5, 5, 1, 5));
    a.absorb(b"j", 0, 1, stats(2, 2, 1, 2));
    let mut b = StationMap::new();
    b.absorb(b"k", 0, 1, stats(-3, 0, 2, -3));
    b.absorb(b"z", 0, 1, stats(7, 7, 1, 7));
    a.merge(&b);
    assert_eq!(a.len(), 3);
    assert!(same(&a.get(b"k").unwrap(), &stats(-3, 5, 4, 3)));
    assert!(same(&a.get(b"j").unwrap(), &stats(2, 2, 1, 2)));
    assert!(same(&a.get(b"z").unwrap(), &stats(7, 7, 1, 7)));
    assert_eq!(a.entry(0).key, b"j".to_vec());
    assert_eq!(a.entry(2).key, b"z".to_vec());
}

#[test]
fn options_builder() {
    let o = MmapOptions::new();
    assert_eq!(o.offset, 0);
    assert_eq!(o.len, None);
    assert!(!o._stack);
    let mut o = MmapOptions::new();
    o._offset(10)._len(8)._stack();
    assert_eq!(o.offset, 10);
    assert_eq!(o.len, Some(8));
    assert!(o._stack);
}

#[test]
fn options_length() {
    let mut o = MmapOptions::new();
    assert_eq!(o.get_len(100), Ok(100));
    o._offset(30);
    assert_eq!(o.get_len(100), Ok(70));
    assert_eq!(o.get_len(20), Err(MapError::OffsetBeyondEnd));
    o._len(5);
    assert_eq!(o.get_len(20), Ok(5));
}

#[test]
fn region_alignment() {
    assert_eq!(
        map_region(100, 5000, 4096),
        Ok(MapRegion { aligned_offset: 4096, aligned_len: 1004, alignment: 904 })
    );
    assert_eq!(map_region(10, 8192, 4096), Ok(MapRegion { aligned_offset: 8192, aligned_len: 10, alignment: 0 }));
    assert_eq!(map_region(0, 0, 4096), Err(MapError::ZeroLength));
    assert_eq!(map_region(usize::MAX, 1, 4096), Err(MapError::LengthOverflow));
}

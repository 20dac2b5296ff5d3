use rowstats::aggregate::{aggregate_chunk, AggregateError, StatChunk};
use rowstats::merge::merge_all;
use rowstats::chunk::chunkify;
use rowstats::stat::Stat;

fn pairs<'a>(pass: &StatChunk<'a>) -> Vec<(&'a str, Stat)> {
    pass.sorted()
}

fn render(pass: &StatChunk) -> String {
    let mut out = String::from("{");
    for (name, stat) in pairs(pass) {
        let average = (stat.sum as f64 / 10.0) / stat.count as f64;
        out += &format!(
            "{}={:.1}/{:.1}/{:.1},",
            name,
            stat.min as f64 / 10.0,
            average,
            stat.max as f64 / 10.0
        );
    }
    out + "}"
}

fn total_of<'a>(chunks: &[&'a [u8]]) -> StatChunk<'a> {
    let passes = chunks.iter().map(|chunk| aggregate_chunk(chunk).unwrap()).collect();
    merge_all(passes).unwrap().unwrap()
}

#[test]
fn end_to_end() {
    let extent = b"X;1.0\nY;-2.5\nX;3.0\n";
    let splits: [Vec<&[u8]>; 4] = [
        chunkify(extent, 2),
        vec![&extent[..6], &extent[6..]],
        vec![&extent[..13], &extent[13..]],
        vec![&extent[..0], &extent[..]],
    ];
    for chunks in splits {
        assert_eq!(chunks.len(), 2);
        let total = total_of(&chunks);
        assert_eq!(
            pairs(&total),
            vec![
                ("X", Stat { min: 10, sum: 40, count: 2, max: 30 }),
                ("Y", Stat { min: -25, sum: -25, count: 1, max: -25 }),
            ]
        );
        assert_eq!(render(&total), "{X=1.0/2.0/3.0,Y=-2.5/-2.5/-2.5,}");
    }
}

#[test]
fn a_pass_keeps_a_statistic_for_each_name() {
    let pass = aggregate_chunk(b"Oslo;-1.5\nLima;20.0\nOslo;3.5\nOslo;-10.0\nLima;19.9\n").unwrap();
    assert_eq!(
        pairs(&pass),
        vec![
            ("Lima", Stat { min: 199, sum: 399, count: 2, max: 200 }),
            ("Oslo", Stat { min: -100, sum: -80, count: 3, max: 35 }),
        ]
    );
    assert_eq!(pass.data.get(&"Oslo"), Some(&Stat { min: -100, sum: -80, count: 3, max: 35 }));
    assert_eq!(pass.data.get(&"Rome"), None);
}

#[test]
fn a_pass_over_nothing_is_empty() {
    assert!(pairs(&aggregate_chunk(b"").unwrap()).is_empty());
    assert!(pairs(&aggregate_chunk(b"no separator here\n").unwrap()).is_empty());
}

#[test]
fn what_follows_the_last_record_is_passed_over() {
    let pass = aggregate_chunk(b"X;1.0\ntail").unwrap();
    assert_eq!(pairs(&pass), vec![("X", Stat { min: 10, sum: 10, count: 1, max: 10 })]);
}

#[test]
fn names_may_be_short_empty_or_not_ascii() {
    let pass = aggregate_chunk("A;1.0\n;2.0\nZürich;3.0\nA;-1.0\n".as_bytes()).unwrap();
    assert_eq!(
        pairs(&pass),
        vec![
            ("", Stat { min: 20, sum: 20, count: 1, max: 20 }),
            ("A", Stat { min: -10, sum: 0, count: 2, max: 10 }),
            ("Zürich", Stat { min: 30, sum: 30, count: 1, max: 30 }),
        ]
    );
}

#[test]
fn a_malformed_value_fails_the_pass() {
    assert_eq!(aggregate_chunk(b"X;1.0\nY;abc\n").err(), Some(AggregateError::Malformed));
    assert_eq!(aggregate_chunk(b"X;1.0").err(), Some(AggregateError::Malformed));
    assert_eq!(aggregate_chunk(b"X;123.4\n").err(), Some(AggregateError::Malformed));
    assert_eq!(aggregate_chunk(b"X;Y;1.0\n").err(), Some(AggregateError::Malformed));
}

#[test]
fn a_name_that_is_not_utf8_fails_the_pass() {
    assert_eq!(aggregate_chunk(b"X;1.0\n\xff\xfe;2.0\n").err(), Some(AggregateError::InvalidKey));
    assert_eq!(aggregate_chunk(b"\xc3;x").err(), Some(AggregateError::InvalidKey));
}

#[test]
fn more_names_than_slots_fail_the_pass() {
    let mut text = String::new();
    for i in 0..14814 {
        text += &format!("name{i};1.0\n");
    }
    assert_eq!(aggregate_chunk(text.as_bytes()).err(), Some(AggregateError::Full));
}

#[test]
fn record_takes_in_one_value() {
    let mut pass = StatChunk::new();
    assert_eq!(pass.record("Rome", 215), Ok(()));
    assert_eq!(pass.record("Rome", -5), Ok(()));
    assert_eq!(pass.data.get(&"Rome"), Some(&Stat { min: -5, sum: 210, count: 2, max: 215 }));
}

#[test]
fn a_statistic_at_its_limit_fails_the_record() {
    let mut pass = StatChunk::new();
    let full = Stat { min: 1, sum: 7, count: u32::MAX, max: 5 };
    pass.data.insert("Rome", full);
    assert_eq!(pass.record("Rome", 3), Err(AggregateError::Overflow));
    assert_eq!(pass.data.get(&"Rome"), Some(&full));
    assert_eq!(pass.absorb("Rome", &Stat { min: 0, sum: 0, count: 1, max: 0 }), Err(AggregateError::Overflow));
    assert_eq!(pass.data.get(&"Rome"), Some(&full));
    assert_eq!(pass.absorb("Rome", &Stat::default()), Ok(()));
    assert_eq!(pass.data.get(&"Rome"), Some(&full));

    let mut other = StatChunk::new();
    other.record("Rome", 1).unwrap();
    assert_eq!(pass.merge_with(other), Err(AggregateError::Overflow));
}

#[test]
fn merging_two_passes_merges_name_by_name() {
    let a = aggregate_chunk(b"Oslo;-1.5\nLima;20.0\nOslo;3.5\n").unwrap();
    let b = aggregate_chunk(b"Lima;19.9\nRome;21.0\nLima;25.0\n").unwrap();
    let mut total = StatChunk::new();
    total.merge_with(a).unwrap();
    total.merge_with(b).unwrap();
    assert_eq!(
        pairs(&total),
        vec![
            ("Lima", Stat { min: 199, sum: 649, count: 3, max: 250 }),
            ("Oslo", Stat { min: -15, sum: 20, count: 2, max: 35 }),
            ("Rome", Stat { min: 210, sum: 210, count: 1, max: 210 }),
        ]
    );
}

#[test]
fn the_order_of_the_merges_does_not_matter() {
    let chunks: [&[u8]; 3] = [b"A;1.0\nB;2.0\n", b"B;-3.0\nC;4.0\n", b"A;5.0\nC;-6.0\nD;7.0\n"];
    let forward = total_of(&chunks);
    let backward = total_of(&[chunks[2], chunks[1], chunks[0]]);
    assert_eq!(pairs(&forward), pairs(&backward));
    let whole = aggregate_chunk(b"A;1.0\nB;2.0\nB;-3.0\nC;4.0\nA;5.0\nC;-6.0\nD;7.0\n").unwrap();
    assert_eq!(pairs(&forward), pairs(&whole));
}

#[test]
fn merging_an_empty_pass_changes_nothing() {
    let mut total = aggregate_chunk(b"A;1.0\n").unwrap();
    total.merge_with(StatChunk::new()).unwrap();
    assert_eq!(pairs(&total), vec![("A", Stat { min: 10, sum: 10, count: 1, max: 10 })]);
}

#[test]
fn merging_no_pass_gives_none() {
    assert!(merge_all(Vec::new()).unwrap().is_none());
}

#[test]
fn merging_one_pass_gives_that_pass() {
    let pass = aggregate_chunk(b"B;2.0\nA;1.0\n").unwrap();
    let mut order = Vec::new();
    let mut it = pass.data.iter();
    while let Some(pair) = it.next() {
        order.push(pair);
    }
    let total = merge_all(vec![pass]).unwrap().unwrap();
    let mut after = Vec::new();
    let mut it = total.data.iter();
    while let Some(pair) = it.next() {
        after.push(pair);
    }
    assert_eq!(order, after);
    assert_eq!(order.len(), 2);
}

#[test]
fn a_merge_that_fails_fails_the_whole() {
    let mut full = StatChunk::new();
    full.data.insert("Rome", Stat { min: 1, sum: 7, count: u32::MAX, max: 5 });
    let more = aggregate_chunk(b"Oslo;1.0\nRome;2.0\n").unwrap();
    let last = aggregate_chunk(b"Oslo;1.0\n").unwrap();
    assert_eq!(merge_all(vec![full, more, last]).err(), Some(AggregateError::Overflow));
}

#[test]
fn collisions_of_a_pass_are_counted() {
    let mut text = String::new();
    for i in 0..5000 {
        text += &format!("name{i};1.0\n");
    }
    let once = aggregate_chunk(text.as_bytes()).unwrap();
    let doubled = text.clone() + &text;
    let twice = aggregate_chunk(doubled.as_bytes()).unwrap();
    assert!(once.data.collision_count() > 0);
    assert_eq!(twice.data.collision_count(), 2 * once.data.collision_count());
    assert_eq!(pairs(&twice).len(), 5000);
    assert_eq!(twice.data.get(&"name42"), Some(&Stat { min: 10, sum: 20, count: 2, max: 10 }));
}

#[test]
fn sorted_puts_the_names_in_order() {
    let pass =
        aggregate_chunk("b;1.0\nab;1.0\nB;1.0\n;1.0\na;1.0\n\u{e9};1.0\nz;1.0\nabc;1.0\n".as_bytes())
            .unwrap();
    let names: Vec<&str> = pass.sorted().into_iter().map(|(name, _)| name).collect();
    assert_eq!(names, vec!["", "B", "a", "ab", "abc", "b", "z", "\u{e9}"]);
    let mut stored = Vec::new();
    let mut it = pass.data.iter();
    while let Some((name, stat)) = it.next() {
        assert_eq!(stat, Stat { min: 10, sum: 10, count: 1, max: 10 });
        stored.push(name);
    }
    assert_ne!(stored, names);
    stored.sort();
    assert_eq!(stored, names);
}

#[test]
fn passes_over_the_slices_amount_to_one_pass() {
    let mut text = String::new();
    for i in 0..200 {
        let tenths: i32 = (i * 37) % 1999 - 999;
        let sign = if tenths < 0 { "-" } else { "" };
        text += &format!("city{};{}{}.{}\n", i % 17, sign, tenths.abs() / 10, tenths.abs() % 10);
    }
    let extent = text.as_bytes();
    for count in 1..=40 {
        let chunks = chunkify(extent, count);
        let total = total_of(&chunks);
        let whole = aggregate_chunk(extent).unwrap();
        assert_eq!(pairs(&total), pairs(&whole));
        assert_eq!(pairs(&total).len(), 17);
    }
}

#[test]
fn a_small_extent_in_many_slices_is_aggregated_whole() {
    let extent = b"A;1.0\nB;2.0\nA;3.0\nC;-4.0\n";
    for count in [1, 2, 3, 7, 24, 25, 100] {
        let total = total_of(&chunkify(extent, count));
        assert_eq!(
            pairs(&total),
            vec![
                ("A", Stat { min: 10, sum: 40, count: 2, max: 30 }),
                ("B", Stat { min: 20, sum: 20, count: 1, max: 20 }),
                ("C", Stat { min: -40, sum: -40, count: 1, max: -40 }),
            ]
        );
    }
}

#[test]
fn a_failed_merge_keeps_what_was_merged_until_there() {
    let full = Stat { min: 1, sum: 7, count: u32::MAX, max: 5 };
    let mut total = StatChunk::new();
    total.data.insert("Rome", full);
    let other = aggregate_chunk(b"Oslo;1.0\nRome;2.0\nLima;3.0\nCairo;4.0\n").unwrap();
    let mut order = Vec::new();
    let mut it = other.data.iter();
    while let Some((name, _)) = it.next() {
        order.push(name);
    }
    let stop = order.iter().position(|name| *name == "Rome").unwrap();
    assert_eq!(total.merge_with(other), Err(AggregateError::Overflow));
    assert_eq!(total.data.get(&"Rome"), Some(&full));
    for (i, name) in order.iter().enumerate() {
        if i < stop {
            assert!(total.data.get(name).is_some());
        } else if i > stop {
            assert_eq!(total.data.get(name), None);
        }
    }
    assert_eq!(pairs(&total).len(), stop + 1);
}

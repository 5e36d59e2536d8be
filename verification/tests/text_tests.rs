use convert_world::chunk147::Block;
use convert_world::conversion::sort_conversions;
use convert_world::text::{parse_conversions, read_id};

#[test]
fn ids_read() {
    assert_eq!(read_id("12:3"), Block::new(12, Some(3)));
    assert_eq!(read_id("12"), Block::new(12, None));
    assert_eq!(read_id("35"), Block::new(35, None));
    assert_eq!(read_id("35:14"), Block::new(35, Some(14)));
    assert_eq!(read_id("-7:-128"), Block::new(-7, Some(-128)));
    assert_eq!(read_id("+8:+3"), Block::new(8, Some(3)));
    assert_eq!(read_id("1:2:3"), Block::new(1, Some(2)));
    assert_eq!(read_id("007"), Block::new(7, None));
    assert_eq!(read_id("2147483647"), Block::new(i32::MAX, None));
    assert_eq!(read_id("-2147483648"), Block::new(i32::MIN, None));
}

/// The old block of the one-line file `s->0`, when the line is well formed.
fn id_of(s: &str) -> Option<Block> {
    parse_conversions(&format!("{s}->0")).map(|v| v[0].0)
}

#[test]
fn ids_rejected() {
    assert_eq!(id_of(""), None);
    assert_eq!(id_of("-"), None);
    assert_eq!(id_of("+"), None);
    assert_eq!(id_of("3a"), None);
    assert_eq!(id_of("35:"), None);
    assert_eq!(id_of("35:128"), None);
    assert_eq!(id_of("2147483648"), None);
    assert_eq!(id_of("99999999999999999999999"), None);
    assert_eq!(id_of(":4"), None);
}

#[test]
fn ids_agree_with_str_parse() {
    for s in ["0", "-0", "+0", "12", "-12", "+12", "1x", "", "--1", "+-1", "2147483647", "2147483648", "-2147483649"] {
        let expected = s.parse::<i32>().ok().map(|id| Block::new(id, None));
        assert_eq!(id_of(s), expected, "{s}");
        if let Some(b) = expected {
            assert_eq!(read_id(s), b, "{s}");
        }
    }
}

#[test]
fn conversion_file_read() {
    let text = "1 -> 2\n35:14 ->  35:1 \r\n  4->5:2 -> 9\n";
    let conv = parse_conversions(text).unwrap();
    assert_eq!(
        conv,
        vec![
            (Block::new(1, None), Block::new(2, None)),
            (Block::new(35, Some(14)), Block::new(35, Some(1))),
            (Block::new(4, None), Block::new(5, Some(2))),
        ]
    );
    assert_eq!(parse_conversions(""), Some(vec![]));
    assert_eq!(parse_conversions("1 -> 2").unwrap().len(), 1);
    assert_eq!(parse_conversions("\u{3000}7\t->\u{a0}8").unwrap(), vec![(Block::new(7, None), Block::new(8, None))]);
}

#[test]
fn conversion_file_rejected() {
    assert_eq!(parse_conversions("1 -> 2\n3 4\n"), None);
    assert_eq!(parse_conversions("1 -> 2\n\n"), None);
    assert_eq!(parse_conversions("x -> 2"), None);
    assert_eq!(parse_conversions("1 -> "), None);
}

#[test]
fn conversions_sorted() {
    let b = |id: i32, d: Option<i8>| Block::new(id, d);
    let mut v = vec![
        (b(5, None), b(1, None)),
        (b(3, Some(2)), b(2, None)),
        (b(3, None), b(3, None)),
        (b(3, Some(1)), b(4, None)),
        (b(1, Some(9)), b(5, None)),
        (b(3, None), b(6, None)),
        (b(3, Some(1)), b(7, None)),
    ];
    sort_conversions(&mut v);
    let olds: Vec<(i32, Option<i8>)> = v.iter().map(|(o, _)| (o.id(), o.data())).collect();
    assert_eq!(
        olds,
        vec![(1, Some(9)), (3, Some(1)), (3, Some(1)), (3, Some(2)), (3, None), (3, None), (5, None)]
    );
    // equal blocks keep their order
    let news: Vec<i32> = v.iter().map(|(_, n)| n.id()).collect();
    assert_eq!(news, vec![5, 4, 7, 2, 3, 6, 1]);
}

#[test]
fn sort_agrees_with_the_comparator() {
    let b = |id: i32, d: Option<i8>| Block::new(id, d);
    let mut v = vec![(b(2, None), b(0, None)), (b(-1, Some(3)), b(1, None)), (b(2, Some(-4)), b(2, None)), (b(-1, None), b(3, None))];
    let mut expected = v.clone();
    expected.sort_by(|(a, _), (c, _)| {
        if a.has_data() && !c.has_data() {
            std::cmp::Ordering::Less
        } else if c.has_data() && !a.has_data() {
            std::cmp::Ordering::Greater
        } else if a.id() == c.id() && a.has_data() && c.has_data() {
            a.data().unwrap().cmp(&c.data().unwrap())
        } else {
            a.id().cmp(&c.id())
        }
    });
    sort_conversions(&mut v);
    assert_eq!(v, expected);
}

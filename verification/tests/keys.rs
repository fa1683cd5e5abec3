use game_of_life::coord::Coord;

#[test]
fn key_format_basic() {
    assert_eq!(Coord::new(3, 17).to_key(), "3,17");
    assert_eq!(Coord::new(0, 0).to_key(), "0,0");
    assert_eq!(Coord::new(10, 200).to_key(), "10,200");
}

#[test]
fn key_format_negative() {
    assert_eq!(Coord::new(-1, 5).to_key(), "-1,5");
    assert_eq!(Coord::new(-5, -123).to_key(), "-5,-123");
}

#[test]
fn key_format_extremes() {
    assert_eq!(Coord::new(i32::MAX, i32::MIN).to_key(), "2147483647,-2147483648");
}

#[test]
fn key_round_trip_basic() {
    let c = Coord::new(3, 17);
    assert_eq!(Coord::from_string(&c.to_key()), Some(c));
    let z = Coord::new(0, 0);
    assert_eq!(Coord::from_string(&z.to_key()), Some(z));
}

#[test]
fn key_round_trip_negative() {
    let c = Coord::new(-42, -1);
    assert_eq!(Coord::from_string(&c.to_key()), Some(c));
    let m = Coord::new(-1, 999);
    assert_eq!(Coord::from_string(&m.to_key()), Some(m));
}

#[test]
fn key_round_trip_extremes() {
    let c = Coord::new(i32::MIN, i32::MAX);
    assert_eq!(Coord::from_string(&c.to_key()), Some(c));
    let d = Coord::new(i32::MAX, i32::MIN);
    assert_eq!(Coord::from_string(&d.to_key()), Some(d));
}

#[test]
fn key_round_trip_grid_range() {
    for row in -2..12 {
        for col in -2..22 {
            let c = Coord::new(row, col);
            assert_eq!(Coord::from_string(&c.to_key()), Some(c));
        }
    }
}

#[test]
fn parse_direct() {
    assert_eq!(Coord::from_string("9,4"), Some(Coord::new(9, 4)));
    assert_eq!(Coord::from_string("-7,0"), Some(Coord::new(-7, 0)));
}

#[test]
fn parse_rejects_malformed() {
    assert_eq!(Coord::from_string(""), None);
    assert_eq!(Coord::from_string("5"), None);
    assert_eq!(Coord::from_string("5,"), None);
    assert_eq!(Coord::from_string(",5"), None);
    assert_eq!(Coord::from_string(","), None);
    assert_eq!(Coord::from_string("a,b"), None);
    assert_eq!(Coord::from_string("3,4,5"), None);
    assert_eq!(Coord::from_string("3, 4"), None);
    assert_eq!(Coord::from_string("3 ,4"), None);
}

#[test]
fn parse_rejects_non_canonical() {
    assert_eq!(Coord::from_string("007,1"), None);
    assert_eq!(Coord::from_string("+3,4"), None);
    assert_eq!(Coord::from_string("-0,1"), None);
    assert_eq!(Coord::from_string("1,-0"), None);
    assert_eq!(Coord::from_string("01,2"), None);
}

#[test]
fn parse_rejects_out_of_range() {
    assert_eq!(Coord::from_string("2147483648,0"), None);
    assert_eq!(Coord::from_string("0,-2147483649"), None);
    assert_eq!(Coord::from_string("99999999999,0"), None);
}

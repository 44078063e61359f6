use osm_admin_lookup::boundary::{check_admin_level, default_admin_levels, parse_u8, Boundary};
use osm_admin_lookup::geom::{Coord, MultiPolygon, Polygon};
use osm_admin_lookup::location::{parse_location, FixedParse, Location, LocationError};
use osm_admin_lookup::rtree::{build_rtree, RTree};
use osm_admin_lookup::service::{locate_response, process_bulk, BulkStream};

const DEG: i64 = 10_000_000;

fn rect(min_x: i64, min_y: i64, max_x: i64, max_y: i64) -> MultiPolygon {
    let outer = vec![
        Coord { x: min_x, y: min_y },
        Coord { x: min_x, y: max_y },
        Coord { x: max_x, y: max_y },
        Coord { x: max_x, y: min_y },
    ];
    MultiPolygon {
        polys: vec![Polygon { outer, holes: vec![] }],
    }
}

fn rect_boundary(name: &str, level: u8, min_x: i64, min_y: i64, max_x: i64, max_y: i64) -> Boundary {
    Boundary::new(
        rect(min_x, min_y, max_x, max_y),
        name.as_bytes().to_vec(),
        level,
    )
}

fn test_boundaries() -> Vec<Boundary> {
    vec![
        rect_boundary("left", 0, 0, 0, 4_000_000, DEG),
        rect_boundary("small left", 0, 0, 0, 3_000_000, DEG),
        rect_boundary("right", 0, 6_000_000, 0, DEG, DEG),
        rect_boundary("middle", 0, 2_500_000, 0, 7_500_000, DEG),
        rect_boundary("huge", 0, 0, 0, DEG, DEG),
    ]
}

fn located_names(tree: &RTree, x: i64, y: i64) -> Vec<String> {
    let idxs = tree.locate_all_at_point(Coord { x, y });
    let mut names: Vec<String> = idxs
        .iter()
        .map(|&i| String::from_utf8(tree.get(i).name.clone()).unwrap())
        .collect();
    names.sort();
    names
}

fn sorted(names: &[&str]) -> Vec<String> {
    let mut v: Vec<String> = names.iter().map(|s| s.to_string()).collect();
    v.sort();
    v
}

#[test]
fn locates_points_in_boundaries() {
    let tree = build_rtree(test_boundaries());
    let names = located_names(&tree, 3_000_000, 2_000_000);
    assert_eq!(names, sorted(&["huge", "middle", "small left", "left"]));
    let names = located_names(&tree, 5_000_000, 5_000_000);
    assert_eq!(names, sorted(&["huge", "middle"]));
    let names = located_names(&tree, 8_000_000, 5_000_000);
    assert_eq!(names, sorted(&["huge", "right"]));
    let names = located_names(&tree, 11_000_000, 5_000_000);
    let empty: Vec<String> = vec![];
    assert_eq!(names, empty);
}

fn schwachhausen_tree() -> RTree {
    // a rectangle around the Schwachhausen fixture queries
    build_rtree(vec![rect_boundary(
        "Schwachhausen",
        10,
        87_800_000,
        530_500_000,
        88_600_000,
        531_100_000,
    )])
}

#[test]
fn locate_hit() {
    let tree = schwachhausen_tree();
    let body = locate_response(&tree, &b"8.822,53.089".to_vec()).unwrap();
    assert_eq!(
        String::from_utf8(body).unwrap(),
        "{\"boundaries\":[{\"level\":10,\"name\":\"Schwachhausen\"}]}"
    );
}

#[test]
fn locate_miss() {
    let tree = schwachhausen_tree();
    let body = locate_response(&tree, &b"9.822,53.089".to_vec()).unwrap();
    assert_eq!(String::from_utf8(body).unwrap(), "{\"boundaries\":[]}");
}

#[test]
fn locate_400() {
    let tree = schwachhausen_tree();
    let r = locate_response(&tree, &b",1".to_vec());
    assert_eq!(r, Err(LocationError::Malformed));
}

#[test]
fn locate_rejects_out_of_range() {
    let tree = schwachhausen_tree();
    assert_eq!(
        locate_response(&tree, &b"181,0".to_vec()),
        Err(LocationError::LngOutOfRange)
    );
    assert_eq!(
        locate_response(&tree, &b"-180.0000001,0".to_vec()),
        Err(LocationError::LngOutOfRange)
    );
    assert_eq!(
        locate_response(&tree, &b"0,90.5".to_vec()),
        Err(LocationError::LatOutOfRange)
    );
    assert_eq!(
        locate_response(&tree, &b"0,-91".to_vec()),
        Err(LocationError::LatOutOfRange)
    );
    // the extremes themselves are accepted
    assert!(locate_response(&tree, &b"180,90".to_vec()).is_ok());
    assert!(locate_response(&tree, &b"-180,-90".to_vec()).is_ok());
}

#[test]
fn bulk_three_records() {
    let tree = schwachhausen_tree();
    let body = b"1,8.859,53.090\n2,8.822,53.089\n3,0.0,0.0".to_vec();
    let out = process_bulk(&tree, &body).unwrap();
    assert_eq!(
        String::from_utf8(out).unwrap(),
        "1,Schwachhausen\n2,Schwachhausen\n3,\n"
    );
}

#[test]
fn bulk_rejects_any_bad_line() {
    let tree = schwachhausen_tree();
    assert!(process_bulk(&tree, &b"1,8.822,53.089\nbroken\n2,0,0".to_vec()).is_err());
    assert!(process_bulk(&tree, &b"1,200,0".to_vec()).is_err());
    assert!(process_bulk(&tree, &b"no-comma".to_vec()).is_err());
}

#[test]
fn bulk_stream_matches_bulk() {
    let tree = schwachhausen_tree();
    let mut stream = BulkStream::new();
    let mut collected = Vec::new();
    collected.extend(stream.feed(&tree, &b"1,8.859,53.0".to_vec()).unwrap());
    collected.extend(
        stream
            .feed(&tree, &b"90\n2,8.822,53.089\n3,0.0".to_vec())
            .unwrap(),
    );
    collected.extend(stream.feed(&tree, &b",0.0".to_vec()).unwrap());
    collected.extend(stream.finish(&tree).unwrap());
    assert_eq!(
        String::from_utf8(collected).unwrap(),
        "1,Schwachhausen\n2,Schwachhausen\n3,\n"
    );
}

#[test]
fn polygon_hole_excludes_point() {
    let outer = vec![
        Coord { x: 0, y: 0 },
        Coord { x: 0, y: 10 * DEG },
        Coord { x: 10 * DEG, y: 10 * DEG },
        Coord { x: 10 * DEG, y: 0 },
    ];
    let hole = vec![
        Coord { x: 4 * DEG, y: 4 * DEG },
        Coord { x: 4 * DEG, y: 6 * DEG },
        Coord { x: 6 * DEG, y: 6 * DEG },
        Coord { x: 6 * DEG, y: 4 * DEG },
    ];
    let mp = MultiPolygon {
        polys: vec![Polygon {
            outer,
            holes: vec![hole],
        }],
    };
    let b = Boundary::new(mp, b"donut".to_vec(), 4);
    assert!(b.contains(Coord { x: 2 * DEG, y: 2 * DEG }));
    assert!(!b.contains(Coord {
        x: 5 * DEG,
        y: 5 * DEG
    }));
    assert!(!b.contains(Coord {
        x: 11 * DEG,
        y: 5 * DEG
    }));
}

#[test]
fn bbox_is_exact_extent() {
    let b = rect_boundary("r", 6, -3, -7, 11, 13);
    assert_eq!(b.bbox.min_x, -3);
    assert_eq!(b.bbox.min_y, -7);
    assert_eq!(b.bbox.max_x, 11);
    assert_eq!(b.bbox.max_y, 13);
    assert_eq!(b.area, 14 * 20);
}

#[test]
fn locate_matches_flat_scan() {
    let tree = build_rtree(test_boundaries());
    let points = [
        (3_000_000i64, 2_000_000i64),
        (5_000_000, 5_000_000),
        (8_000_000, 5_000_000),
        (11_000_000, 5_000_000),
        (0, 0),
    ];
    for &(x, y) in points.iter() {
        let p = Coord { x, y };
        assert_eq!(tree.locate(p), tree.flat_scan(p));
    }
}

#[test]
fn parses_admin_levels() {
    assert_eq!(parse_u8(&b"10".to_vec()), Some(10));
    assert_eq!(parse_u8(&b"+7".to_vec()), Some(7));
    assert_eq!(parse_u8(&b"0255".to_vec()), Some(255));
    assert_eq!(parse_u8(&b"256".to_vec()), None);
    assert_eq!(parse_u8(&b"".to_vec()), None);
    assert_eq!(parse_u8(&b"9a".to_vec()), None);
    let levels = default_admin_levels();
    assert_eq!(levels, vec![4, 6, 8, 9, 10]);
    assert_eq!(check_admin_level(&b"10".to_vec(), &levels), Some(10));
    assert_eq!(check_admin_level(&b"5".to_vec(), &levels), None);
    assert_eq!(check_admin_level(&b"x".to_vec(), &levels), None);
}

#[test]
fn parses_fixed_point_decimals() {
    match osm_admin_lookup::location::parse_fixed(&b"8.822".to_vec()) {
        FixedParse::Val(v) => assert_eq!(v, 88_220_000),
        _ => panic!("expected a value"),
    }
    match osm_admin_lookup::location::parse_fixed(&b"-0.5".to_vec()) {
        FixedParse::Val(v) => assert_eq!(v, -5_000_000),
        _ => panic!("expected a value"),
    }
    match osm_admin_lookup::location::parse_fixed(&b"0.123456789".to_vec()) {
        FixedParse::Val(v) => assert_eq!(v, 1_234_567),
        _ => panic!("expected a value"),
    }
    match osm_admin_lookup::location::parse_fixed(&b"1000".to_vec()) {
        FixedParse::TooBig => {}
        _ => panic!("expected too big"),
    }
    match osm_admin_lookup::location::parse_fixed(&b".".to_vec()) {
        FixedParse::Bad => {}
        _ => panic!("expected bad"),
    }
}

#[test]
fn parses_exponent_notation() {
    // the grammar of f64 parsing: an optional exponent shifts the point
    match osm_admin_lookup::location::parse_fixed(&b"1e1".to_vec()) {
        FixedParse::Val(v) => assert_eq!(v, 100_000_000),
        _ => panic!("expected a value"),
    }
    match osm_admin_lookup::location::parse_fixed(&b"1.5E1".to_vec()) {
        FixedParse::Val(v) => assert_eq!(v, 150_000_000),
        _ => panic!("expected a value"),
    }
    match osm_admin_lookup::location::parse_fixed(&b"15e-1".to_vec()) {
        FixedParse::Val(v) => assert_eq!(v, 15_000_000),
        _ => panic!("expected a value"),
    }
    match osm_admin_lookup::location::parse_fixed(&b"-2.5e+1".to_vec()) {
        FixedParse::Val(v) => assert_eq!(v, -250_000_000),
        _ => panic!("expected a value"),
    }
    // truncation beyond the seventh fractional digit, after the shift
    match osm_admin_lookup::location::parse_fixed(&b"1e-8".to_vec()) {
        FixedParse::Val(v) => assert_eq!(v, 0),
        _ => panic!("expected a value"),
    }
    match osm_admin_lookup::location::parse_fixed(&b"1.23456789e1".to_vec()) {
        FixedParse::Val(v) => assert_eq!(v, 123_456_789),
        _ => panic!("expected a value"),
    }
    // out of the longitude range, and extreme exponents
    match osm_admin_lookup::location::parse_fixed(&b"1e5".to_vec()) {
        FixedParse::TooBig => {}
        _ => panic!("expected too big"),
    }
    match osm_admin_lookup::location::parse_fixed(&b"1e99999999999999999999999".to_vec()) {
        FixedParse::TooBig => {}
        _ => panic!("expected too big"),
    }
    match osm_admin_lookup::location::parse_fixed(&b"0e99999999999999999999999".to_vec()) {
        FixedParse::Val(v) => assert_eq!(v, 0),
        _ => panic!("expected a value"),
    }
    match osm_admin_lookup::location::parse_fixed(&b"5e-99999999999999999999999".to_vec()) {
        FixedParse::Val(v) => assert_eq!(v, 0),
        _ => panic!("expected a value"),
    }
    // a marker with no digits is not a number
    match osm_admin_lookup::location::parse_fixed(&b"1e".to_vec()) {
        FixedParse::Bad => {}
        _ => panic!("expected bad"),
    }
    match osm_admin_lookup::location::parse_fixed(&b"e5".to_vec()) {
        FixedParse::Bad => {}
        _ => panic!("expected bad"),
    }
}

#[test]
fn locate_accepts_exponent_notation() {
    let tree = schwachhausen_tree();
    // 1e1 is ten degrees: parseable as a float and inside the ranges
    let loc = parse_location(&b"1e1,5".to_vec()).unwrap();
    assert_eq!(loc.lng, 100_000_000);
    assert_eq!(loc.lat, 50_000_000);
    let body = locate_response(&tree, &b"1e1,5".to_vec()).unwrap();
    assert_eq!(String::from_utf8(body).unwrap(), "{\"boundaries\":[]}");
    assert_eq!(
        locate_response(&tree, &b"1e3,0".to_vec()),
        Err(LocationError::LngOutOfRange)
    );
}

#[test]
fn bulk_rejects_invalid_utf8() {
    let tree = schwachhausen_tree();
    // an id holding a stray continuation byte is not UTF-8
    let body = vec![0xFFu8, b',', b'0', b',', b'0'];
    assert!(process_bulk(&tree, &body).is_err());
    // the same line completed inside a stream fails the stream
    let mut stream = BulkStream::new();
    let mut chunk = vec![0xFFu8, b',', b'0', b',', b'0'];
    chunk.push(b'\n');
    assert!(stream.feed(&tree, &chunk).is_err());
    // a multi-byte name in the id decodes fine
    let ok_body = "z\u{00fc}rich,8.822,53.089".as_bytes().to_vec();
    assert_eq!(
        String::from_utf8(process_bulk(&tree, &ok_body).unwrap()).unwrap(),
        "z\u{00fc}rich,Schwachhausen\n"
    );
}

#[test]
fn location_new_checks_ranges() {
    assert!(Location::new(1_800_000_000, 900_000_000).is_ok());
    assert_eq!(
        Location::new(1_800_000_001, 0),
        Err(LocationError::LngOutOfRange)
    );
    assert_eq!(
        Location::new(0, -900_000_001),
        Err(LocationError::LatOutOfRange)
    );
}

#[test]
fn parse_location_exact_values() {
    let loc = parse_location(&b"8.822,53.089".to_vec()).unwrap();
    assert_eq!(loc.lng, 88_220_000);
    assert_eq!(loc.lat, 530_890_000);
    assert!(parse_location(&b"1,2,3".to_vec()).is_err());
    assert!(parse_location(&b"12".to_vec()).is_err());
}

#[test]
fn json_escapes_names() {
    let tree = build_rtree(vec![rect_boundary("a\"b\\c", 2, 0, 0, DEG, DEG)]);
    let body = locate_response(&tree, &b"0.5,0.5".to_vec()).unwrap();
    assert_eq!(
        String::from_utf8(body).unwrap(),
        "{\"boundaries\":[{\"level\":2,\"name\":\"a\\\"b\\\\c\"}]}"
    );
}

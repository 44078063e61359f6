use osm_admin_lookup::boundary::Boundary;
use osm_admin_lookup::codec::{load_tree, save_index};
use osm_admin_lookup::geom::{Coord, MultiPolygon, Polygon};
use osm_admin_lookup::rtree::build_rtree;
use osm_admin_lookup::service::locate_response;

const DEG: i64 = 10_000_000;

fn rect_boundary(name: &str, level: u8, min_x: i64, min_y: i64, max_x: i64, max_y: i64) -> Boundary {
    let outer = vec![
        Coord { x: min_x, y: min_y },
        Coord { x: min_x, y: max_y },
        Coord { x: max_x, y: max_y },
        Coord { x: max_x, y: min_y },
    ];
    Boundary::new(
        MultiPolygon {
            polys: vec![Polygon { outer, holes: vec![] }],
        },
        name.as_bytes().to_vec(),
        level,
    )
}

fn sample_boundaries() -> Vec<Boundary> {
    vec![
        rect_boundary("left", 10, 0, 0, 4_000_000, DEG),
        rect_boundary("small left", 10, 0, 0, 3_000_000, DEG),
        rect_boundary("right", 10, 6_000_000, 0, DEG, DEG),
        rect_boundary("middle", 10, 2_500_000, 0, 7_500_000, DEG),
        rect_boundary("huge", 10, 0, 0, DEG, DEG),
    ]
}

#[test]
fn save_load_round_trip() {
    let tree = build_rtree(sample_boundaries());
    let bytes = save_index(&tree);
    let reloaded = load_tree(&bytes).expect("a saved index must reload");
    assert_eq!(tree.boundaries, reloaded.boundaries);
    let queries: [&[u8]; 4] = [b"0.3,0.2", b"0.5,0.5", b"0.8,0.5", b"1.1,0.5"];
    for q in queries.iter() {
        let before = locate_response(&tree, &q.to_vec()).unwrap();
        let after = locate_response(&reloaded, &q.to_vec()).unwrap();
        assert_eq!(before, after);
    }
}

#[test]
fn save_load_empty_index() {
    let tree = build_rtree(vec![]);
    let bytes = save_index(&tree);
    let reloaded = load_tree(&bytes).expect("an empty index must reload");
    assert_eq!(reloaded.len(), 0);
    assert_eq!(reloaded.locate(Coord { x: 0, y: 0 }), vec![]);
}

#[test]
fn load_rejects_corrupt_bytes() {
    assert!(load_tree(&vec![1, 2, 3]).is_err());
    assert!(load_tree(&vec![]).is_err());
    let tree = build_rtree(sample_boundaries());
    let mut bytes = save_index(&tree);
    // a flipped version tag
    bytes[0] = bytes[0].wrapping_add(1);
    assert!(load_tree(&bytes).is_err());
    // a truncated image
    let bytes2 = save_index(&tree);
    let cut = bytes2.len() - 8;
    assert!(load_tree(&bytes2[..cut].to_vec()).is_err());
    // trailing garbage
    let mut bytes3 = save_index(&tree);
    bytes3.extend_from_slice(&[0u8; 8]);
    assert!(load_tree(&bytes3).is_err());
}

#[test]
fn reload_preserves_boundary_fields() {
    let tree = build_rtree(vec![rect_boundary("only", 8, -DEG, -DEG, DEG, DEG)]);
    let bytes = save_index(&tree);
    let reloaded = load_tree(&bytes).unwrap();
    assert_eq!(reloaded.len(), 1);
    let b = reloaded.get(0);
    assert_eq!(b.name, b"only".to_vec());
    assert_eq!(b.admin_level, 8);
    assert_eq!(b.bbox.min_x, -DEG);
    assert_eq!(b.bbox.max_y, DEG);
    assert_eq!(b.area, 2 * DEG * (2 * DEG));
}

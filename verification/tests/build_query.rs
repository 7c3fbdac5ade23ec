use hexit::err::Error;
use hexit::artifact::{lookup, query_artifact};
use hexit::generate::{generate, SetInput};
use hexit::world::{build_world, process_feature, FeatureSource};

use std::io::Write;

fn gz(cells: &[u64]) -> Vec<u8> {
    let mut enc = flate2::write::GzEncoder::new(Vec::new(), flate2::Compression::default());
    for c in cells {
        enc.write_all(&c.to_le_bytes()).unwrap();
    }
    enc.finish().unwrap()
}

fn cell_at(lat: f64, lon: f64, res: u8) -> u64 {
    let ll = h3o::LatLng::new(lat, lon).unwrap();
    let r = h3o::Resolution::try_from(res).unwrap();
    u64::from(ll.to_cell(r))
}

fn input(name: &str, cells: &[u64]) -> SetInput {
    SetInput { base_name: name.as_bytes().to_vec(), data: gz(cells) }
}

#[test]
fn overlap_by_name_order() {
    // alpha holds {A, B}, beta holds {B, C}; alpha sorts first, so beta
    // is inserted later and wins the shared cell B.
    let a = cell_at(10.0, 10.0, 7);
    let b = cell_at(20.0, 20.0, 7);
    let c = cell_at(30.0, 30.0, 7);
    let inputs = vec![input("beta.h3idz", &[b, c]), input("alpha.h3idz", &[a, b])];
    let art = generate(inputs).unwrap();
    assert_eq!(query_artifact(&art, a).unwrap(), Some(b"alpha".to_vec()));
    assert_eq!(query_artifact(&art, c).unwrap(), Some(b"beta".to_vec()));
    assert_eq!(query_artifact(&art, b).unwrap(), Some(b"beta".to_vec()));
}

#[test]
fn repeated_builds_are_identical() {
    let a = cell_at(10.0, 10.0, 7);
    let b = cell_at(20.0, 20.0, 7);
    let first = generate(vec![input("beta.x", &[b]), input("alpha.x", &[a, b])]).unwrap();
    let second = generate(vec![input("beta.x", &[b]), input("alpha.x", &[a, b])]).unwrap();
    assert_eq!(first, second);
    assert_eq!(query_artifact(&first, b).unwrap(), Some(b"beta".to_vec()));
    assert_eq!(query_artifact(&second, b).unwrap(), Some(b"beta".to_vec()));
}

#[test]
fn miss_is_no_entry_not_error() {
    let a = cell_at(10.0, 10.0, 7);
    let far = cell_at(-40.0, -120.0, 7);
    let art = generate(vec![input("alpha.h3idz", &[a])]).unwrap();
    let r = query_artifact(&art, far);
    assert_eq!(r, Ok(None));
}

#[test]
fn lookup_rejects_invalid_cell() {
    let a = cell_at(10.0, 10.0, 7);
    let art = generate(vec![input("alpha.h3idz", &[a])]).unwrap();
    assert_eq!(lookup(&art, 0), Err(Error::InvalidCell(0)));
    assert_eq!(lookup(&art, a).unwrap(), Some(b"alpha".to_vec()));
}

#[test]
fn corrupt_trailing_pointer_is_an_error() {
    let a = cell_at(10.0, 10.0, 7);
    let mut art = generate(vec![input("alpha.h3idz", &[a])]).unwrap();
    let n = art.len();
    let bogus = (n as u64) + 100;
    art[n - 8..].copy_from_slice(&bogus.to_le_bytes());
    assert_eq!(query_artifact(&art, a), Err(Error::CorruptArtifact));
}

#[test]
fn lookup_resolves_through_compacted_ancestor() {
    // a complete sibling set compacts into its parent; a query for one
    // child must still resolve through that ancestor leaf
    let parent = h3o::CellIndex::try_from(0x851fb467fffffff).unwrap();
    let children: Vec<u64> = parent.children(h3o::Resolution::Six).map(u64::from).collect();
    let art = generate(vec![input("alpha.h3idz", &children)]).unwrap();
    assert_eq!(query_artifact(&art, children[0]).unwrap(), Some(b"alpha".to_vec()));
}

#[test]
fn damaged_tree_region_does_not_panic() {
    // valid header and label table, but the mapping region declares a
    // leaf whose value runs far past end of file: the query must come
    // back with a result, never crash
    let cell = cell_at(10.0, 10.0, 7);
    let base = ((cell >> 45) & 0x7f) as usize;
    let node_pos = 9 + 122 * 5;
    let mut art = vec![0u8; node_pos + 4];
    art[..8].copy_from_slice(b"hextree\x00");
    art[8] = 0xfe;
    let dptr = (node_pos as u64).to_le_bytes();
    art[9 + 5 * base..9 + 5 * base + 5].copy_from_slice(&dptr[..5]);
    // leaf tag whose length prefix declares a huge value
    art[node_pos..node_pos + 4].copy_from_slice(&[0x08, 0xff, 0xff, 0xff]);
    let lut_pos = art.len() as u64;
    art.extend_from_slice(&1u64.to_le_bytes());
    art.extend_from_slice(&4u64.to_le_bytes());
    art.extend_from_slice(b"zone");
    art.extend_from_slice(&lut_pos.to_le_bytes());
    let r = query_artifact(&art, cell);
    assert!(matches!(r, Ok(_) | Err(_)));
}

#[test]
fn capacity_boundary() {
    let a = cell_at(10.0, 10.0, 7);
    let data = gz(&[a]);
    let mut inputs = Vec::new();
    for i in 0..256 {
        inputs.push(SetInput { base_name: format!("r{i:03}.h3idz").into_bytes(), data: data.clone() });
    }
    assert!(generate(inputs).is_ok());
    let mut too_many = Vec::new();
    for i in 0..257 {
        too_many.push(SetInput { base_name: format!("r{i:03}.h3idz").into_bytes(), data: data.clone() });
    }
    assert_eq!(generate(too_many), Err(Error::TooManySources(257)));
}

#[test]
fn bad_gzip_aborts_build() {
    let inputs = vec![SetInput { base_name: b"alpha.h3idz".to_vec(), data: vec![1, 2, 3, 4] }];
    assert_eq!(generate(inputs), Err(Error::BadGzip));
}

#[test]
fn invalid_cell_aborts_build() {
    let inputs = vec![input("alpha.h3idz", &[0xffff_ffff_ffff_ffff])];
    assert_eq!(generate(inputs), Err(Error::InvalidCell(0xffff_ffff_ffff_ffff)));
}

#[test]
fn mixed_resolutions_abort_build() {
    let a = cell_at(10.0, 10.0, 7);
    let b = cell_at(20.0, 20.0, 8);
    assert_eq!(generate(vec![input("alpha.h3idz", &[a, b])]), Err(Error::MixedResolutions));
}

fn square(lat: f64, lon: f64, half: f64) -> geojson::Geometry {
    let ring = vec![
        (lon - half, lat - half),
        (lon + half, lat - half),
        (lon + half, lat + half),
        (lon - half, lat + half),
        (lon - half, lat - half),
    ];
    geojson::Geometry::new_polygon(vec![ring])
}

#[test]
fn world_build_resolves_interior_cell() {
    let feature = FeatureSource {
        properties: Some(b"{\"name\":\"zone\"}".to_vec()),
        geometry: Some(square(45.0, 7.0, 0.5)),
    };
    let art = build_world(vec![feature], 7).unwrap();
    let inside = cell_at(45.0, 7.0, 7);
    assert_eq!(query_artifact(&art, inside).unwrap(), Some(b"{\"name\":\"zone\"}".to_vec()));
    let outside = cell_at(-45.0, -100.0, 7);
    assert_eq!(query_artifact(&art, outside).unwrap(), None);
}

#[test]
fn world_overlap_later_feature_wins() {
    let first = FeatureSource {
        properties: Some(b"first".to_vec()),
        geometry: Some(square(45.0, 7.0, 0.5)),
    };
    let second = FeatureSource {
        properties: Some(b"second".to_vec()),
        geometry: Some(square(45.0, 7.0, 0.5)),
    };
    let art = build_world(vec![first, second], 7).unwrap();
    let inside = cell_at(45.0, 7.0, 7);
    assert_eq!(query_artifact(&art, inside).unwrap(), Some(b"second".to_vec()));
}

#[test]
fn feature_without_properties_fails_with_its_index() {
    let feature = FeatureSource { properties: None, geometry: Some(square(45.0, 7.0, 0.5)) };
    let ok = FeatureSource {
        properties: Some(b"x".to_vec()),
        geometry: Some(square(10.0, 10.0, 0.5)),
    };
    assert_eq!(build_world(vec![ok, feature], 7), Err(Error::MissingProperties(1)));
}

#[test]
fn feature_without_geometry_fails_with_its_index() {
    let feature = FeatureSource { properties: Some(b"x".to_vec()), geometry: None };
    assert_eq!(build_world(vec![feature], 7), Err(Error::MissingGeometry(0)));
}

#[test]
fn process_feature_rejects_label_overflow() {
    let feature = FeatureSource {
        properties: Some(b"x".to_vec()),
        geometry: Some(square(45.0, 7.0, 0.5)),
    };
    assert_eq!(process_feature(256, feature, 7), Err(Error::TooManySources(256)));
}

#[test]
fn world_capacity_boundary() {
    let mut features = Vec::new();
    for _ in 0..257 {
        features.push(FeatureSource {
            properties: Some(b"x".to_vec()),
            geometry: Some(square(45.0, 7.0, 0.5)),
        });
    }
    assert_eq!(build_world(features, 7), Err(Error::TooManySources(257)));
}

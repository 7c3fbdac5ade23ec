use vstd::prelude::*;
use crate::artifact::{all_cells_valid, artifact_layout, assemble_artifact};
use crate::bytes::u64_from_le;
use crate::cells::{cell_res, cell_valid, compact_of, normalize_cells, sorted_dedup};
use crate::err::Error;
use crate::lut::lut_decode;
use crate::tree::{map_after, resolve_cell, tree_lookup_of};

verus! {

#[verifier::external_type_specification]
#[verifier::external_body]
pub struct ExGeometry(geojson::Geometry);

/// One feature of a geometry collection, as handed to a build: its
/// serialized properties object and its geometry, either possibly
/// missing from the document.
pub struct FeatureSource {
    /// The feature's properties object, serialized; `None` when the
    /// document omits it.
    pub properties: Option<Vec<u8>>,
    /// The feature's geometry; `None` when the document omits it.
    pub geometry: Option<geojson::Geometry>,
}

/// The cells covering a geometry at a resolution, or nothing when the
/// geometry cannot be tiled.  Named after h3o's tiler, whose result
/// depends on the geometry and the resolution alone.
pub uninterp spec fn raster_of(g: geojson::Geometry, resolution: u8) -> Option<Seq<u64>>;

/// Relies on h3o's TilerBuilder and Tiler, through the geo-types
/// reading of the geometry: rasterizes a polygonal geometry into the
/// cells covering it at the given resolution.  `None` when the
/// geometry cannot be tiled.  Every produced cell is a valid cell
/// index at exactly the requested resolution.
#[verifier::external_body]
fn rasterize(g: &geojson::Geometry, resolution: u8) -> (r: Option<Vec<u64>>)
    requires
        resolution <= 15,
    ensures
        match r {
            Some(v) => {
                &&& raster_of(*g, resolution) == Some(v@)
                &&& forall|i: int|
                    0 <= i < v@.len() ==> cell_valid(#[trigger] v@[i]) && cell_res(v@[i])
                        == resolution
            },
            None => raster_of(*g, resolution) is None,
        },
{
    let geom = match geo_types::Geometry::try_from(&g.value) {
        Ok(geom) => geom,
        Err(_) => return None,
    };
    let res = h3o::Resolution::try_from(resolution).expect("a resolution within range");
    let mut tiler = h3o::geom::TilerBuilder::new(res).build();
    let added = match geom {
        geo_types::Geometry::Polygon(p) => tiler.add(p),
        geo_types::Geometry::MultiPolygon(mp) => tiler.add_batch(mp),
        _ => return None,
    };
    match added {
        Ok(()) => Some(tiler.into_coverage().map(u64::from).collect()),
        Err(_) => None,
    }
}

/// Whether `props` and `cells` are the faithful reading of `feature`
/// at position `idx`: the serialized properties, and the normalized
/// (sorted, deduplicated, compacted) rasterization of the geometry.
pub open spec fn feature_reading(
    idx: usize,
    feature: FeatureSource,
    resolution: u8,
    props: Seq<u8>,
    cells: Seq<u64>,
) -> bool {
    &&& idx <= 255
    &&& feature.properties is Some
    &&& feature.geometry is Some
    &&& props == feature.properties.unwrap()@
    &&& raster_of(feature.geometry.unwrap(), resolution) is Some
    &&& cells == compact_of(
        sorted_dedup(raster_of(feature.geometry.unwrap(), resolution).unwrap()),
    )
    &&& forall|i: int| 0 <= i < cells.len() ==> cell_valid(#[trigger] cells[i])
}

/// Whether `e` is the failure that reading `feature` at position `idx`
/// owes: each variant comes exactly on its own cause, in the order the
/// checks run, so a feature with properties, a geometry and a tileable
/// shape owes success.
pub open spec fn feature_failure(idx: usize, feature: FeatureSource, resolution: u8, e: Error) -> bool {
    match e {
        Error::TooManySources(i) => i == idx && idx > 255,
        Error::MissingProperties(i) => i == idx && idx <= 255 && feature.properties is None,
        Error::MissingGeometry(i) => i == idx && idx <= 255 && feature.properties is Some
            && feature.geometry is None,
        Error::BadGeometry(i) => i == idx && idx <= 255 && feature.properties is Some
            && feature.geometry is Some && raster_of(feature.geometry.unwrap(), resolution) is None,
        _ => false,
    }
}

/// Processes one feature: demands a properties object and a geometry
/// (an omission fails the build, naming the feature), rasterizes the
/// geometry and normalizes the cell set.  Yields the serialized
/// properties and the normalized rasterization.
pub fn process_feature(idx: usize, feature: FeatureSource, resolution: u8) -> (r: Result<
    (Vec<u8>, Vec<u64>),
    Error,
>)
    requires
        resolution <= 15,
    ensures
        match r {
            Ok(pv) => feature_reading(idx, feature, resolution, pv.0@, pv.1@),
            Err(e) => feature_failure(idx, feature, resolution, e),
        },
{
    if idx > 255 {
        return Err(Error::TooManySources(idx));
    }
    let properties = match feature.properties {
        Some(p) => p,
        None => {
            return Err(Error::MissingProperties(idx));
        },
    };
    let geometry = match &feature.geometry {
        Some(g) => g,
        None => {
            return Err(Error::MissingGeometry(idx));
        },
    };
    let raw = match rasterize(geometry, resolution) {
        Some(cells) => cells,
        None => {
            return Err(Error::BadGeometry(idx));
        },
    };
    match normalize_cells(raw) {
        Ok(cells) => {
            let result = (properties, cells);
            proof {
                assert(feature_reading(idx, feature, resolution, result.0@, result.1@));
            }
            Ok(result)
        },
        Err(e) => {
            // unreachable: the rasterizer's cells share one resolution
            proof {
                let (a, b) = choose|a: int, b: int|
                    0 <= a < raw@.len() && 0 <= b < raw@.len() && cell_res(#[trigger] raw@[a])
                        != cell_res(#[trigger] raw@[b]);
                assert(false);
            }
            Err(e)
        },
    }
}

/// The normalized rasterization of every feature, in feature order.
pub open spec fn world_cells(features: Seq<FeatureSource>, resolution: u8) -> Seq<Seq<u64>> {
    features.map_values(
        |f: FeatureSource| compact_of(sorted_dedup(raster_of(f.geometry.unwrap(), resolution).unwrap())),
    )
}

/// Whether `entries` explains a geometry-mode artifact: one valid
/// normalized cell set per feature, in feature order, the artifact's
/// mapping resolving every valid cell against them with positions as
/// labels.
pub open spec fn world_witness(art: Seq<u8>, n: int, entries: Seq<Seq<u64>>) -> bool {
    &&& entries.len() == n
    &&& all_cells_valid(entries)
    &&& forall|c: u64|
        cell_valid(c) ==> #[trigger] tree_lookup_of(art, c) == Some(
            resolve_cell(map_after(entries), c),
        )
}

/// The serialized properties of the features, in feature order.
pub open spec fn properties_of(features: Seq<FeatureSource>) -> Seq<Seq<u8>> {
    features.map_values(|f: FeatureSource| f.properties.unwrap()@)
}

/// Builds an artifact from a geometry collection: every feature is
/// rasterized at the given resolution and normalized; the feature's
/// position is its label and its serialized properties the interned
/// value.  Fails on more than 256 features before any work.
pub fn build_world(features: Vec<FeatureSource>, resolution: u8) -> (r: Result<Vec<u8>, Error>)
    requires
        resolution <= 15,
    ensures
        features@.len() > 256 ==> (r matches Err(e) && e == Error::TooManySources(
            features@.len() as usize,
        )),
        match r {
            Ok(art) => {
                &&& features@.len() <= 256
                &&& art@.len() >= 8
                &&& forall|k: int|
                    0 <= k < features@.len() ==> (#[trigger] features@[k]).properties is Some
                        && features@[k].geometry is Some && raster_of(
                        features@[k].geometry.unwrap(),
                        resolution,
                    ) is Some
                &&& world_witness(art@, features@.len() as int, world_cells(features@, resolution))
                &&& lut_decode(art@, u64_from_le(art@.skip(art@.len() - 8)) as int) == Some(
                    properties_of(features@),
                )
                &&& artifact_layout(art@, properties_of(features@))
                &&& art@ == crate::artifact::artifact_bytes(
                    map_after(world_cells(features@, resolution)),
                    properties_of(features@),
                )
            },
            Err(e) => match e {
                Error::TooManySources(n) => n == features@.len() && features@.len() > 256,
                Error::MissingProperties(i) => 0 <= i < features@.len() && features@[
                    i as int].properties is None,
                Error::MissingGeometry(i) => 0 <= i < features@.len() && features@[
                    i as int].properties is Some && features@[i as int].geometry is None,
                Error::BadGeometry(i) => 0 <= i < features@.len() && features@[
                    i as int].properties is Some && features@[i as int].geometry is Some
                    && raster_of(features@[i as int].geometry.unwrap(), resolution) is None,
                _ => false,
            },
        },
{
    let n = features.len();
    if n > 256 {
        return Err(Error::TooManySources(n));
    }
    let ghost fseq = features@;
    let mut rest = features;
    let mut values: Vec<Vec<u8>> = Vec::new();
    let mut cellsets: Vec<Vec<u64>> = Vec::new();
    let mut idx: usize = 0;
    while rest.len() > 0
        invariant
            fseq == features@,
            resolution <= 15,
            idx == values@.len() == cellsets@.len(),
            idx + rest@.len() == fseq.len() == n <= 256,
            forall|k: int| 0 <= k < rest@.len() ==> #[trigger] rest@[k] == fseq[k + idx],
            forall|k: int|
                0 <= k < idx ==> (#[trigger] fseq[k]).properties is Some
                    && fseq[k].geometry is Some && raster_of(
                    fseq[k].geometry.unwrap(),
                    resolution,
                ) is Some,
            forall|k: int| 0 <= k < idx ==> #[trigger] values@[k]@ == fseq[k].properties.unwrap()@,
            forall|k: int|
                0 <= k < idx ==> #[trigger] cellsets@[k]@ == compact_of(
                    sorted_dedup(raster_of(fseq[k].geometry.unwrap(), resolution).unwrap()),
                ),
            forall|k: int, j: int|
                0 <= k < idx && 0 <= j < cellsets@[k]@.len() ==> cell_valid(
                    #[trigger] cellsets@[k]@[j],
                ),
        decreases rest@.len(),
    {
        let feature = rest.remove(0);
        assert(feature == fseq[idx as int]);
        match process_feature(idx, feature, resolution) {
            Ok(pv) => {
                let (props, cells) = pv;
                values.push(props);
                cellsets.push(cells);
            },
            Err(e) => {
                return Err(e);
            },
        };
        idx = idx + 1;
        proof {
            assert(forall|k: int| 0 <= k < rest@.len() ==> #[trigger] rest@[k] == fseq[k
                + idx]);
        }
    }
    proof {
        assert(all_cells_valid(cellsets.deep_view())) by {
            assert forall|k: int, j: int|
                0 <= k < cellsets.deep_view().len() && 0 <= j
                    < cellsets.deep_view()[k].len() implies cell_valid(
                #[trigger] cellsets.deep_view()[k][j],
            ) by {
                assert(cellsets.deep_view()[k] =~= cellsets@[k]@);
            }
        }
        assert(values.deep_view() =~~= properties_of(fseq));
        assert(cellsets.deep_view() =~~= world_cells(fseq, resolution));
    }
    let result = assemble_artifact(values, cellsets);
    match result {
        Ok(art) => {
            proof {
                assert(world_witness(art@, fseq.len() as int, world_cells(fseq, resolution)));
                assert(art@ == crate::artifact::artifact_bytes(
                    map_after(world_cells(fseq, resolution)),
                    properties_of(fseq),
                ));
            }
            Ok(art)
        },
        Err(e) => {
            // unreachable: at most 256 features reach assembly
            proof {
                assert(false);
            }
            Err(e)
        },
    }
}

} // verus!

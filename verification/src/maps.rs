//! The maps on screen: what they are drawn from, and when they are drawn again.

use vstd::prelude::*;
use crate::faults::{found, ids_of};
use crate::layer::Layer;
use crate::raster::{Raster, UVec2};
use crate::single::{be_bytes, le_bytes, Single};
use crate::terrain::TerrainSpec;
use crate::view::{is_water_map, map_resolution, water_map, MapRevisions};
use crate::water::WaterState;

verus! {

/// How the field on screen is lit and lined.
#[derive(Clone, Copy, Debug, PartialEq, Eq, Structural)]
pub struct MapSettings {
    /// Whether it is hillshaded.
    pub hillshade: bool,
    /// Where the light comes from, in degrees.
    pub light_azimuth: Single,
    /// Whether it has contours.
    pub contours: bool,
    /// How far apart they are.
    pub contour_interval: Single,
}

/// Which of a number's bytes a machine keeps first.
#[derive(Clone, Copy, Debug, PartialEq, Eq, Structural)]
pub enum ByteOrder {
    /// The least significant.
    Little,
    /// The most significant.
    Big,
}

/// A map of a field.
#[derive(Debug)]
pub struct FieldMap {
    /// Its texels.
    pub resolution: UVec2,
    /// The extent of the document it covers, in cells.
    pub document: UVec2,
    /// Four bytes per texel, in the order of the machine it is drawn on.
    pub bytes: Vec<u8>,
}

/// A map of the water.
#[derive(Debug)]
pub struct WaterMap {
    /// Its texels.
    pub resolution: UVec2,
    /// Two bytes per texel: whether water stands there, and whether it runs there.
    pub bytes: Vec<u8>,
}

/// What of the maps is to be drawn again.
#[derive(Debug)]
pub struct MapUpdate {
    /// How the field is lit and lined, where there is one.
    pub settings: Option<MapSettings>,
    /// The field, where it has changed.
    pub field: Option<FieldMap>,
    /// The water, where it has changed.
    pub water: Option<WaterMap>,
}

/// What the document and what is shown alone were last changed by.
#[derive(Clone, Copy, Debug, PartialEq, Eq, Structural)]
pub struct Revisions {
    /// The revision of the document.
    pub document: u64,
    /// The generation of what is shown alone.
    pub generation: u64,
    /// The revision of the water.
    pub water: u64,
}

/// How a layer is lit and lined.
pub open spec fn settings_of(layer: Layer) -> MapSettings {
    MapSettings {
        hillshade: layer.hillshade,
        light_azimuth: layer.light_azimuth,
        contours: layer.contours,
        contour_interval: layer.contour_interval,
    }
}

/// The four bytes of a number in an order.
pub open spec fn ordered_bytes(word: u32, order: ByteOrder) -> Seq<u8> {
    match order {
        ByteOrder::Little => le_bytes(word),
        ByteOrder::Big => be_bytes(word),
    }
}

/// The bytes of some values, four of each.
pub open spec fn value_bytes(values: Seq<Single>, order: ByteOrder) -> Seq<u8>
    decreases values.len(),
{
    if values.len() == 0 {
        Seq::empty()
    } else {
        value_bytes(values.drop_last(), order) + ordered_bytes(values.last().0, order)
    }
}

/// Whether a map is that of a raster over a document: one blank texel where the raster has
/// none.
pub open spec fn maps_field(
    map: FieldMap,
    baked: Raster<Single>,
    document: UVec2,
    order: ByteOrder,
) -> bool {
    &&& map.document == document
    &&& if baked.data@.len() == 0 {
        map.resolution == (UVec2 { x: 1, y: 1 }) && map.bytes@ == seq![0u8, 0, 0, 0]
    } else {
        map.resolution == baked.size && map.bytes@ == value_bytes(baked.data@, order)
    }
}

/// Whether a map is that of the water, or one blank texel where there is none.
pub open spec fn maps_water(map: WaterMap, water: Option<WaterState>, threshold: u16) -> bool {
    match water {
        Some(state) => map.resolution == state.depth.size && is_water_map(
            map.bytes@,
            state,
            threshold,
        ),
        None => map.resolution == (UVec2 { x: 1, y: 1 }) && map.bytes@ == seq![0u8, 0],
    }
}

/// The field of a document by name.
pub open spec fn shown_field(terrain: TerrainSpec, active: Seq<char>) -> Option<Layer> {
    match found(ids_of(terrain.fields@), active) {
        Some(place) => Some(terrain.fields@[place]),
        None => None,
    }
}

/// The bytes of some values in an order.
pub fn field_bytes(values: &Vec<Single>, order: ByteOrder) -> (bytes: Vec<u8>)
    ensures
        bytes@ == value_bytes(values@, order),
{
    let mut bytes: Vec<u8> = Vec::new();
    let mut i: usize = 0;
    proof {
        assert(values@.take(0) =~= Seq::<Single>::empty());
    }
    while i < values.len()
        invariant
            i <= values@.len(),
            bytes@ == value_bytes(values@.take(i as int), order),
        decreases values@.len() - i,
    {
        let four: [u8; 4] = match order {
            ByteOrder::Little => values[i].to_le_bytes(),
            ByteOrder::Big => values[i].to_be_bytes(),
        };
        let ghost before = bytes@;
        bytes.push(four[0]);
        bytes.push(four[1]);
        bytes.push(four[2]);
        bytes.push(four[3]);
        proof {
            assert(bytes@ =~= before + four@);
            assert(values@.take(i as int + 1).drop_last() =~= values@.take(i as int));
            assert(values@.take(i as int + 1).last() == values@[i as int]);
        }
        i = i + 1;
    }
    proof {
        assert(values@.take(i as int) =~= values@);
    }
    bytes
}

/// The map of a raster over a document.
pub fn field_map(baked: &Raster<Single>, document: UVec2, order: ByteOrder) -> (map: FieldMap)
    ensures
        maps_field(map, *baked, document, order),
{
    let resolution: UVec2 = map_resolution(baked);
    let bytes: Vec<u8> = if baked.is_empty() {
        let blank: Vec<u8> = vec![0, 0, 0, 0];
        blank
    } else {
        field_bytes(&baked.data, order)
    };
    proof {
        if baked.data@.len() == 0 {
            assert(bytes@ =~= seq![0u8, 0, 0, 0]);
        }
    }
    FieldMap { resolution, document, bytes }
}

/// The map of the water.
pub fn map_of_water(water: Option<&WaterState>, threshold: u16) -> (map: WaterMap)
    requires
        water matches Some(state) ==> state.wf(),
    ensures
        maps_water(
            map,
            match water {
                Some(state) => Some(*state),
                None => None,
            },
            threshold,
        ),
{
    match water {
        Some(state) => WaterMap { resolution: state.size(), bytes: water_map(state, threshold) },
        None => {
            let blank: Vec<u8> = vec![0, 0];
            proof {
                assert(blank@ =~= seq![0u8, 0]);
            }
            WaterMap { resolution: UVec2 { x: 1, y: 1 }, bytes: blank }
        },
    }
}

impl MapRevisions {
    /// What of the maps is to be drawn again for a document, noting that it has been.
    ///
    /// The field map shows the field `active`, or what is shown alone in its place. Where the
    /// document has moved on and carries no such field, nothing is drawn, the water neither.
    pub fn refresh(
        &mut self,
        terrain: &TerrainSpec,
        active: &str,
        alone: Option<&Raster<Single>>,
        now: Revisions,
        threshold: u16,
        order: ByteOrder,
    ) -> (update: MapUpdate)
        requires
            terrain.wf(),
        ensures
            ({
                let field = shown_field(*terrain, active@);
                let field_stale = old(self).field != Some((now.document, now.generation));
                let water_stale = old(self).water != Some(now.water);
                &&& final(self).field == Some((now.document, now.generation))
                &&& match (field, update.settings) {
                    (Some(layer), Some(settings)) => settings == settings_of(layer),
                    (None, None) => true,
                    _ => false,
                }
                &&& match update.field {
                    Some(map) => field_stale && field is Some && maps_field(
                        map,
                        match alone {
                            Some(raster) => *raster,
                            None => field->0.baked,
                        },
                        terrain.size,
                        order,
                    ),
                    None => !field_stale || field is None,
                }
                &&& if field_stale && field is None {
                    update.water is None && final(self).water == old(self).water
                } else {
                    &&& final(self).water == Some(now.water)
                    &&& match update.water {
                        Some(map) => water_stale && maps_water(map, terrain.water, threshold),
                        None => !water_stale,
                    }
                }
            }),
    {
        let layer: Option<&Layer> = terrain.field(active);
        let settings: Option<MapSettings> = match layer {
            Some(layer) => Some(
                MapSettings {
                    hillshade: layer.hillshade,
                    light_azimuth: layer.light_azimuth,
                    contours: layer.contours,
                    contour_interval: layer.contour_interval,
                },
            ),
            None => None,
        };
        let mut field: Option<FieldMap> = None;
        if self.field_is_stale(now.document, now.generation) {
            match layer {
                Some(layer) => {
                    let baked: &Raster<Single> = match alone {
                        Some(raster) => raster,
                        None => &layer.baked,
                    };
                    field = Some(field_map(baked, terrain.size, order));
                },
                None => {
                    return MapUpdate { settings, field: None, water: None };
                },
            }
        }
        let water: Option<WaterMap> = if self.water_is_stale(now.water) {
            Some(map_of_water(terrain.water(), threshold))
        } else {
            None
        };
        MapUpdate { settings, field, water }
    }
}

} // verus!

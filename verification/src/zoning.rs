//! Zoning of breadth-first regions and the cross-link grid built over
//! zoned regions.

use vstd::prelude::*;

use crate::types::WebNodeId;

verus! {

/// A single zone inside a region: the entries `start..end` of the region's
/// index map.
#[derive(Debug, Clone)]
pub struct Zone {
    pub zone_id: usize,
    pub start: usize,
    pub end: usize,
    pub centroid_node: Option<WebNodeId>,
    pub size: usize,
}

/// A breadth-first region with its ranking (`index_map`) and its zones.
#[derive(Debug)]
pub struct RegionZoning {
    pub root: WebNodeId,
    pub nodes: Vec<WebNodeId>,
    pub index_map: Vec<WebNodeId>,
    pub zones: Vec<Zone>,
}

/// Cross-link grid: regions as clusters, zones as tags, and for each region
/// a door made of its root and the first entries of its ranking.
#[derive(Debug)]
pub struct KvCrossLinkGrid {
    pub cluster_to_nodes: Vec<Vec<WebNodeId>>,
    pub tag_to_nodes: Vec<Vec<WebNodeId>>,
    pub door_to_nodes: Vec<Vec<WebNodeId>>,
}

/// The number of entries per zone when `len` entries are split into
/// `num_zones` zones (at least one zone): the rounded-up quotient.
pub open spec fn zone_len(len: int, num_zones: int) -> int {
    let n = if num_zones < 1 {
        1
    } else {
        num_zones
    };
    (len + n - 1) / n
}

/// Zone `z` of a split of `index_map` into zones of `size` entries.
pub open spec fn is_zone(index_map: Seq<WebNodeId>, size: int, z: int, zone: Zone) -> bool {
    let start = z * size;
    let end = if start + size < index_map.len() {
        start + size
    } else {
        index_map.len() as int
    };
    &&& zone.zone_id == z
    &&& zone.start == start
    &&& zone.end == end
    &&& zone.size == end - start
    &&& zone.centroid_node == Some(index_map[start + (end - start) / 2])
}

/// Zones of `zone_len(len, num_zones)` entries are the rounded-up share of
/// `len > 0` entries among `n = max(1, num_zones)` zones: `n` such zones
/// hold every entry, zones one entry shorter would not, and the split never
/// needs more than `n` zones.
pub proof fn lemma_zone_len_is_ceiling(len: int, num_zones: int)
    requires
        len > 0,
    ensures
        ({
            let n = if num_zones < 1 {
                1
            } else {
                num_zones
            };
            let size = zone_len(len, num_zones);
            &&& size >= 1
            &&& size * n >= len
            &&& (size - 1) * n < len
            &&& (len + size - 1) / size <= n
        }),
{
    let n = if num_zones < 1 {
        1
    } else {
        num_zones
    };
    let size = zone_len(len, num_zones);
    let m = len + n - 1;
    assert(size * n <= m && m < size * n + n && size >= 1) by (nonlinear_arith)
        requires
            n >= 1,
            len > 0,
            m == len + n - 1,
            size == m / n,
    {
    }
    assert((size - 1) * n == size * n - n) by (nonlinear_arith);
    let c = (len + size - 1) / size;
    assert(c * size <= len + size - 1) by (nonlinear_arith)
        requires
            size >= 1,
            len > 0,
            c == (len + size - 1) / size,
    {
    }
    assert(c <= n) by (nonlinear_arith)
        requires
            size >= 1,
            c * size <= len + size - 1,
            size * n >= len,
    {
    }
}

/// A zone of a split is non-empty, holds at most `size` entries, and its
/// centroid is one of its own entries, the middle one: it has as many
/// entries of the zone before it as after it, or one more.
pub proof fn lemma_zone_centroid_inside(index_map: Seq<WebNodeId>, size: int, z: int, zone: Zone)
    requires
        is_zone(index_map, size, z, zone),
        size >= 1,
        z >= 0,
        z * size < index_map.len(),
    ensures
        zone.start < zone.end,
        zone.end - zone.start <= size,
        exists|k: int|
            zone.start <= k < zone.end && zone.centroid_node == Some(#[trigger] index_map[k]) && ((k
                - zone.start) - (zone.end - 1 - k) == 0 || (k - zone.start) - (zone.end - 1 - k) == 1),
{
    let k = zone.start + (zone.end - zone.start) / 2;
    assert(zone.start <= k < zone.end);
    assert(zone.centroid_node == Some(index_map[k]));
}

/// Splits `index_map` into consecutive zones: `num_zones` (at least one)
/// zones of equal length rounded up, the last one possibly shorter; no
/// zones for an empty map.
pub fn build_zones(index_map: &Vec<WebNodeId>, num_zones: usize) -> (zones: Vec<Zone>)
    ensures
        index_map@.len() == 0 ==> zones@.len() == 0,
        index_map@.len() > 0 ==> {
            let size = zone_len(index_map@.len() as int, num_zones as int);
            &&& zones@.len() == (index_map@.len() + size - 1) / size
            &&& forall|z: int| 0 <= z < zones@.len() ==> is_zone(index_map@, size, z, #[trigger] zones@[z])
        },
{
    let n: usize = if num_zones < 1 {
        1
    } else {
        num_zones
    };
    let len = index_map.len();
    let zone_size: usize = if len % n == 0 {
        len / n
    } else {
        proof {
            assert(len / n < len) by (nonlinear_arith)
                requires
                    n >= 1,
                    len % n != 0,
            ;
        }
        len / n + 1
    };
    proof {
        assert(zone_size == zone_len(len as int, num_zones as int)) by (nonlinear_arith)
            requires
                n >= 1,
                n == (if num_zones < 1 {
                    1
                } else {
                    num_zones
                }),
                zone_size == (if len % n == 0 {
                    (len / n) as int
                } else {
                    len / n + 1
                }),
        ;
        if len > 0 {
            assert(zone_size >= 1) by (nonlinear_arith)
                requires
                    n >= 1,
                    len > 0,
                    zone_size == (if len % n == 0 {
                        (len / n) as int
                    } else {
                        len / n + 1
                    }),
            ;
        }
    }
    let mut zones: Vec<Zone> = Vec::new();
    let mut zone_id: usize = 0;
    let mut start: usize = 0;
    proof {
        if len > 0 {
            assert(0 < (len + zone_size - 1) / (zone_size as int)) by (nonlinear_arith)
                requires
                    zone_size >= 1,
                    len > 0,
            ;
        }
    }
    while start < len
        invariant
            len == index_map@.len(),
            len > 0 ==> zone_size >= 1,
            start <= len,
            len == 0 ==> zone_id == 0,
            start < len ==> start == zone_id * zone_size,
            start < len ==> zone_id < len,
            zones@.len() == zone_id,
            forall|z: int|
                0 <= z < zones@.len() ==> is_zone(index_map@, zone_size as int, z, #[trigger] zones@[z]),
            start == len && len > 0 ==> zone_id == (len + zone_size - 1) / (zone_size as int),
            start < len ==> zone_id < (len + zone_size - 1) / (zone_size as int),
        decreases len - start,
    {
        let end: usize = if len - start > zone_size {
            start + zone_size
        } else {
            len
        };
        let centroid = index_map[start + (end - start) / 2];
        zones.push(
            Zone { zone_id, start, end, centroid_node: Some(centroid), size: end - start },
        );
        proof {
            assert(is_zone(index_map@, zone_size as int, zone_id as int, zones@[zone_id as int]));
            assert((zone_id + 1) * zone_size == zone_id * zone_size + zone_size) by (nonlinear_arith);
            if end < len {
                assert(zone_id + 1 < (len + zone_size - 1) / (zone_size as int)) by (nonlinear_arith)
                    requires
                        zone_size >= 1,
                        (zone_id + 1) * zone_size < len,
                ;
                assert(zone_id + 1 < len) by (nonlinear_arith)
                    requires
                        zone_size >= 1,
                        (zone_id + 1) * zone_size < len,
                ;
            } else {
                assert(zone_id + 1 == (len + zone_size - 1) / (zone_size as int)) by (nonlinear_arith)
                    requires
                        zone_size >= 1,
                        zone_id * zone_size < len,
                        len <= (zone_id + 1) * zone_size,
                ;
            }
        }
        zone_id = zone_id + 1;
        start = end;
    }
    zones
}

/// The zones of a split cover the index map exactly, in order: the entries
/// they cover, concatenated, are the whole map.
pub proof fn lemma_zones_partition(index_map: Seq<WebNodeId>, size: int, zones: Seq<Zone>)
    requires
        index_map.len() > 0,
        size >= 1,
        zones.len() == (index_map.len() + size - 1) / size,
        forall|z: int| 0 <= z < zones.len() ==> is_zone(index_map, size, z, #[trigger] zones[z]),
    ensures
        zones.map_values(|z: Zone| index_map.subrange(z.start as int, z.end as int)).flatten()
            == index_map,
{
    let n = zones.len() as int;
    let slices = zones.map_values(|z: Zone| index_map.subrange(z.start as int, z.end as int));
    assert(n >= 1) by (nonlinear_arith)
        requires
            n == (index_map.len() + size - 1) / size,
            index_map.len() > 0,
            size >= 1,
    ;
    assert((n - 1) * size < index_map.len()) by (nonlinear_arith)
        requires
            n == (index_map.len() + size - 1) / size,
            size >= 1,
            n >= 1,
    ;
    assert(n * size >= index_map.len()) by (nonlinear_arith)
        requires
            n == (index_map.len() + size - 1) / size,
            size >= 1,
    ;
    assert forall|k: int| 0 <= k <= n implies #[trigger] slices.take(k).flatten() == index_map.take(
        if k * size < index_map.len() {
            k * size
        } else {
            index_map.len() as int
        },
    ) by {
        lemma_zone_prefix(index_map, size, zones, k);
    }
    assert(slices.take(n) =~= slices);
    assert(index_map.take(index_map.len() as int) =~= index_map);
    assert(slices.take(n).flatten() == index_map.take(index_map.len() as int));
}

proof fn lemma_zone_prefix(index_map: Seq<WebNodeId>, size: int, zones: Seq<Zone>, k: int)
    requires
        size >= 1,
        0 <= k <= zones.len(),
        forall|z: int| 0 <= z < zones.len() ==> is_zone(index_map, size, z, #[trigger] zones[z]),
        zones.len() > 0 ==> (zones.len() - 1) * size < index_map.len(),
    ensures
        zones.map_values(|z: Zone| index_map.subrange(z.start as int, z.end as int)).take(k).flatten()
            == index_map.take(
            if k * size < index_map.len() {
                k * size
            } else {
                index_map.len() as int
            },
        ),
    decreases k,
{
    let slices = zones.map_values(|z: Zone| index_map.subrange(z.start as int, z.end as int));
    if k == 0 {
        assert(slices.take(0) =~= Seq::<Seq<WebNodeId>>::empty());
        assert(index_map.take(0) =~= Seq::<WebNodeId>::empty());
    } else {
        lemma_zone_prefix(index_map, size, zones, k - 1);
        let zone = zones[k - 1];
        assert(is_zone(index_map, size, k - 1, zone));
        assert((k - 1) * size < index_map.len()) by (nonlinear_arith)
            requires
                (zones.len() - 1) * size < index_map.len(),
                k <= zones.len(),
                size >= 1,
                k >= 1,
        ;
        assert((k - 1) * size + size == k * size) by (nonlinear_arith);
        assert(slices.take(k) =~= slices.take(k - 1).push(slices[k - 1]));
        slices.take(k - 1).lemma_flatten_push(slices[k - 1]);
        let prev_end = (k - 1) * size;
        let end = if k * size < index_map.len() {
            k * size
        } else {
            index_map.len() as int
        };
        assert(index_map.take(prev_end) + index_map.subrange(prev_end, end) =~= index_map.take(end));
    }
}

pub(crate) fn copy_range(v: &Vec<WebNodeId>, start: usize, end: usize) -> (res: Vec<WebNodeId>)
    requires
        start <= end <= v@.len(),
    ensures
        res@ == v@.subrange(start as int, end as int),
{
    let mut out: Vec<WebNodeId> = Vec::new();
    let mut i = start;
    while i < end
        invariant
            start <= i <= end,
            end <= v@.len(),
            out@ == v@.subrange(start as int, i as int),
        decreases end - i,
    {
        out.push(v[i]);
        proof {
            assert(v@.subrange(start as int, i + 1) =~= v@.subrange(start as int, i as int).push(
                v@[i as int],
            ));
        }
        i = i + 1;
    }
    out
}

/// Every zone of the region lies within its index map.
pub open spec fn zones_in_range(r: RegionZoning) -> bool {
    forall|z: int|
        0 <= z < r.zones@.len() ==> #[trigger] r.zones@[z].start <= r.zones@[z].end
            <= r.index_map@.len()
}

/// The entries of the index map that each zone of the region covers.
pub open spec fn zone_slices(r: RegionZoning) -> Seq<Seq<WebNodeId>> {
    r.zones@.map_values(|z: Zone| r.index_map@.subrange(z.start as int, z.end as int))
}

/// The door of a region: its root followed by the first eight entries of
/// its ranking.
pub open spec fn door_nodes(r: RegionZoning) -> Seq<WebNodeId> {
    seq![r.root] + r.index_map@.take(
        if r.index_map@.len() < 8 {
            r.index_map@.len() as int
        } else {
            8
        },
    )
}

/// The tags of a region whose zones are a split of its index map (as
/// `build_zones` makes them) cover the index map exactly once, in order:
/// their concatenation is the index map.
pub proof fn lemma_tags_cover_index_map(r: RegionZoning, size: int)
    requires
        r.index_map@.len() > 0,
        size >= 1,
        r.zones@.len() == (r.index_map@.len() + size - 1) / size,
        forall|z: int| 0 <= z < r.zones@.len() ==> is_zone(r.index_map@, size, z, #[trigger] r.zones@[z]),
    ensures
        zone_slices(r).flatten() == r.index_map@,
{
    lemma_zones_partition(r.index_map@, size, r.zones@);
    assert(zone_slices(r) =~= r.zones@.map_values(
        |z: Zone| r.index_map@.subrange(z.start as int, z.end as int),
    ));
}

/// A door is the region's root followed by exactly `min(8, n)` leading
/// entries of its index map of `n` entries, in their order: with at most
/// eight entries it holds all of them, with more it holds the first eight.
pub proof fn lemma_door_shape(r: RegionZoning)
    ensures
        door_nodes(r).len() == 1 + (if r.index_map@.len() <= 8 {
            r.index_map@.len() as int
        } else {
            8
        }),
        door_nodes(r)[0] == r.root,
        forall|k: int| 0 <= k < door_nodes(r).len() - 1 ==> #[trigger] door_nodes(r)[k + 1] == r.index_map@[k],
        r.index_map@.len() <= 8 ==> door_nodes(r).drop_first() == r.index_map@,
        r.index_map@.len() > 8 ==> door_nodes(r).drop_first() == r.index_map@.take(8),
{
    assert(door_nodes(r).drop_first() =~= r.index_map@.take(door_nodes(r).len() - 1));
    if r.index_map@.len() <= 8 {
        assert(r.index_map@.take(r.index_map@.len() as int) =~= r.index_map@);
    }
}

pub open spec fn views_of(v: Seq<Vec<WebNodeId>>) -> Seq<Seq<WebNodeId>> {
    v.map_values(|x: Vec<WebNodeId>| x@)
}

/// Builds the cross-link grid of a list of zoned regions: each region is a
/// cluster of its nodes, each zone (over all regions, in order) a tag of the
/// entries it covers, and each region a door of its root and top entries.
pub fn build_cross_link_grid_from_regions(regions: &Vec<RegionZoning>) -> (grid: KvCrossLinkGrid)
    requires
        forall|r: int| 0 <= r < regions@.len() ==> zones_in_range(#[trigger] regions@[r]),
    ensures
        views_of(grid.cluster_to_nodes@) == regions@.map_values(|r: RegionZoning| r.nodes@),
        views_of(grid.tag_to_nodes@) == regions@.map_values(|r: RegionZoning| zone_slices(r)).flatten(),
        views_of(grid.door_to_nodes@) == regions@.map_values(|r: RegionZoning| door_nodes(r)),
{
    let mut cluster_to_nodes: Vec<Vec<WebNodeId>> = Vec::new();
    let mut tag_to_nodes: Vec<Vec<WebNodeId>> = Vec::new();
    let mut door_to_nodes: Vec<Vec<WebNodeId>> = Vec::new();
    let ghost clusters_spec = regions@.map_values(|r: RegionZoning| r.nodes@);
    let ghost tags_spec = regions@.map_values(|r: RegionZoning| zone_slices(r));
    let ghost doors_spec = regions@.map_values(|r: RegionZoning| door_nodes(r));
    let mut i: usize = 0;
    while i < regions.len()
        invariant
            0 <= i <= regions@.len(),
            forall|r: int| 0 <= r < regions@.len() ==> zones_in_range(#[trigger] regions@[r]),
            clusters_spec == regions@.map_values(|r: RegionZoning| r.nodes@),
            tags_spec == regions@.map_values(|r: RegionZoning| zone_slices(r)),
            doors_spec == regions@.map_values(|r: RegionZoning| door_nodes(r)),
            views_of(cluster_to_nodes@) == clusters_spec.take(i as int),
            views_of(tag_to_nodes@) == tags_spec.take(i as int).flatten(),
            views_of(door_to_nodes@) == doors_spec.take(i as int),
        decreases regions.len() - i,
    {
        let region = &regions[i];
        proof {
            assert(zones_in_range(regions@[i as int]));
        }
        let nodes = copy_range(&region.nodes, 0, region.nodes.len());
        let ghost before_c = cluster_to_nodes@;
        cluster_to_nodes.push(nodes);
        proof {
            assert(region.nodes@.subrange(0, region.nodes@.len() as int) =~= region.nodes@);
            assert(views_of(cluster_to_nodes@) =~= views_of(before_c).push(region.nodes@));
            assert(clusters_spec.take(i + 1) =~= clusters_spec.take(i as int).push(clusters_spec[i as int]));
        }

        let ghost tags_before = views_of(tag_to_nodes@);
        let mut z: usize = 0;
        while z < region.zones.len()
            invariant
                0 <= z <= region.zones@.len(),
                zones_in_range(*region),
                views_of(tag_to_nodes@) == tags_before + zone_slices(*region).take(z as int),
            decreases region.zones.len() - z,
        {
            let zone = &region.zones[z];
            proof {
                assert(region.zones@[z as int].start <= region.zones@[z as int].end
                    <= region.index_map@.len());
            }
            let slice = copy_range(&region.index_map, zone.start, zone.end);
            let ghost before_t = tag_to_nodes@;
            tag_to_nodes.push(slice);
            proof {
                assert(views_of(tag_to_nodes@) =~= views_of(before_t).push(slice@));
                let zs = zone_slices(*region);
                assert(zs.take(z + 1) =~= zs.take(z as int).push(zs[z as int]));
                assert(tags_before + zs.take(z + 1) =~= (tags_before + zs.take(z as int)).push(
                    zs[z as int],
                ));
            }
            z = z + 1;
        }
        proof {
            let zs = zone_slices(*region);
            assert(zs.take(zs.len() as int) =~= zs);
            assert(tags_spec[i as int] == zs);
            assert(tags_spec.take(i + 1) =~= tags_spec.take(i as int).push(zs));
            tags_spec.take(i as int).lemma_flatten_push(zs);
        }

        let mut door: Vec<WebNodeId> = Vec::new();
        door.push(region.root);
        let top: usize = if region.index_map.len() < 8 {
            region.index_map.len()
        } else {
            8
        };
        let mut k: usize = 0;
        while k < top
            invariant
                0 <= k <= top,
                top <= region.index_map@.len(),
                door@ == seq![region.root] + region.index_map@.take(k as int),
            decreases top - k,
        {
            door.push(region.index_map[k]);
            proof {
                assert(seq![region.root] + region.index_map@.take(k + 1) =~= (seq![region.root]
                    + region.index_map@.take(k as int)).push(region.index_map@[k as int]));
            }
            k = k + 1;
        }
        let ghost before_d = door_to_nodes@;
        door_to_nodes.push(door);
        proof {
            assert(door@ == door_nodes(*region));
            assert(views_of(door_to_nodes@) =~= views_of(before_d).push(door@));
            assert(doors_spec.take(i + 1) =~= doors_spec.take(i as int).push(doors_spec[i as int]));
        }
        i = i + 1;
    }
    proof {
        assert(clusters_spec.take(i as int) =~= clusters_spec);
        assert(tags_spec.take(i as int) =~= tags_spec);
        assert(doors_spec.take(i as int) =~= doors_spec);
    }
    KvCrossLinkGrid { cluster_to_nodes, tag_to_nodes, door_to_nodes }
}

/// Splits a non-empty door list into its entry half (the first half, at
/// least one node) and its exit half (the rest).
pub fn split_door(nodes: &Vec<WebNodeId>) -> (halves: (Vec<WebNodeId>, Vec<WebNodeId>))
    requires
        nodes@.len() > 0,
    ensures
        ({
            let mid: int = if nodes@.len() / 2 < 1 { 1 } else { (nodes@.len() / 2) as int };
            &&& halves.0@ == nodes@.take(mid)
            &&& halves.1@ == nodes@.skip(mid)
        }),
{
    let mid: usize = if nodes.len() / 2 < 1 {
        1
    } else {
        nodes.len() / 2
    };
    let entry = copy_range(nodes, 0, mid);
    let exit = copy_range(nodes, mid, nodes.len());
    proof {
        assert(nodes@.subrange(0, mid as int) =~= nodes@.take(mid as int));
        assert(nodes@.subrange(mid as int, nodes@.len() as int) =~= nodes@.skip(mid as int));
    }
    (entry, exit)
}

} // verus!

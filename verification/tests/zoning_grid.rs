use kv_web::zoning::split_door;
use kv_web::{build_cross_link_grid_from_regions, build_zones, RegionZoning, WebNodeId};

fn ids(v: &[usize]) -> Vec<WebNodeId> {
    v.iter().map(|x| WebNodeId(*x)).collect()
}

#[test]
fn zones_split_with_rounded_up_size() {
    let map = ids(&[10, 11, 12, 13, 14, 15, 16]);
    let zones = build_zones(&map, 3);
    // ceil(7 / 3) == 3 -> zones [0,3) [3,6) [6,7)
    let r: Vec<(usize, usize, usize, usize)> =
        zones.iter().map(|z| (z.zone_id, z.start, z.end, z.size)).collect();
    assert_eq!(r, vec![(0, 0, 3, 3), (1, 3, 6, 3), (2, 6, 7, 1)]);
    assert_eq!(zones[0].centroid_node, Some(WebNodeId(11)));
    assert_eq!(zones[2].centroid_node, Some(WebNodeId(16)));
}

#[test]
fn zones_zero_means_one() {
    let map = ids(&[1, 2, 3, 4]);
    let zones = build_zones(&map, 0);
    assert_eq!(zones.len(), 1);
    assert_eq!((zones[0].start, zones[0].end), (0, 4));
    assert_eq!(zones[0].centroid_node, Some(WebNodeId(3)));
}

#[test]
fn zones_of_empty_map() {
    assert!(build_zones(&Vec::new(), 4).is_empty());
}

#[test]
fn more_zones_than_entries() {
    let map = ids(&[5, 6]);
    let zones = build_zones(&map, 10);
    assert_eq!(zones.len(), 2);
    assert_eq!((zones[1].start, zones[1].end, zones[1].size), (1, 2, 1));
}

#[test]
fn zones_partition_the_map() {
    let map = ids(&(0..23).collect::<Vec<_>>());
    for n in 1..30 {
        let zones = build_zones(&map, n);
        let mut joined = Vec::new();
        for z in &zones {
            joined.extend_from_slice(&map[z.start..z.end]);
        }
        assert_eq!(joined, map);
    }
}

#[test]
fn cross_link_grid_from_regions() {
    let map = ids(&[1, 2, 3, 4, 5, 6, 7, 8, 9, 10]);
    let zones = build_zones(&map, 2);
    let r1 = RegionZoning { root: WebNodeId(1), nodes: ids(&[1, 2, 3]), index_map: map.clone(), zones };
    let r2 = RegionZoning { root: WebNodeId(20), nodes: ids(&[20]), index_map: ids(&[20]), zones: build_zones(&ids(&[20]), 1) };
    let grid = build_cross_link_grid_from_regions(&vec![r1, r2]);
    assert_eq!(grid.cluster_to_nodes, vec![ids(&[1, 2, 3]), ids(&[20])]);
    assert_eq!(grid.tag_to_nodes, vec![ids(&[1, 2, 3, 4, 5]), ids(&[6, 7, 8, 9, 10]), ids(&[20])]);
    assert_eq!(grid.door_to_nodes[0], ids(&[1, 1, 2, 3, 4, 5, 6, 7, 8]));
    assert_eq!(grid.door_to_nodes[1], ids(&[20, 20]));
}

#[test]
fn door_split_in_halves() {
    assert_eq!(split_door(&ids(&[5])), (ids(&[5]), ids(&[])));
    assert_eq!(split_door(&ids(&[1, 2, 3])), (ids(&[1]), ids(&[2, 3])));
    assert_eq!(split_door(&ids(&[1, 2, 3, 4])), (ids(&[1, 2]), ids(&[3, 4])));
}

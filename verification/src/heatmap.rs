//! Integer part of heatmap zoning: splitting a layer into consecutive zones
//! at the positions where the heat jumps (the jumps are found by the caller).

use vstd::prelude::*;

verus! {

/// Number of zone starts among positions `1..=i` (position 0 always starts
/// the first zone and is not counted).
pub open spec fn zone_starts_upto(breaks: Seq<bool>, i: int) -> int
    decreases i,
{
    if i <= 0 {
        0
    } else {
        zone_starts_upto(breaks, i - 1) + if breaks[i] {
            1int
        } else {
            0int
        }
    }
}

/// Splits positions `0..breaks.len()` into consecutive zones, a new zone
/// starting at every position `i >= 1` with `breaks[i]` set. Returns the zone
/// number of each position and the inclusive `(start, end)` range of each
/// zone, the ranges holding exactly the positions of their zone; both are
/// empty for an empty layer.
pub fn segment_layer(breaks: &Vec<bool>) -> (res: (Vec<u32>, Vec<(usize, usize)>))
    requires
        breaks@.len() <= u32::MAX,
    ensures
        res.0@.len() == breaks@.len(),
        forall|k: int| 0 <= k < breaks@.len() ==> #[trigger] res.0@[k] == zone_starts_upto(breaks@, k),
        breaks@.len() == 0 ==> res.1@.len() == 0,
        breaks@.len() > 0 ==> res.1@.len() == zone_starts_upto(breaks@, breaks@.len() - 1) + 1,
        forall|z: int| 0 <= z < res.1@.len() ==> #[trigger] res.1@[z].0 <= res.1@[z].1 < breaks@.len(),
        forall|z: int, k: int|
            #![trigger res.1@[z], res.0@[k]]
            0 <= z < res.1@.len() && 0 <= k < breaks@.len() ==> (res.1@[z].0 <= k <= res.1@[z].1
                <==> res.0@[k] == z),
{
    let len = breaks.len();
    let mut zone_map: Vec<u32> = Vec::new();
    let mut zones: Vec<(usize, usize)> = Vec::new();
    if len == 0 {
        return (zone_map, zones);
    }
    let mut current: u32 = 0;
    let mut start: usize = 0;
    zone_map.push(0);
    let mut i: usize = 1;
    while i < len
        invariant
            len == breaks@.len(),
            len <= u32::MAX,
            1 <= i <= len,
            start < i,
            zone_map@.len() == i,
            current == zone_starts_upto(breaks@, i - 1),
            current <= i - 1,
            zones@.len() == current,
            forall|k: int| 0 <= k < i ==> #[trigger] zone_map@[k] == zone_starts_upto(breaks@, k),
            forall|k: int|
                0 <= k < i ==> #[trigger] zone_map@[k] <= current && (zone_map@[k] == current
                    <==> start <= k),
            forall|z: int| 0 <= z < zones@.len() ==> #[trigger] zones@[z].0 <= zones@[z].1 < start,
            forall|z: int, k: int|
                #![trigger zones@[z], zone_map@[k]]
                0 <= z < zones@.len() && 0 <= k < i ==> (zones@[z].0 <= k <= zones@[z].1
                    <==> zone_map@[k] == z),
        decreases len - i,
    {
        let ghost z0 = zones@;
        let ghost m0 = zone_map@;
        let ghost s0 = start;
        let ghost c0 = current;
        if breaks[i] {
            zones.push((start, i - 1));
            start = i;
            current = current + 1;
        }
        zone_map.push(current);
        proof {
            assert forall|k: int| 0 <= k < i implies #[trigger] zone_map@[k] == m0[k] by {}
            assert forall|z: int, k: int|
                #![trigger zones@[z], zone_map@[k]]
                0 <= z < zones@.len() && 0 <= k < i + 1 implies (zones@[z].0 <= k <= zones@[z].1
                    <==> zone_map@[k] == z) by {
                if z < z0.len() {
                    assert(z0[z] == zones@[z]);
                    if k < i {
                        assert(m0[k] == zone_map@[k]);
                    }
                } else if k < i {
                    assert(m0[k] == zone_map@[k]);
                }
            }
        }
        i = i + 1;
    }
    let ghost z1 = zones@;
    zones.push((start, len - 1));
    proof {
        assert forall|z: int, k: int|
            #![trigger zones@[z], zone_map@[k]]
            0 <= z < zones@.len() && 0 <= k < len implies (zones@[z].0 <= k <= zones@[z].1
                <==> zone_map@[k] == z) by {
            if z < z1.len() {
                assert(z1[z] == zones@[z]);
            }
        }
    }
    (zone_map, zones)
}

} // verus!

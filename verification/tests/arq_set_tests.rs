use kitsune_dht::arq::{Arq, ArqBounds};
use kitsune_dht::arq_set::ArqSet;
use kitsune_dht::spacetime::{SpaceOffset, Topology};

fn bounds(start: u32, power: u8, count: u32) -> ArqBounds {
    Arq {
        start: SpaceOffset(start),
        power,
        count,
    }
}

#[test]
fn intersection_of_overlapping_arqs() {
    let topo = Topology::standard_epoch_full();
    let a = ArqSet::new(vec![bounds(0, 4, 4)]);
    let b = ArqSet::new(vec![bounds(2, 4, 4)]);
    let common = a.intersection(&topo, &b);
    assert_eq!(common.power(), 4);
    let members = common.arqs();
    assert_eq!(members.len(), 1);
    assert_eq!(members[0].start, SpaceOffset(2));
    assert_eq!(members[0].count, 2);
}

#[test]
fn intersection_of_disjoint_arqs_is_empty() {
    let topo = Topology::standard_epoch_full();
    let a = ArqSet::new(vec![bounds(0, 4, 2)]);
    let b = ArqSet::new(vec![bounds(8, 4, 2)]);
    let common = a.intersection(&topo, &b);
    assert_eq!(common.len(), 0);
}

#[test]
fn intersection_handles_wraparound() {
    let topo = Topology::standard_epoch_full();
    // at power 4 with a 2^12 quantum the ring holds 2^16 chunks; an arc
    // starting two chunks from the top wraps around past zero
    let top = (1u32 << 16) - 2;
    let a = ArqSet::new(vec![bounds(top, 4, 4)]);
    let b = ArqSet::new(vec![bounds(0, 4, 2)]);
    let common = a.intersection(&topo, &b);
    assert_eq!(common.len(), 1);
    assert_eq!(common.arqs()[0].start, SpaceOffset(0));
    assert_eq!(common.arqs()[0].count, 2);
}

#[test]
fn union_collects_both_sides_at_common_power() {
    let topo = Topology::standard_epoch_full();
    let a = ArqSet::new(vec![bounds(0, 5, 2)]);
    let b = ArqSet::new(vec![bounds(32, 4, 2)]);
    let joined = a.union(&topo, &b);
    assert_eq!(joined.power(), 4);
    assert_eq!(joined.len(), 2);
    // the coarser member was requantized down losslessly
    assert_eq!(joined.arqs()[0].start, SpaceOffset(0));
    assert_eq!(joined.arqs()[0].count, 4);
    assert_eq!(joined.arqs()[1].start, SpaceOffset(32));
    assert_eq!(joined.arqs()[1].count, 2);
}

#[test]
fn new_normalizes_to_the_finest_power() {
    let set = ArqSet::new(vec![bounds(3, 6, 2), bounds(1, 4, 1)]);
    assert_eq!(set.power(), 4);
    assert_eq!(set.arqs()[0].start, SpaceOffset(12));
    assert_eq!(set.arqs()[0].count, 8);
    assert_eq!(set.arqs()[1].start, SpaceOffset(1));
    assert_eq!(set.arqs()[1].count, 1);
}

use snowcap::netsim::{ConfigExpr, ConfigModifier};
use snowcap::ospf_zone::merge_zone_order;

fn m(i: usize) -> ConfigModifier {
    ConfigModifier::Insert(ConfigExpr::StaticRoute { router: i })
}

#[test]
fn merged_order_keeps_each_zone_order() {
    let merged = merge_zone_order(vec![Some(vec![m(1), m(2), m(3)]), Some(vec![m(2), m(4), m(3)]), Some(vec![m(5), m(1)])]);
    assert_eq!(merged, vec![m(5), m(1), m(2), m(4), m(3)]);
}

#[test]
fn merging_nothing_gives_nothing() {
    assert_eq!(merge_zone_order(vec![]), vec![]);
    assert_eq!(merge_zone_order(vec![Some(vec![]), Some(vec![m(0), m(0)])]), vec![m(0)]);
}

// Arithmetic and per-lane constants stay hoistable; stores never are.

use vyre_passes::licm::{is_pure, OpKind};

#[test]
fn arithmetic_is_pure() {
    assert!(is_pure(&OpKind::Arithmetic),
        "Arithmetic ops must remain hoistable");
}

#[test]
fn local_id_is_pure() {
    assert!(is_pure(&OpKind::SubgroupLocalId),
        "Per-lane constants must remain hoistable");
}

#[test]
fn store_is_not_pure() {
    assert!(!is_pure(&OpKind::Store),
        "Store must never be hoistable");
}

use mmtk::collection::{GcThreadContext, VMCollection};
use mmtk::object_model::VMObjectModel;

#[test]
fn object_starts_at_its_reference() {
    assert_eq!(VMObjectModel::object_start_ref(0x1000), 0x1000);
    assert_eq!(VMObjectModel::object_start_ref(0x1003), 0x1003);
}

#[test]
fn ref_to_address_clears_the_mark_bit() {
    assert_eq!(VMObjectModel::ref_to_address(0x1001), 0x1000);
    assert_eq!(VMObjectModel::ref_to_address(0x1000), 0x1000);
    assert_eq!(VMObjectModel::ref_to_address(0x2003), 0x2002);
}

#[test]
fn thread_kinds_match_the_runtime_contract() {
    assert_eq!(VMCollection::gc_thread_kind(&GcThreadContext::Controller), 0);
    assert_eq!(VMCollection::gc_thread_kind(&GcThreadContext::Worker), 1);
}

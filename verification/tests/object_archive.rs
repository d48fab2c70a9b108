use mmtk::object_archive::ObjectArchive;

/// Walks the whole index through the single-cursor traversal and returns
/// the yielded addresses in order, stopping at the terminal sentinel.
fn drain(archive: &mut ObjectArchive) -> Vec<usize> {
    archive.reset_iterator();
    let mut out = Vec::new();
    while let Some(addr) = archive.next_object() {
        out.push(addr);
    }
    out
}

fn assert_sorted_unique(addrs: &[usize]) {
    for w in addrs.windows(2) {
        assert!(w[0] < w[1], "addresses not strictly ascending: {:#x} then {:#x}", w[0], w[1]);
    }
}

#[test]
fn insert_keeps_addresses_sorted_and_unique() {
    let mut archive = ObjectArchive::new();
    for addr in [0x5000usize, 0x1000, 0x3000, 0x4000, 0x2000] {
        assert!(archive.insert_object(addr, 0, 0));
        let addrs = drain(&mut archive);
        assert_sorted_unique(&addrs);
    }
    assert_eq!(drain(&mut archive), vec![0x1000, 0x2000, 0x3000, 0x4000, 0x5000]);
}

#[test]
fn remove_keeps_addresses_sorted_and_unique() {
    let mut archive = ObjectArchive::new();
    for addr in [0x1000usize, 0x2000, 0x3000, 0x4000, 0x5000] {
        assert!(archive.insert_object(addr, 0, 0));
    }
    for addr in [0x3000usize, 0x1000, 0x5000] {
        assert!(archive.has_object(addr));
        archive.remove_object(addr);
        assert!(!archive.has_object(addr));
        let addrs = drain(&mut archive);
        assert_sorted_unique(&addrs);
    }
    assert_eq!(drain(&mut archive), vec![0x2000, 0x4000]);
}

#[test]
fn duplicate_insert_is_refused_and_changes_nothing() {
    let mut archive = ObjectArchive::new();
    assert!(archive.insert_object(0x1000, 1, 1));
    assert!(!archive.insert_object(0x1000, 2, 2));
    // A tagged alias of a registered object is the same canonical address.
    assert!(!archive.insert_object(0x1002, 3, 3));
    assert_eq!(drain(&mut archive), vec![0x1000]);
    assert_eq!(archive.object_to_classifier(0x1000), 1);
}

#[test]
fn insert_strips_tag_bits() {
    let mut archive = ObjectArchive::new();
    assert!(archive.insert_object(0x1003, 0, 0));
    assert!(archive.has_object(0x1000));
    assert!(archive.has_object(0x1001));
    assert_eq!(drain(&mut archive), vec![0x1000]);
}

#[test]
fn inner_addr_resolves_to_floor_entry() {
    let mut archive = ObjectArchive::new();
    assert!(archive.insert_object(0x1000, 0, 0));
    assert!(archive.insert_object(0x2000, 0, 0));
    assert!(archive.insert_object(0x3000, 0, 0));
    assert_eq!(archive.inner_addr_to_object(0x1000), 0x1000);
    assert_eq!(archive.inner_addr_to_object(0x1fff), 0x1000);
    assert_eq!(archive.inner_addr_to_object(0x2000), 0x2000);
    assert_eq!(archive.inner_addr_to_object(0x2004), 0x2000);
    assert_eq!(archive.inner_addr_to_object(0x9000), 0x3000);
}

#[test]
fn registration_and_translation_scenario() {
    let mut archive = ObjectArchive::new();
    assert!(archive.insert_object(0x1000, 0, 1));
    assert!(archive.insert_object(0x2000, 0, 0));
    assert_eq!(archive.inner_addr_to_object(0x1050), 0x1000);
    assert_eq!(archive.object_to_classifier(0x2000), 0);
    archive.update(
        |addr| match addr {
            0x1000 => false,
            0x2000 => true,
            _ => unreachable!(),
        },
        |addr| if addr == 0x2000 { Some(0x1800) } else { None },
        u8::MAX,
    );
    assert_eq!(drain(&mut archive), vec![0x1800]);
    assert_eq!(archive.object_to_classifier(0x1800), 0);
}

#[test]
fn update_prunes_unreachable_and_rewrites_forwarded() {
    let mut archive = ObjectArchive::new();
    assert!(archive.insert_object(0x1000, 0, 0));
    assert!(archive.insert_object(0x2000, 0, 0));
    assert!(archive.insert_object(0x3000, 0, 0));
    assert!(archive.insert_object(0x4000, 0, 0));
    archive.update(
        |addr| addr == 0x2000 || addr == 0x4000,
        |addr| if addr == 0x4000 { Some(0x1c00) } else { None },
        u8::MAX,
    );
    // 0x2000 stays in place, 0x4000 moved to 0x1c00; the rest is pruned and
    // the result is re-sorted under the new addresses.
    assert_eq!(drain(&mut archive), vec![0x1c00, 0x2000]);
}

#[test]
fn update_keeps_retained_classifier_entries() {
    let mut archive = ObjectArchive::new();
    assert!(archive.insert_object(0x1000, 0, 7));
    assert!(archive.insert_object(0x2000, 0, 0));
    archive.update(|_addr| false, |_addr| None, 7);
    assert_eq!(drain(&mut archive), vec![0x1000]);
    assert_eq!(archive.object_to_classifier(0x1000), 7);
}

#[test]
fn update_collapses_addresses_that_coincide_after_forwarding() {
    let mut archive = ObjectArchive::new();
    assert!(archive.insert_object(0x1000, 0, 2));
    assert!(archive.insert_object(0x2000, 0, 5));
    archive.update(|_addr| true, |_addr| Some(0x3000), u8::MAX);
    assert_eq!(drain(&mut archive), vec![0x3000]);
    // First in scan order wins the collapse: 0x1000's metadata is kept.
    assert_eq!(archive.object_to_classifier(0x3000), 2);
}

#[test]
fn traversal_yields_sorted_contents_once_then_sentinel() {
    let mut archive = ObjectArchive::new();
    for addr in [0x4000usize, 0x1000, 0x3000, 0x2000] {
        assert!(archive.insert_object(addr, 0, 0));
    }
    archive.reset_iterator();
    assert_eq!(archive.next_object(), Some(0x1000));
    assert_eq!(archive.next_object(), Some(0x2000));
    assert_eq!(archive.next_object(), Some(0x3000));
    assert_eq!(archive.next_object(), Some(0x4000));
    assert_eq!(archive.next_object(), None);
    assert_eq!(archive.next_object(), None);
    // A second reset drains the same contents again.
    archive.reset_iterator();
    assert_eq!(archive.next_object(), Some(0x1000));
}

#[test]
fn traversal_tolerates_mutation_and_continues_numerically() {
    let mut archive = ObjectArchive::new();
    assert!(archive.insert_object(0x2000, 0, 0));
    assert!(archive.insert_object(0x3000, 0, 0));
    archive.reset_iterator();
    assert_eq!(archive.next_object(), Some(0x2000));
    // The index changes size mid-walk; the cursor keeps its numeric
    // position, so the walk is best effort rather than invalidated.
    assert!(archive.insert_object(0x1000, 0, 0));
    assert!(archive.iterator_stale());
    assert_eq!(archive.next_object(), Some(0x2000));
    assert!(!archive.iterator_stale());
    assert_eq!(archive.next_object(), Some(0x3000));
    assert_eq!(archive.next_object(), None);
}

#[test]
fn empty_archive_traversal_is_immediately_exhausted() {
    let mut archive = ObjectArchive::new();
    archive.reset_iterator();
    assert_eq!(archive.next_object(), None);
}

use mmtk::tagged_address::{reattach, strip};

#[test]
fn strip_splits_tag_and_canonical() {
    assert_eq!(strip(0x1007), (0x1004, 0x3));
    assert_eq!(strip(0x1000), (0x1000, 0x0));
    assert_eq!(strip(0x2001), (0x2000, 0x1));
    assert_eq!(strip(0x2002), (0x2000, 0x2));
    assert_eq!(strip(0), (0, 0));
}

#[test]
fn reattach_restores_tag() {
    assert_eq!(reattach(0x1004, 0x3), 0x1007);
    assert_eq!(reattach(0x1000, 0x0), 0x1000);
}

#[test]
fn strip_reattach_round_trip() {
    let samples: Vec<usize> = vec![
        0,
        1,
        2,
        3,
        0x1000,
        0x1001,
        0x1002,
        0x1003,
        0xdead_bee0,
        0xdead_bee1,
        usize::MAX - 3,
        usize::MAX,
    ];
    for addr in samples {
        let (canonical, tag) = strip(addr);
        assert_eq!(canonical % 4, 0);
        assert!(tag < 4);
        assert_eq!(reattach(canonical, tag), addr);
    }
}

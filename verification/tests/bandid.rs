use conserve::bandid::BandId;

#[test]
fn band_id_to_string() {
    assert_eq!(BandId::new(&[0]).to_string(), "b0000");
    assert_eq!(BandId::new(&[1, 17]).to_string(), "b0001-0017");
    assert_eq!(BandId::new(&[123456]).to_string(), "b123456");
    assert_eq!(BandId::zero().to_string(), "b0000");
}

#[test]
fn band_id_from_string() {
    assert_eq!(BandId::from_string("b0001"), Some(BandId::new(&[1])));
    assert_eq!(BandId::from_string("b1"), Some(BandId::new(&[1])));
    assert_eq!(BandId::from_string("b0001-0017"), Some(BandId::new(&[1, 17])));
    assert_eq!(BandId::from_string("b0000000001"), Some(BandId::new(&[1])));
    assert_eq!(BandId::from_string(""), None);
    assert_eq!(BandId::from_string("b"), None);
    assert_eq!(BandId::from_string("b-"), None);
    assert_eq!(BandId::from_string("b0-"), None);
    assert_eq!(BandId::from_string("b-0"), None);
    assert_eq!(BandId::from_string("b0--1"), None);
    assert_eq!(BandId::from_string("x0"), None);
    assert_eq!(BandId::from_string("b+1"), None);
    assert_eq!(BandId::from_string("b1a"), None);
    assert_eq!(BandId::from_string("d"), None);
    assert_eq!(BandId::from_string("b4294967295"), Some(BandId::new(&[4294967295])));
    assert_eq!(BandId::from_string("b4294967296"), None);
    assert_eq!(BandId::from_string("b99999999999999999999999"), None);
}

#[test]
fn band_id_round_trips_through_its_name() {
    for seqs in [vec![0u32], vec![7], vec![9999], vec![10000], vec![1, 17], vec![0, 0, 4294967295]] {
        let id = BandId::new(&seqs);
        assert_eq!(BandId::from_string(&id.to_string()), Some(id));
    }
}

#[test]
fn band_ids_are_ordered_by_number() {
    let a = BandId::new(&[2]);
    let b = BandId::new(&[10]);
    let c = BandId::new(&[10, 1]);
    assert_eq!(a.compare(&b), -1);
    assert_eq!(b.compare(&a), 1);
    assert_eq!(a.compare(&a), 0);
    assert_eq!(b.compare(&c), -1);
    assert_eq!(c.compare(&b), 1);
    assert_eq!(a.compare(&c), -1);
    // The order by number is not the order of the names as text.
    assert!(a.to_string() < b.to_string());
    assert!(BandId::new(&[10000]).to_string() < BandId::new(&[9999]).to_string());
    assert_eq!(BandId::new(&[9999]).compare(&BandId::new(&[10000])), -1);
}

#[test]
fn next_sibling_counts_up() {
    assert_eq!(BandId::zero().next_sibling(), Some(BandId::new(&[1])));
    assert_eq!(BandId::new(&[1, 17]).next_sibling(), Some(BandId::new(&[1, 18])));
    assert_eq!(BandId::new(&[4294967295]).next_sibling(), None);
}

use sharing::share::{
    collect_ids, copy_range, prepend, zeros, KrawczykShare, RabinShare, ShamirShare, Share,
    ShareVec,
};

#[test]
fn blank_shares() {
    let s = ShamirShare::with_size(3);
    assert_eq!((s.id, s.body.clone()), (0, vec![0, 0, 0]));
    assert_eq!(s.size(), 3);
    let r = RabinShare::with_size(2);
    assert_eq!((r.id, r.length, r.body.clone()), (0, 0, vec![0, 0]));
    assert_eq!(r.size(), 0);
    let k = KrawczykShare::with_size(1);
    assert_eq!((k.id, k.length, k.body.clone()), (0, 0, vec![0]));
    assert_eq!(k.key, [0u8; 44]);
    assert_eq!(k.size(), 0);
}

#[test]
fn sizes_of_shares() {
    assert_eq!(ShamirShare { id: 1, body: vec![1, 2, 3, 4] }.size(), 4);
    assert_eq!(RabinShare { id: 1, length: 9, body: vec![1, 2, 3] }.size(), 9);
    assert_eq!(
        KrawczykShare { id: 1, length: 7, key: [1; 44], body: vec![1, 2, 3] }.size(),
        7
    );
}

#[test]
fn vectors_of_shares() {
    let v: Vec<ShamirShare> = ShareVec::with_size(4, 2);
    assert_eq!(v.len(), 4);
    for s in v.iter() {
        assert_eq!((s.id, s.body.clone()), (0, vec![0, 0]));
    }
    assert_eq!(ShareVec::size(&v), 2);
    let v: Vec<RabinShare> = ShareVec::with_size(0, 5);
    assert!(v.is_empty());
    let v = vec![
        RabinShare { id: 1, length: 6, body: vec![1] },
        RabinShare { id: 2, length: 6, body: vec![2, 3] },
    ];
    assert_eq!(ShareVec::size(&v), 6);
}

#[test]
fn zero_bytes_and_ranges() {
    assert_eq!(zeros(0), Vec::<u8>::new());
    assert_eq!(zeros(3), vec![0, 0, 0]);
    assert_eq!(copy_range(&[1, 2, 3, 4], 1, 3), vec![2, 3]);
    assert_eq!(copy_range(&[1, 2, 3, 4], 2, 2), Vec::<u8>::new());
    assert_eq!(copy_range(&[1, 2, 3, 4], 0, 4), vec![1, 2, 3, 4]);
}

#[test]
fn identifiers_of_shares() {
    assert_eq!(ShamirShare { id: 7, body: vec![] }.id(), 7);
    assert_eq!(Share::id(&RabinShare { id: 8, length: 0, body: vec![] }), 8);
    assert_eq!(Share::id(&KrawczykShare { id: 9, length: 0, key: [0; 44], body: vec![] }), 9);
    let v = vec![
        ShamirShare { id: 3, body: vec![] },
        ShamirShare { id: 1, body: vec![] },
        ShamirShare { id: 3, body: vec![] },
    ];
    assert_eq!(collect_ids(&v), vec![3, 1, 3]);
    assert_eq!(collect_ids(&Vec::<RabinShare>::new()), Vec::<u8>::new());
}

#[test]
fn coefficients_put_together() {
    assert_eq!(prepend(5, &vec![]), vec![5]);
    assert_eq!(prepend(5, &vec![6, 7]), vec![5, 6, 7]);
}

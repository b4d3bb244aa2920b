use rapl::Dim;

#[test]
fn get_ind() {
    let s = Dim::new(&[2, 2]).unwrap();
    assert_eq!(s.get_indexes(&0).shape, vec![0, 0]);
    assert_eq!(s.get_indexes(&3).shape, vec![1, 1]);
    assert_eq!(s.get_indexes(&2).shape, vec![1, 0]);
}

#[test]
fn rem_elm() {
    let s1 = Dim::new(&[1, 2, 3]).unwrap();
    let s2 = Dim::new(&[1, 3]).unwrap();
    assert_eq!(s1.remove_element(1), s2);
}

#[test]
fn ins_elm() {
    let s1 = Dim::new(&[1, 3]).unwrap();
    let s2 = Dim::new(&[1, 2, 3]).unwrap();
    assert_eq!(s1.insert_element(1, 2), s2);
}

#[test]
fn tpath_shape() {
    let s1 = Dim::new(&[2, 3]).unwrap();
    let s2 = Dim::new(&[1, 1, 1, 2, 3]).unwrap();
    assert_eq!(s1.path_shape(5).unwrap(), s2);
}

#[test]
fn path_shape_rank_too_large() {
    let s1 = Dim::new(&[2, 3, 4]).unwrap();
    assert!(s1.path_shape(2).is_err());
}

#[test]
fn broadcast_shape_cases() {
    let a = Dim::new(&[2, 2]).unwrap();
    let b = Dim::new(&[2]).unwrap();
    assert_eq!(a.broadcast_shape(&b).unwrap().shape, vec![2, 2]);
    let c = Dim::new(&[2, 3]).unwrap();
    assert!(a.broadcast_shape(&c).is_err());
}

#[test]
fn flat_pos_round_trip() {
    let s = Dim::new(&[2, 3, 4]).unwrap();
    for flat in 0..24usize {
        let idx = s.get_indexes(&flat);
        assert_eq!(s.get_flat_pos(&idx).unwrap(), flat);
    }
}

#[test]
fn flat_pos_out_of_bounds() {
    let s = Dim::new(&[2, 3]).unwrap();
    let idx = Dim::new(&[2, 0]).unwrap();
    assert!(s.get_flat_pos(&idx).is_err());
}

#[test]
fn reverse_shape() {
    let s = Dim::new(&[2, 3, 4]).unwrap();
    assert_eq!(s.reverse().shape, vec![4, 3, 2]);
}

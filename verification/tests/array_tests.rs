use rapl::{de_slice, Ndarr};

#[test]
fn constructor_test() {
    let arr = Ndarr::new(&[0, 1, 2, 3], &[2, 2]).expect("Error initializing");
    let arr2 = Ndarr::new(&[0, 1, 2, 3], &[2, 2]).unwrap();
    assert_eq!(arr.shape(), vec![2, 2]);
    assert_eq!(arr.rank(), 2);
    assert_eq!(&arr, &arr2)
}

#[test]
fn new_count_mismatch() {
    assert!(Ndarr::new(&[1, 2, 3], &[2, 2]).is_err());
}

#[test]
fn bases() {
    let a: Ndarr<u32> = Ndarr::zeros(&[2, 2]);
    let b: Ndarr<u32> = Ndarr::ones(&[2, 2]);
    let c = Ndarr::fill(5, &[4]);
    assert_eq!(a, Ndarr::new(&[0u32, 0, 0, 0], &[2, 2]).unwrap());
    assert_eq!(b, Ndarr::new(&[1u32, 1, 1, 1], &[2, 2]).unwrap());
    assert_eq!(c, Ndarr::new(&[5, 5, 5, 5], &[4]).unwrap());
}

#[test]
fn bimap_test() {
    let arr1 = Ndarr::new(&[0, 1, 2, 3], &[2, 2]).expect("Error initializing");
    let arr2 = Ndarr::new(&[4, 5, 6, 7], &[2, 2]).expect("Error initializing");
    assert_eq!(arr1.bimap(&arr2, |x, y| x + y).data, vec![4, 6, 8, 10])
}

#[test]
fn transpose() {
    let arr = Ndarr::new(&[0, 1, 2, 3, 4, 5, 6, 7], &[2, 2, 2]).expect("Error initializing");
    // same as arr.T.flatten() in numpy
    assert_eq!(arr.t().data, vec![0, 4, 2, 6, 1, 5, 3, 7])
}

#[test]
fn transpose_shape() {
    let arr = Ndarr::new(&[0, 1, 2, 3, 4, 5], &[3, 2]).unwrap();
    let t = arr.t();
    assert_eq!(t.shape(), vec![2, 3]);
    assert_eq!(t.slice_at(0)[0].data, vec![0, 2, 4]);
}

#[test]
fn transpose_involution() {
    let arr = Ndarr::new(&[0, 1, 2, 3, 4, 5, 6, 7, 8, 9, 10, 11], &[2, 3, 2]).unwrap();
    assert_eq!(arr.t().t(), arr);
}

#[test]
fn element_wise_ops() {
    let arr1: Ndarr<i64> = Ndarr::new(&[1, 1, 1, 1], &[2, 2]).expect("Error initializing");
    let arr2: Ndarr<i64> = Ndarr::new(&[1, 1, 1, 1], &[2, 2]).expect("Error initializing");
    let arr3: Ndarr<i64> = Ndarr::new(&[2, 2, 2, 2], &[2, 2]).expect("Error initializing");
    assert_eq!((arr1.clone() + arr2.clone()).data, arr3.data);
    assert_eq!((arr1.clone() - arr2.clone()).data, vec![0, 0, 0, 0]);
    assert_eq!((arr3.clone() * arr3.clone()).data, vec![4, 4, 4, 4]);
    assert_eq!((arr3.clone() / arr3.clone()).data, vec![1, 1, 1, 1]);
    assert_eq!((arr3.clone() % arr3).data, vec![0, 0, 0, 0]);
    assert_eq!((-arr1).data, vec![-1, -1, -1, -1]);
}

#[test]
fn assing_ops() {
    let mut arr = Ndarr::new(&[1, 2, 3], &[3]).unwrap();
    arr.map_in_place(|x| x + 1);
    arr.bimap_in_place(&Ndarr::new(&[-1, -1, -3], &[3]).unwrap(), |x, y| x + y);
    assert_eq!(arr, Ndarr::new(&[1, 2, 1], &[3]).unwrap())
}

#[test]
fn broadcast_ops() {
    let a: Ndarr<i64> = Ndarr::new(&[1, 2, 3, 4], &[2, 2]).unwrap();
    let b: Ndarr<i64> = Ndarr::new(&[1, 2], &[2]).unwrap();
    let expected = Ndarr::new(&[2i64, 4, 4, 6], &[2, 2]).unwrap();
    assert_eq!(a.clone() + b.clone(), expected);
    assert_eq!(b + a, expected)
}

#[test]
fn broadcast_incompatible() {
    let a = Ndarr::new(&[1, 2, 3, 4], &[2, 2]).unwrap();
    let b = Ndarr::new(&[1, 2, 3, 4, 5, 6], &[2, 3]).unwrap();
    assert!(a.poly_dyadic(&b, |x, y| x + y).is_err());
    assert!(a.broadcast(&[2, 3]).is_err());
}

#[test]
fn poly_dyadic_matches_bimap() {
    let a = Ndarr::new(&[1, 2, 3, 4, 5, 6], &[2, 3]).unwrap();
    let pd = a.poly_dyadic(&a, |x, y| x * y).unwrap();
    let bm = a.bimap(&a, |x, y| x * y);
    assert_eq!(pd, bm);
}

#[test]
fn broadcast_to_materializes() {
    let a = Ndarr::new(&[1, 2], &[2]).unwrap();
    let b = a.broadcast_to(&[3, 2]).unwrap();
    assert_eq!(b.shape(), vec![3, 2]);
    assert_eq!(b.data, vec![1, 2, 1, 2, 1, 2]);
    // A broadcast axis inside the shape repeats elements, not the buffer.
    let col = Ndarr::new(&[10, 20], &[2, 1]).unwrap();
    let wide = col.broadcast_to(&[2, 3]).unwrap();
    assert_eq!(wide.shape(), vec![2, 3]);
    assert_eq!(wide.data, vec![10, 10, 10, 20, 20, 20]);
    assert!(a.broadcast_to(&[2]).is_ok());
    let c = Ndarr::new(&[1, 2, 1, 2], &[2, 2]).unwrap();
    assert!(c.broadcast_to(&[2]).is_err());
}

#[test]
fn scalar_ext() {
    let arr1 = Ndarr::new(&[2, 2, 2, 2], &[2, 2]).expect("Error initializing");
    assert_eq!(arr1.map(|x| x + 1).data, vec![3, 3, 3, 3]);
    assert_eq!(arr1.map(|x| x - 2).data, vec![0, 0, 0, 0]);
    assert_eq!(arr1.map(|x| x * 3).data, vec![6, 6, 6, 6]);
    assert_eq!(arr1.map(|x| x / 2).data, vec![1, 1, 1, 1]);
}

#[test]
fn slice_arr() {
    let arr = Ndarr::new(
        &[0, 1, 2, 3, 4, 5, 6, 7, 8, 9, 10, 11, 12, 13, 14, 15, 16, 17],
        &[2, 3, 3],
    )
    .unwrap();
    let slices_0 = arr.slice_at(0);
    let slices_1 = arr.slice_at(1);
    let slices_2 = arr.slice_at(2);

    assert_eq!(
        slices_0[0],
        Ndarr::new(&[0, 1, 2, 3, 4, 5, 6, 7, 8], &[3, 3]).unwrap()
    );
    assert_eq!(
        slices_1[0],
        Ndarr::new(&[0, 1, 2, 9, 10, 11], &[2, 3]).unwrap()
    );
    assert_eq!(
        slices_2[0],
        Ndarr::new(&[0, 3, 6, 9, 12, 15], &[2, 3]).unwrap()
    );
}

#[test]
fn deslice() {
    let arr = Ndarr::new(&[1, 2, 3, 4], &[2, 2]).unwrap();
    let slices0 = arr.slice_at(0);
    let slices1 = arr.slice_at(1);
    assert_eq!(arr, de_slice(&slices0, 0));
    assert_eq!(arr, de_slice(&slices1, 1));
}

#[test]
fn scan() {
    let arr = Ndarr::new(&[1, 2, 3, 4], &[2, 2]).unwrap();
    let cumsum_r0 = arr.scanr(0, |x, y| x + y);
    let cumsum_r1 = arr.scanr(1, |x, y| x + y);
    let cumsum_l0 = arr.scanl(0, |x, y| x + y);
    let cumsum_l1 = arr.scanl(1, |x, y| x + y);
    assert_eq!(cumsum_r0, Ndarr::new(&[1, 2, 4, 6], &[2, 2]).unwrap());
    assert_eq!(cumsum_r1, Ndarr::new(&[1, 3, 3, 7], &[2, 2]).unwrap());
    assert_eq!(cumsum_l0, Ndarr::new(&[4, 6, 3, 4], &[2, 2]).unwrap());
    assert_eq!(cumsum_l1, Ndarr::new(&[3, 2, 7, 4], &[2, 2]).unwrap());
}

#[test]
fn reduce() {
    let arr = Ndarr::new(
        &[0, 1, 2, 3, 4, 5, 6, 7, 8, 9, 10, 11, 12, 13, 14, 15, 16, 17],
        &[2, 3, 3],
    )
    .unwrap();
    let red_0 = arr.reduce(0, |x, y| x + y).unwrap();
    let red_1 = arr.reduce(1, |x, y| x + y).unwrap();
    assert_eq!(
        red_0,
        Ndarr::new(&[9, 11, 13, 15, 17, 19, 21, 23, 25], &[3, 3]).unwrap()
    );
    assert_eq!(red_1, Ndarr::new(&[9, 12, 15, 36, 39, 42], &[2, 3]).unwrap());
}

#[test]
fn reduce_rows() {
    let arr = Ndarr::new(&[0, 1, 2, 3, 4, 5, 6, 7, 8], &[3, 3]).unwrap();
    assert_eq!(
        arr.reduce(0, |x, y| x + y).unwrap(),
        Ndarr::new(&[9, 12, 15], &[3]).unwrap()
    );
}

#[test]
fn reduce_axis_error() {
    let arr = Ndarr::new(&[1, 2, 3, 4], &[2, 2]).unwrap();
    assert!(arr.reduce(2, |x, y| x + y).is_err());
}

#[test]
fn dyadic_polymorphism() {
    let arr1 = Ndarr::new(&[1, 2, 3, 4], &[2, 2]).unwrap();
    let arr2 = Ndarr::new(&[1, 1], &[2]).unwrap();
    let expected = Ndarr::new(&[2, 3, 4, 5], &[2, 2]).unwrap();
    assert_eq!(arr2.poly_dyadic(&arr1, |x, y| x + y).unwrap(), expected);
    assert_eq!(arr1.poly_dyadic(&arr2, |x, y| x + y).unwrap(), expected);
}

#[test]
fn reshape() {
    let a = Ndarr::new(&[1, 2, 3, 4], &[4]).unwrap().reshape(&[2, 2]).unwrap();
    assert_eq!(a, Ndarr::new(&[1, 2, 3, 4], &[2, 2]).unwrap())
}

#[test]
fn reshape_mismatch() {
    let a = Ndarr::new(&[1, 2, 3, 4], &[4]).unwrap();
    assert!(a.reshape(&[3, 2]).is_err());
}

#[test]
fn reshape_preserves_order() {
    let a = Ndarr::new(&[1, 2, 3, 4, 5, 6], &[2, 3]).unwrap();
    let b = a.reshape(&[3, 2]).unwrap();
    assert_eq!(b.flatten(), a.flatten());
}

#[test]
fn lib_abs() {
    let a: Ndarr<i64> = Ndarr::new(&[-1, -3, 4], &[3]).unwrap();
    assert_eq!(a.abs(), Ndarr::new(&[1i64, 3, 4], &[3]).unwrap())
}

#[test]
fn signs() {
    let a: Ndarr<i64> = Ndarr::new(&[-1, 0, 4], &[3]).unwrap();
    assert_eq!(a.is_positive().data, vec![false, false, true]);
    assert_eq!(a.is_negative().data, vec![true, false, false]);
}

#[test]
fn roll() {
    let a = Ndarr::new(&[1, 2, 3, 4], &[2, 2]).unwrap();
    assert_eq!(a.roll(1, 1), Ndarr::new(&[2, 1, 4, 3], &[2, 2]).unwrap());
    assert_eq!(a.roll(-1, 1), Ndarr::new(&[2, 1, 4, 3], &[2, 2]).unwrap());
    assert_eq!(a.roll(0, 0), a);
}

#[test]
fn assing_at_t() {
    let mut arr = Ndarr::new(&[1, 2, 3, 4], &[2, 2]).unwrap();
    arr.assign_at(&[0, 1], 8);
    assert_eq!(&arr, &Ndarr::new(&[1, 8, 3, 4], &[2, 2]).unwrap());
    arr.assign_at(&[1, 1], 10);
    assert_eq!(&arr, &Ndarr::new(&[1, 8, 3, 10], &[2, 2]).unwrap());
}

#[test]
fn indexing() {
    let mut arr = Ndarr::new(&[1, 2, 3, 4], &[2, 2]).unwrap();
    assert_eq!(arr.get(&[0, 0]).unwrap(), 1);
    arr.assign_at(&[1, 1], 10);
    assert_eq!(&arr, &Ndarr::new(&[1, 2, 3, 10], &[2, 2]).unwrap());
    assert!(arr.get(&[2, 0]).is_err());
}

#[test]
fn max() {
    let arr: Ndarr<i64> = Ndarr::new(&[-2, 0, 4, 8], &[4]).unwrap();
    assert_eq!(arr.max().unwrap(), 8)
}

#[test]
fn sum() {
    let arr: Ndarr<i64> = Ndarr::new(&[-2, 0, 4, 8], &[4]).unwrap();
    assert_eq!(arr.sum(), 10)
}

#[test]
fn linspace() {
    let x: Ndarr<i64> = Ndarr::linspace(0, 9, 10);
    assert_eq!(x, Ndarr::new(&[0i64, 1, 2, 3, 4, 5, 6, 7, 8, 9], &[10]).unwrap())
}

#[test]
fn fftshif_1d() {
    let odd = Ndarr::new(&[1, 2, 3, 4, 5, 6, 7], &[7]).unwrap();
    let pair = Ndarr::new(&[1, 2, 3, 4, 5, 6, 7, 8], &[8]).unwrap();
    assert_eq!(odd.fftshif(), Ndarr::new(&[5, 6, 7, 1, 2, 3, 4], &[7]).unwrap());
    assert_eq!(pair.fftshif(), Ndarr::new(&[5, 6, 7, 8, 1, 2, 3, 4], &[8]).unwrap());
}

#[test]
fn fftshif_2d() {
    let odd = Ndarr::new(&[0, 1, 2, 3, 4, 5, 6, 7, 8], &[3, 3]).unwrap();
    let pair = Ndarr::new(
        &[0, 1, 2, 3, 4, 5, 6, 7, 8, 9, 10, 11, 12, 13, 14, 15],
        &[4, 4],
    )
    .unwrap();
    assert_eq!(
        odd.fftshif(),
        Ndarr::new(&[8, 6, 7, 2, 0, 1, 5, 3, 4], &[3, 3]).unwrap()
    );
    assert_eq!(
        pair.fftshif(),
        Ndarr::new(
            &[10, 11, 8, 9, 14, 15, 12, 13, 2, 3, 0, 1, 6, 7, 4, 5],
            &[4, 4]
        )
        .unwrap()
    );
}

#[test]
fn test_basic() {
    let arr1: Ndarr<i64> = Ndarr::new(&[1, 2, 3], &[3]).unwrap();
    let arr2: Ndarr<i64> = Ndarr::new(&[1, 1, 1], &[3]).unwrap();
    let arr3: Ndarr<i64> = Ndarr::new(&[2, 2, 2], &[3]).unwrap();
    assert_eq!(
        arr1.clone() - arr2.clone(),
        Ndarr::new(&[0i64, 1, 2], &[3]).unwrap()
    );
    assert_eq!(
        arr1.clone() + arr2,
        Ndarr::new(&[2i64, 3, 4], &[3]).unwrap()
    );
    assert_eq!(arr1 * arr3, Ndarr::new(&[2i64, 4, 6], &[3]).unwrap());
}

#[test]
fn test_single_broadcast() {
    let arr1: Ndarr<i64> = Ndarr::new(&[1, 2], &[2]).unwrap();
    let arr2: Ndarr<i64> = Ndarr::new(&[1, 2, 3, 4], &[2, 2]).unwrap();
    assert_eq!(
        arr1 + arr2,
        Ndarr::new(&[2i64, 4, 4, 6], &[2, 2]).unwrap()
    );
}

#[test]
fn test_cobroadcast() {
    let arr1: Ndarr<i64> = Ndarr::new(&[1, 2, 3], &[1, 3]).unwrap();
    let t = arr1.t();
    assert_eq!(
        arr1 + t,
        Ndarr::new(&[2i64, 3, 4, 3, 4, 5, 4, 5, 6], &[3, 3]).unwrap()
    );
}

#[test]
fn test_sclalat() {
    let arr = Ndarr::new(&[0.1, 0.2, 0.3], &[3]).unwrap();
    let arr_scalar = arr.map(|x| x * 2.0);
    let scalar_arr = arr.map(|x| 2.0 * x);
    assert_eq!(arr_scalar, scalar_arr)
}

#[test]
fn ranges() {
    let a = Ndarr::from_vec((0..4).collect::<Vec<i32>>());
    assert_eq!(a, Ndarr::new(&[0, 1, 2, 3], &[4]).unwrap())
}

#[test]
fn extract_scalar() {
    let a = Ndarr::new(&[42], &[]).unwrap();
    assert_eq!(a.clone().extract(), 42);
    assert_eq!(a.scalar(), 42);
}

use rapl::Ndarr;

#[test]
fn outer() {
    let z: Ndarr<i64> = Ndarr::new(&[1, 2, 3], &[3]).unwrap();
    let g = |a: i64, b: i64| {
        if a == b {
            1
        } else {
            0
        }
    };
    let r1 = z.outer_product(&z, |x, y| x + y);
    let r2 = z.outer_product(&z, g);
    assert_eq!(
        r1,
        Ndarr::new(&[2i64, 3, 4, 3, 4, 5, 4, 5, 6], &[3, 3]).unwrap()
    );
    assert_eq!(
        r2,
        Ndarr::new(&[1i64, 0, 0, 0, 1, 0, 0, 0, 1], &[3, 3]).unwrap()
    );
}

#[test]
fn mat_mul() {
    let a: Ndarr<i64> = Ndarr::new(&[0, 1, 2, 3, 4, 5, 6, 7, 8], &[3, 3]).unwrap();
    let b: Ndarr<i64> = Ndarr::new(&[9, 10, 11, 12, 13, 14, 15, 16, 17], &[3, 3]).unwrap();
    let result_a_b = Ndarr::new(
        &[42i64, 45, 48, 150, 162, 174, 258, 279, 300],
        &[3, 3],
    )
    .unwrap();
    assert_eq!(a.mat_mul(&b), result_a_b);

    let c: Ndarr<i64> = Ndarr::new(&[0, 1, 2, 3, 4], &[5]).unwrap();
    assert_eq!(c.mat_mul(&c).scalar(), 30)
}

#[test]
fn inner_product() {
    let v: Vec<i64> = (1..13).collect();
    let a = Ndarr::new(&v, &[12]).unwrap().reshape(&[2, 2, 3]).unwrap();
    let b = Ndarr::new(&v, &[12]).unwrap().reshape(&[3, 2, 2]).unwrap();
    assert_eq!(
        a.inner_product(&b, |x, y| x * y, |x, y| x + y),
        a.mat_mul(&b)
    )
}

use auto_diff::tensor::gen_tensor::GenTensor;

#[test]
fn test_index2dimpos() {
    let a = GenTensor::<f32>::empty(&vec![10, 5, 3, 4]);

    let b = a.index2dimpos(10);
    assert_eq!(b, vec![0, 0, 2, 2]);
}

#[test]
fn test_gentensor() {
    {
        let mut m2 = GenTensor::<f64>::new_raw(&vec![1., 2., 3., 4.], &vec![2, 2]);
        *m2.get_mut(&vec![0, 0]) = 5.;
        assert_eq!(m2.get_raw(), vec![5., 2., 3., 4.])
    }
}

#[test]
fn outer() {
    let a = GenTensor::<f32>::fill(1., &vec![10, 2]);
    let b = GenTensor::<f32>::fill(1., &vec![10, 3]);
    let c = a.outer(&b, None);
    assert_eq!(*c.size(), vec![10, 2, 3]);
    let d = b.outer(&a, None);
    assert_eq!(*d.size(), vec![10, 3, 2]);

    let e = a.outer(&b, Some(true));
    assert_eq!(e, GenTensor::ones(&[2, 3]));
}

#[test]
fn get_patch() {
    let a = GenTensor::new_raw(&GenTensor::<f32>::arange(30).get_data(), &[2, 3, 5]);
    let b = a.get_patch(&vec![(0, 2), (0, 2), (2, 3)][..], Option::None);
    assert_eq!(b, GenTensor::<f32>::new_raw(&vec![2.0, 7.0, 17.0, 22.0][..], &vec![2, 2, 1][..]));
}

#[test]
fn set_patch() {
    let mut a = GenTensor::new_raw(&GenTensor::<f32>::arange(30).get_data(), &[2, 3, 5]);
    let b = GenTensor::<f32>::ones(&[1, 3, 5]);
    a.set_patch(&b, &[(1, 2), (0, 3), (0, 5)], None);
    println!("{:?}", a);
    assert_eq!(
        a,
        GenTensor::new_raw(
            &[
                0.0, 1.0, 2.0, 3.0, 4.0, 5.0, 6.0, 7.0, 8.0, 9.0, 10.0, 11.0, 12.0, 13.0, 14.0,
                1.0, 1.0, 1.0, 1.0, 1.0, 1.0, 1.0, 1.0, 1.0, 1.0, 1.0, 1.0, 1.0, 1.0, 1.0
            ],
            &[2, 3, 5]
        )
    );
}

// Pointwise Ops
#[test]
fn ceil() {
    let a = GenTensor::<f32>::new_raw(&vec![0.9213, 1.0887, -0.8858, -1.7683], &vec![4]);

    let ret = a.ceil();

    let expect = GenTensor::<f32>::new_raw(&vec![1., 2., 0., -1.], &vec![4]);
    assert_eq!(ret, expect);
}

#[test]
fn log1pexp() {
    let a = GenTensor::<f32>::new_raw(&vec![0.9213, 1.0887, -0.8858, -1.7683], &vec![4]);

    let ret = a.log1pexp();

    let expect = GenTensor::<f32>::new_raw(
        &vec![1.2563436, 1.3788694, 0.34527916, 0.15753591],
        &vec![4],
    );
    assert_eq!(ret, expect);
}

#[test]
fn sigmoid() {
    let a = GenTensor::<f32>::new_raw(&vec![0.9213, 1.0887, -0.8858, -1.7683], &vec![4]);

    let ret = a.sigmoid();

    let expect = GenTensor::<f32>::new_raw(
        &vec![0.71530694, 0.7481369, 0.29197732, 0.14575386],
        &vec![4],
    );
    assert_eq!(ret, expect);
}

#[test]
fn sign() {
    let a = GenTensor::<f32>::new_raw(&vec![0.9213, 0.0, -0.0, -1.7683], &vec![4]);

    let ret = a.sign();

    let expect = GenTensor::<f32>::new_raw(&vec![1.0, 0.0, 0.0, -1.0], &vec![4]);
    assert_eq!(ret, expect);
}

// Comparison Ops
#[test]
fn arg_sort() {
    let a = GenTensor::<f32>::new_raw(
        &vec![
            0.0785, 1.5267, -0.8521, 0.4065, 0.1598, 0.0788, -0.0745, -1.2700, 1.2208, 1.0722,
            -0.7064, 1.2564, 0.0669, -0.2318, -0.8229, -0.9280,
        ],
        &vec![4, 4],
    );

    let index = a.arg_sort(1, true);

    let expect = GenTensor::<f32>::new_raw(
        &vec![2., 0., 3., 1., 3., 2., 1., 0., 2., 1., 0., 3., 3., 2., 1., 0.],
        &vec![4, 4],
    );
    assert_eq!(index, expect);
}

#[test]
fn ne() {
    let a = GenTensor::<f32>::new_raw(&vec![1., 3., 10., 11.], &vec![2, 2]);
    let b = GenTensor::<f32>::new_raw(&vec![2., 3., 10., 6.], &vec![2, 2]);
    let c = a.ne(&b);
    assert_eq!(c, GenTensor::<f32>::new_raw(&vec![1., 0., 0., 1.], &vec![2, 2]));
}

#[test]
fn lu() {
    let m = GenTensor::<f64>::new_raw(&[1., 1., 1., 4., 3., -1., 3., 5., 3.], &[3, 3]);
    let [l, u] = m.lu().unwrap();
    let el = GenTensor::<f64>::new_raw(&[1., 0., 0., 4., 1., 0., 3., -2., 1.], &[3, 3]);
    let eu = GenTensor::<f64>::new_raw(&[1., 1., 1., 0., -1., -5., 0., 0., -10.], &[3, 3]);
    assert_eq!(l, el);
    assert_eq!(u, eu);
}

#[test]
fn stride_and_linear_index() {
    let m = GenTensor::<f64>::new_raw(&vec![0.; 30], &vec![3, 5, 2]);
    assert_eq!(m.stride(), vec![10, 2, 1]);
    assert_eq!(m.dimpos2index(&[2, 4, 1]), 29);
    assert_eq!(m.index2dimpos(29), vec![2, 4, 1]);
    assert_eq!(m.dimpos2index(&[1, 1, 1]), 13);
}

#[test]
fn get_and_set_elements() {
    let mut m = GenTensor::<f64>::new_raw(&vec![1., 2., 3., 4., 5., 6.], &vec![2, 3]);
    assert_eq!(m.get(&vec![1, 1]), 5.);
    m.set(&vec![1, 1], 50.);
    assert_eq!(m.get(&vec![1, 1]), 50.);
    m.set_1d(0, 9.);
    assert_eq!(m.get(&vec![0, 0]), 9.);
    assert_eq!(m.numel(), 6);
    let s = GenTensor::<f64>::new_raw(&vec![7.], &vec![1]);
    assert_eq!(s.get_scale(), 7.);
}

#[test]
fn elementwise_arithmetic() {
    let m1 = GenTensor::<f64>::new_raw(&vec![1., 2., 3., 4.], &vec![2, 2]);
    let m2 = GenTensor::<f64>::new_raw(&vec![1., 2., 3., 4.], &vec![2, 2]);
    let m3 = m1.add(&m2);
    assert_eq!(m3.get(&vec![0, 0]), 2.);
    assert_eq!(m3.get(&vec![1, 1]), 8.);
    let m4 = m1.sub(&m2);
    assert_eq!(m4.get_raw(), vec![0., 0., 0., 0.]);
    let m5 = m1.mul(&m2);
    assert_eq!(m5.get_raw(), vec![1., 4., 9., 16.]);
    let m6 = m1.div(&m2);
    assert_eq!(m6.get_raw(), vec![1., 1., 1., 1.]);
    // right-hand single-element broadcast
    let s = GenTensor::<f64>::new_raw(&vec![2.], &vec![1]);
    assert_eq!(m1.mul(&s).get_raw(), vec![2., 4., 6., 8.]);
}

#[test]
fn matrix_multiplication() {
    let m1 = GenTensor::<f64>::new_raw(&vec![1., 2., 3., 4., 5., 6.], &vec![3, 2]);
    let m2 = GenTensor::<f64>::new_raw(&vec![2., 3., 4., 5., 6., 7.], &vec![2, 3]);
    let result = m1.mm(&m2);
    assert_eq!(
        result,
        GenTensor::<f64>::new_raw(&vec![12., 15., 18., 26., 33., 40., 40., 51., 62.], &vec![3, 3])
    );
    assert_eq!(m1.matmul(&m2), result);
}

#[test]
fn scalar_like_tensors() {
    let m1 = GenTensor::<f64>::fill(1., &vec![10, 3, 28, 30]);
    assert_eq!(m1.get_n().get_raw(), vec![10.]);
    assert_eq!(m1.get_c().get_raw(), vec![3.]);
    assert_eq!(m1.get_h().get_raw(), vec![28.]);
    assert_eq!(m1.get_w().get_raw(), vec![30.]);
    assert_eq!(m1.numel_tensor().get_raw(), vec![25200.]);
    let e = GenTensor::<f64>::eye(2, 2);
    assert_eq!(e.get_raw(), vec![1., 0., 0., 1.]);
    let r = GenTensor::<f64>::arange(4);
    assert_eq!(r.get_raw(), vec![0., 1., 2., 3.]);
    let u = m1.get_u8().unwrap();
    assert_eq!(u.len(), 25200);
}

#[test]
fn comparisons_and_equal() {
    let a = GenTensor::<f32>::new_raw(&vec![1., 3., 10., 11.], &vec![2, 2]);
    let b = GenTensor::<f32>::new_raw(&vec![2., 3., 10., 6.], &vec![2, 2]);
    assert_eq!(a.lt(&b).get_raw(), vec![1., 0., 0., 0.]);
    assert_eq!(a.le(&b).get_raw(), vec![1., 1., 1., 0.]);
    assert_eq!(a.gt(&b).get_raw(), vec![0., 0., 0., 1.]);
    assert_eq!(a.ge(&b).get_raw(), vec![0., 1., 1., 1.]);
    assert_eq!(a.eq_t(&b).get_raw(), vec![0., 1., 1., 0.]);
    assert!(a.equal(&a));
    assert!(!a.equal(&b));
    let c = GenTensor::<f32>::new_raw(&vec![1., 3.], &vec![2]);
    assert!(!a.equal(&c));
    assert_eq!(GenTensor::squared_error(&a, &b).get_raw(), vec![1., 0., 0., 25.]);
}

#[test]
fn shape_queries() {
    let z = GenTensor::<f32>::zeros(&[2, 3]);
    assert_eq!(*z.size(), vec![2, 3]);
    assert_eq!(z.numel(), 6);
    let o = z.ones_like();
    assert_eq!(o.get_raw(), vec![1.; 6]);
    let zz = o.zeros_like();
    assert_eq!(zz.get_raw(), vec![0.; 6]);
    assert_eq!(GenTensor::<f32>::new().numel(), 0);
    let d = z.get_data();
    assert_eq!(d.len(), 6);
    assert!(z.det().is_none());
}

use pyaisa_core::profile::collect_profile;

#[test]
fn complete_column_has_no_error() {
    let samples = vec![
        Some((288.15_f64, 101325.0_f64, 1.225_f64)),
        Some((255.65, 54019.9, 0.736)),
        Some((223.15, 26436.3, 0.413)),
    ];
    let (t, p, rho, err) = collect_profile(&samples, f64::NAN);
    assert!(!err);
    assert_eq!(t.len(), 3);
    for (i, s) in samples.iter().enumerate() {
        let (ts, ps, rs) = s.unwrap();
        assert!((t[i] - ts).abs() < 1e-12);
        assert!((p[i] - ps).abs() < 1e-12);
        assert!((rho[i] - rs).abs() < 1e-12);
    }
}

#[test]
fn missing_altitude_is_filled_and_flagged() {
    let samples = vec![Some((1.0_f64, 2.0_f64, 3.0_f64)), None, Some((4.0, 5.0, 6.0))];
    let (t, p, rho, err) = collect_profile(&samples, f64::NAN);
    assert!(err);
    assert_eq!((t.len(), p.len(), rho.len()), (3, 3, 3));
    assert_eq!((t[0], p[0], rho[0]), (1.0, 2.0, 3.0));
    assert!(t[1].is_nan() && p[1].is_nan() && rho[1].is_nan());
    assert_eq!((t[2], p[2], rho[2]), (4.0, 5.0, 6.0));
}

#[test]
fn empty_column() {
    let samples: Vec<Option<(f64, f64, f64)>> = Vec::new();
    let (t, p, rho, err) = collect_profile(&samples, f64::NAN);
    assert!(!err);
    assert!(t.is_empty() && p.is_empty() && rho.is_empty());
}

#[test]
fn all_missing_with_integer_fill() {
    let samples: Vec<Option<(i32, i32, i32)>> = vec![None, None];
    let (t, p, rho, err) = collect_profile(&samples, -1);
    assert!(err);
    assert_eq!(t, vec![-1, -1]);
    assert_eq!(p, vec![-1, -1]);
    assert_eq!(rho, vec![-1, -1]);
}

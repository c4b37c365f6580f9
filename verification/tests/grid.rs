use pyaisa_core::grid::LayerGrid;
use pyaisa_core::level::Level;

fn level(x: f64) -> Level {
    if x.is_nan() {
        return None;
    }
    let x = if x == 0.0 { 0.0 } else { x };
    let bits = x.to_bits();
    Some(if bits >> 63 == 1 { !bits } else { bits | (1u64 << 63) })
}

fn grid_of(hl: &[f64], parallel_size: usize) -> LayerGrid {
    let bounds: Vec<Level> = hl.iter().map(|&h| level(h)).collect();
    LayerGrid::new(bounds, hl.len() - 1, parallel_size)
}

fn standard_grid() -> LayerGrid {
    grid_of(&[0.0, 11000.0, 20000.0, 32000.0], 1000)
}

#[test]
fn layer_count_is_one_less_than_boundaries() {
    assert_eq!(standard_grid().layers(), 3);
    assert_eq!(grid_of(&[0.0, 11000.0, 20000.0], 500).layers(), 2);
}

#[test]
fn layer_at_inside_each_layer() {
    let g = standard_grid();
    assert_eq!(g.layer_at(level(5000.0)), Some(0));
    assert_eq!(g.layer_at(level(15000.0)), Some(1));
    assert_eq!(g.layer_at(level(25000.0)), Some(2));
}

#[test]
fn layer_at_boundaries() {
    let g = standard_grid();
    assert_eq!(g.layer_at(level(0.0)), Some(0));
    assert_eq!(g.layer_at(level(-0.0)), Some(0));
    assert_eq!(g.layer_at(level(11000.0)), Some(1));
    assert_eq!(g.layer_at(level(20000.0)), Some(2));
    assert_eq!(g.layer_at(level(32000.0)), Some(2));
}

#[test]
fn layer_at_outside_the_table() {
    let g = standard_grid();
    assert_eq!(g.layer_at(level(-0.001)), None);
    assert_eq!(g.layer_at(level(-500.0)), None);
    assert_eq!(g.layer_at(level(32000.5)), None);
    assert_eq!(g.layer_at(level(f64::INFINITY)), None);
    assert_eq!(g.layer_at(level(f64::NEG_INFINITY)), None);
}

#[test]
fn unordered_altitude_selects_first_layer() {
    let g = standard_grid();
    assert_eq!(g.layer_at(level(f64::NAN)), Some(0));
    assert_eq!(g.select(level(f64::NAN)), 0);
}

#[test]
fn select_clamps_to_the_table() {
    let g = standard_grid();
    assert_eq!(g.select(level(-100.0)), 0);
    assert_eq!(g.select(level(1.0e6)), 2);
    assert_eq!(g.select(level(19999.0)), 1);
}

#[test]
fn selected_layer_never_decreases_with_altitude() {
    let g = standard_grid();
    let mut prev = 0;
    let mut h = -1000.0;
    while h <= 40000.0 {
        let l = g.select(level(h));
        assert!(l >= prev);
        assert!(l < g.layers());
        prev = l;
        h += 250.0;
    }
}

#[test]
fn selected_layer_holds_the_altitude() {
    let hl = [0.0, 11000.0, 20000.0, 32000.0];
    let g = standard_grid();
    let mut h = 0.0;
    while h <= 32000.0 {
        let l = g.layer_at(level(h)).unwrap();
        assert!(hl[l] <= h);
        if l + 1 < g.layers() {
            assert!(h < hl[l + 1]);
        } else {
            assert!(h <= hl[l + 1]);
        }
        h += 125.0;
    }
}

#[test]
fn single_layer_table() {
    let g = grid_of(&[-100.0, 100.0], 10);
    assert_eq!(g.layers(), 1);
    assert_eq!(g.layer_at(level(-100.0)), Some(0));
    assert_eq!(g.layer_at(level(100.0)), Some(0));
    assert_eq!(g.layer_at(level(100.5)), None);
}

#[test]
fn parallel_only_above_the_parallel_size() {
    let g = grid_of(&[0.0, 11000.0, 20000.0], 500);
    assert!(!g.runs_parallel(0));
    assert!(!g.runs_parallel(500));
    assert!(g.runs_parallel(501));
}

#[test]
fn tropopause_is_first_isothermal_layer() {
    let hl = [0.0, 11000.0, 20000.0];
    let g = grid_of(&hl, 500);
    let lapse = [-0.0065, 0.0];
    let flags: Vec<bool> = lapse.iter().map(|&a| a == 0.0).collect();
    let i = g.tropopause(&flags).unwrap();
    assert_eq!(i, 1);
    assert!((hl[i] - 11000.0_f64).abs() < 1e-6);
}

#[test]
fn tropopause_of_standard_layers() {
    let g = standard_grid();
    assert_eq!(g.tropopause(&vec![false, true, false]), Some(1));
    assert_eq!(g.tropopause(&vec![true, true, false]), Some(0));
    assert_eq!(g.tropopause(&vec![false, false, false]), None);
}

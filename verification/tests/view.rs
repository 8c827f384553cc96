use rust_of_life::life::Loc;
use rust_of_life::view::View;

#[test]
fn new_view_defaults() {
    let v = View::new(1280, 720);
    assert_eq!(v.cell_size, 4);
    assert_eq!(v.width, 1280);
    assert_eq!(v.height, 720);
    assert_eq!(v.center_row, 0);
    assert_eq!(v.center_col, 0);
}

#[test]
fn grid_dimensions() {
    let v = View::new(1280, 720);
    assert_eq!(v.max_cols(), 320);
    assert_eq!(v.max_rows(), 180);
}

#[test]
fn zoom_is_clamped() {
    let mut v = View::new(100, 100);
    for _ in 0..30 {
        v.zoom_in();
    }
    assert_eq!(v.cell_size, 20);
    for _ in 0..30 {
        v.zoom_out();
    }
    assert_eq!(v.cell_size, 1);
    v.zoom_in();
    assert_eq!(v.cell_size, 2);
}

#[test]
fn visibility_window() {
    let v = View::new(80, 40);
    // 20 columns and 10 rows of 4-pixel cells, centered on the origin.
    assert!(v.visible(&Loc::new(0, 0)));
    assert!(v.visible(&Loc::new(-5, -10)));
    assert!(!v.visible(&Loc::new(5, 0)));
    assert!(v.visible(&Loc::new(4, 9)));
    assert!(!v.visible(&Loc::new(0, 10)));
    assert!(!v.visible(&Loc::new(-6, 0)));
}

#[test]
fn visibility_follows_center() {
    let mut v = View::new(80, 40);
    v.center_row = 3;
    v.center_col = -12;
    assert!(!v.visible(&Loc::new(0, 0)));
    assert!(v.visible(&Loc::new(0, 12)));
    assert!(v.visible(&Loc::new(-8, 5)));
}

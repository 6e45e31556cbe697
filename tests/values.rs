use ulam::{value_of_coord, Coord};

#[test]
fn check_n_val() {
    let c1 = Coord::new(-9, 10);

    let result = value_of_coord(&c1);
    assert_eq!(result, 399);
}
#[test]
fn check_w_val() {
    let c1 = Coord::new(-6, -3);

    let result = value_of_coord(&c1);
    assert_eq!(result, 153);
}
#[test]
fn check_e_val() {
    let c1 = Coord::new(8, -2);
    let result = value_of_coord(&c1);
    assert_eq!(result, 230);
}
#[test]
fn check_s_val() {
    let c1 = Coord::new(0, -2);

    let result = value_of_coord(&c1);
    assert_eq!(result, 22);
}
#[test]
fn check_se_val() {
    let c1 = Coord::new(9, -9);

    let result = value_of_coord(&c1);
    assert_eq!(result, 360);
}
#[test]
fn check_ne_val() {
    let c1 = Coord::new(2, 2);

    let result = value_of_coord(&c1);
    assert_eq!(result, 12);
}
#[test]
fn check_nw_val() {
    let c1 = Coord::new(-3, 3);

    let result = value_of_coord(&c1);
    assert_eq!(result, 36);
}
#[test]
fn check_sw_val() {
    let c1 = Coord::new(-9, -9);

    let result = value_of_coord(&c1);
    assert_eq!(result, 342);
}
#[test]
fn check_e_val_big() {
    let c1 = Coord::new(400, -221);

    let result = value_of_coord(&c1);
    assert_eq!(result, 638579);
}
#[test]
fn check_w_val_big() {
    let c1 = Coord::new(-398, -129);

    let result = value_of_coord(&c1);
    assert_eq!(result, 634143);
}
#[test]
fn check_s_val_big() {
    let c1 = Coord::new(-397, -996);

    let result = value_of_coord(&c1);
    assert_eq!(result, 3970655);
}
#[test]
fn check_n_val_big() {
    let c1 = Coord::new(250, 999);

    let result = value_of_coord(&c1);
    assert_eq!(result, 3990755);
}

use griphus::components::Cardinal;

#[test]
fn deltas_point_along_the_axes() {
    assert_eq!(Cardinal::N.get_delta_xy(), (0, -1));
    assert_eq!(Cardinal::S.get_delta_xy(), (0, 1));
    assert_eq!(Cardinal::E.get_delta_xy(), (1, 0));
    assert_eq!(Cardinal::W.get_delta_xy(), (-1, 0));
}

#[test]
fn inv_turns_around() {
    assert_eq!(Cardinal::N.inv(), Cardinal::S);
    assert_eq!(Cardinal::S.inv(), Cardinal::N);
    assert_eq!(Cardinal::E.inv(), Cardinal::W);
    assert_eq!(Cardinal::W.inv(), Cardinal::E);
}

#[test]
fn inv_twice_is_the_direction() {
    for d in [Cardinal::N, Cardinal::S, Cardinal::E, Cardinal::W] {
        assert_eq!(d.inv().inv(), d);
        let (dx, dy) = d.get_delta_xy();
        let (ix, iy) = d.inv().get_delta_xy();
        assert_eq!((dx + ix, dy + iy), (0, 0));
    }
}

#[test]
fn flip_swaps_the_two_orientations() {
    assert_eq!(Cardinal::NE.flip(), Cardinal::NW);
    assert_eq!(Cardinal::NW.flip(), Cardinal::NE);
    assert_eq!(Cardinal::NE.flip().flip(), Cardinal::NE);
    assert_eq!(Cardinal::N.flip(), Cardinal::NE);
}

#[test]
fn reflection_table_of_a_north_east_reflector() {
    assert_eq!(Cardinal::N.reflect(Cardinal::NE), Cardinal::E);
    assert_eq!(Cardinal::E.reflect(Cardinal::NE), Cardinal::N);
    assert_eq!(Cardinal::S.reflect(Cardinal::NE), Cardinal::W);
    assert_eq!(Cardinal::W.reflect(Cardinal::NE), Cardinal::S);
}

#[test]
fn reflection_table_of_a_north_west_reflector() {
    assert_eq!(Cardinal::N.reflect(Cardinal::NW), Cardinal::W);
    assert_eq!(Cardinal::W.reflect(Cardinal::NW), Cardinal::N);
    assert_eq!(Cardinal::S.reflect(Cardinal::NW), Cardinal::E);
    assert_eq!(Cardinal::E.reflect(Cardinal::NW), Cardinal::S);
}

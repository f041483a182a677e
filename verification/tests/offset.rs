use altr::task::offset::Offset;

#[test]
fn from_diff_is_signed() {
    assert_eq!(Offset::from_diff(9, 4), Offset { delta: 5 });
    assert_eq!(Offset::from_diff(4, 9), Offset { delta: -5 });
    assert_eq!(Offset::from_diff(6, 6), Offset { delta: 0 });
    assert_eq!(Offset::from_diff(0, 0), Offset { delta: 0 });
}

#[test]
fn add_sums_growth_and_shrinkage() {
    let grown = Offset { delta: 6 };
    let shrunk = Offset { delta: -10 };
    assert_eq!(Offset::add(grown, shrunk), Offset { delta: -4 });
    assert_eq!(Offset::add(shrunk, grown), Offset { delta: -4 });
    assert_eq!(Offset::add(grown, grown), Offset { delta: 12 });
    assert_eq!(Offset::add(shrunk, shrunk), Offset { delta: -20 });
    assert_eq!(
        Offset::add(grown, Offset { delta: -6 }),
        Offset { delta: 0 }
    );
}

#[test]
fn apply_moves_a_position() {
    assert_eq!(Offset { delta: 0 }.apply(11), 11);
    assert_eq!(Offset { delta: 5 }.apply(11), 16);
    assert_eq!(Offset { delta: -5 }.apply(11), 6);
    assert_eq!(Offset { delta: -11 }.apply(11), 0);
}

#[test]
fn running_offset_survives_a_change_of_sign() {
    let mut offset = Offset { delta: 0 };
    offset = Offset::add(offset, Offset::from_diff(4, 3));
    assert_eq!(offset.apply(4), 5);
    offset = Offset::add(offset, Offset::from_diff(4, 7));
    assert_eq!(offset, Offset { delta: -2 });
    assert_eq!(offset.apply(12), 10);
}

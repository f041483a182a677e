use altr::casing::Casing;
use altr::record::{Record, Records};

#[test]
fn new_store_is_empty() {
    let records = Records::new();
    assert!(records.map.is_empty());
    assert!(records.entries().is_empty());
    assert!(records.iter().next().is_none());
}

#[test]
fn first_record_at_a_position_stays() {
    let mut records = Records::new();
    assert!(records.try_insert(7, 4, Casing::Lower).is_ok());
    let second = records.try_insert(7, 9, Casing::Camel);
    assert_eq!(second, Ok(()));
    assert_eq!(records.map.len(), 1);
    assert_eq!(
        records.entries(),
        vec![Record {
            pos: 7,
            len: 4,
            casing: Casing::Lower
        }]
    );
}

#[test]
fn adjacent_positions_are_both_kept() {
    let mut records = Records::new();
    assert!(records.try_insert(4, 1, Casing::Snake).is_ok());
    assert!(records.try_insert(5, 1, Casing::Kebab).is_ok());
    assert!(records.try_insert(3, 1, Casing::Upper).is_ok());
    assert_eq!(records.map.len(), 3);
    assert_eq!(records.map[&4].casing, Casing::Snake);
    assert_eq!(records.map[&5].casing, Casing::Kebab);
    assert_eq!(records.map[&3].casing, Casing::Upper);
}

#[test]
fn records_come_out_in_ascending_order() {
    let mut records = Records::new();
    for pos in [40usize, 3, 17, 0, 29] {
        assert!(records.try_insert(pos, 2, Casing::Pascal).is_ok());
    }
    let walked: Vec<usize> = records.iter().map(|(k, r)| {
        assert_eq!(*k, r.pos);
        r.pos
    }).collect();
    assert_eq!(walked, vec![0, 3, 17, 29, 40]);
    let listed: Vec<usize> = records.entries().iter().map(|r| r.pos).collect();
    assert_eq!(listed, vec![0, 3, 17, 29, 40]);
}

#[test]
fn dropped_insert_leaves_the_store_as_it_was() {
    let mut records = Records::new();
    assert!(records.try_insert(1, 3, Casing::Camel).is_ok());
    assert!(records.try_insert(9, 3, Casing::Camel).is_ok());
    let before = records.entries();
    assert_eq!(records.try_insert(9, 1, Casing::Upper), Ok(()));
    assert_eq!(records.entries(), before);
    assert_eq!(records.map[&9].len, 3);
    assert_eq!(records.map[&9].casing, Casing::Camel);
}

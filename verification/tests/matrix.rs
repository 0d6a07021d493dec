use jpegzip::point_store::PStore::PointStore;
use jpegzip::square_matrix::{from_diagonal_wrap, Dir, RevCounter, SquareMatrix, SubSquare};

fn counting(size: usize) -> SquareMatrix<u32> {
    let v: Vec<u32> = (1..=(size * size) as u32).collect();
    SquareMatrix::from(v, size)
}

#[test]
fn index_testing() {
    let s = SquareMatrix::new(4);
    assert_eq!(s.index(1, 1), 5);
    assert_eq!(s.index(1, 2), 6);
    assert_eq!(s.index(2, 1), 9);
    assert_eq!(s.index(3, 2), 14);
}

#[test]
fn new_is_all_zero() {
    let s = SquareMatrix::new(3);
    assert_eq!(s.len(), 3);
    assert_eq!(s.matrix, vec![0u32; 9]);
}

#[test]
fn new_with_fills() {
    let s = SquareMatrix::new_with(2, 7u8);
    assert_eq!(s.matrix, vec![7u8; 4]);
}

#[test]
fn get_reads_row_after_row() {
    let m = counting(4);
    assert_eq!(m.get(1, 2), Some(&10));
    assert_eq!(m.get(3, 0), Some(&4));
    assert_eq!(m.get(4, 0), None);
    assert_eq!(m.get(0, 4), None);
}

#[test]
fn set_and_get_mut() {
    let mut m = SquareMatrix::new_with(3, 0i32);
    assert!(m.set(1, 2, 7));
    assert_eq!(m.matrix[2 * 3 + 1], 7);
    assert!(!m.set(3, 0, 9));
    assert_eq!(m.matrix, vec![0, 0, 0, 0, 0, 0, 0, 7, 0]);
    if let Some(e) = m.get_mut(0, 1) {
        *e = 5;
    }
    assert_eq!(m.get(0, 1), Some(&5));
    assert!(m.get_mut(0, 3).is_none());
}

#[test]
fn sub_takes_a_block() {
    let m = counting(4);
    match m.sub(1, 1, 2) {
        Some(SubSquare::SSquare(s, x, y)) => {
            assert_eq!((x, y), (1, 1));
            assert_eq!(s.len(), 2);
            assert_eq!(s.matrix, vec![6, 7, 10, 11]);
        }
        None => panic!("block in range"),
    }
    assert!(m.sub(3, 3, 2).is_none());
    assert!(m.sub(0, 3, 2).is_none());
}

#[test]
fn copy_sub_writes_a_block() {
    let mut m = SquareMatrix::new_with(4, 0u8);
    m.copy_sub(&SubSquare::SSquare(SquareMatrix::from(vec![1, 2, 3, 4], 2), 1, 2));
    assert_eq!(m.matrix, vec![0, 0, 0, 0, 0, 0, 0, 0, 0, 1, 2, 0, 0, 3, 4, 0]);
    m.copy_sub(&SubSquare::SSquare(SquareMatrix::from(vec![9, 9, 9, 9], 2), 3, 0));
    assert_eq!(m.matrix, vec![0, 0, 0, 0, 0, 0, 0, 0, 0, 1, 2, 0, 0, 3, 4, 0]);
}

#[test]
fn diagonal_unwrap_zigzags() {
    let m = counting(4);
    assert_eq!(m.diagonal_unwrap(), vec![1, 5, 2, 3, 6, 9, 13, 10, 7, 4, 8, 11, 14, 15, 12, 16]);
    let m3 = SquareMatrix::from((0..9u32).collect(), 3);
    assert_eq!(m3.diagonal_unwrap(), vec![0, 3, 1, 2, 4, 6, 7, 5, 8]);
}

#[test]
fn diagonal_strips() {
    let m = counting(4);
    let up: Vec<u32> = m.diagonal_strip(2, 0, &Dir::Up).into_iter().copied().collect();
    assert_eq!(up, vec![3, 6, 9]);
    let down: Vec<u32> = m.diagonal_strip(2, 0, &Dir::Down).into_iter().copied().collect();
    assert_eq!(down, vec![9, 6, 3]);
    let up2: Vec<u32> = m.diagonal_strip(3, 1, &Dir::Up).into_iter().copied().collect();
    assert_eq!(up2, vec![8, 11, 14]);
}

#[test]
fn from_diagonal_wrap_places_values() {
    let m = from_diagonal_wrap(&[5, -3, 2], 4);
    assert_eq!(m.len(), 4);
    assert_eq!(m.matrix, vec![5, 2, 0, 0, -3, 0, 0, 0, 0, 0, 0, 0, 0, 0, 0, 0]);
}

#[test]
fn zigzag_round_trip() {
    let m = counting(4);
    let z: Vec<i8> = m.diagonal_unwrap().iter().map(|x| *x as i8).collect();
    let back = from_diagonal_wrap(&z, 4);
    let expect: Vec<i8> = (1..=16).collect();
    assert_eq!(back.matrix, expect);
}

#[test]
fn iter_and_iter_mut() {
    let mut m = counting(2);
    let seen: Vec<u32> = m.iter().copied().collect();
    assert_eq!(seen, vec![1, 2, 3, 4]);
    for x in m.iter_mut() {
        *x += 10;
    }
    assert_eq!(m.matrix, vec![11, 12, 13, 14]);
}

#[test]
fn iter_enum_gives_positions() {
    let m = SquareMatrix::from(vec![10, 20, 30, 40], 2);
    let mut it = m.iter_enum();
    assert!(matches!(it.next(), Some(PointStore(&10, 0, 0))));
    assert!(matches!(it.next(), Some(PointStore(&20, 1, 0))));
    assert!(matches!(it.next(), Some(PointStore(&30, 0, 1))));
    assert!(matches!(it.next(), Some(PointStore(&40, 1, 1))));
    assert!(it.next().is_none());
}

#[test]
fn rev_counter_counts_up_then_down() {
    let mut c = RevCounter::new(3);
    assert!(matches!(c.count(), Some(PointStore(1, 0, 0))));
    assert!(matches!(c.count(), Some(PointStore(2, 0, 1))));
    assert!(matches!(c.count(), Some(PointStore(3, 0, 2))));
    assert!(matches!(c.count(), Some(PointStore(2, 1, 2))));
    assert!(matches!(c.count(), Some(PointStore(1, 2, 2))));
    assert!(c.count().is_none());
}

#[test]
fn dir_switches() {
    let mut d = Dir::Up;
    d.switch();
    assert!(matches!(d, Dir::Down));
    d.switch();
    assert!(matches!(d, Dir::Up));
}

#[test]
fn point_store_orders_by_row_then_column() {
    assert!(PointStore('a', 5, 1) < PointStore('b', 0, 2));
    assert!(PointStore('a', 1, 2) < PointStore('b', 3, 2));
    assert!(PointStore('a', 3, 2) > PointStore('b', 1, 2));
    assert!(PointStore('a', 1, 1) == PointStore('b', 1, 1));
    assert!(PointStore('a', 1, 1) != PointStore('a', 2, 1));
}

#[test]
fn sub_squares_are_all_equal() {
    let a = SubSquare::SSquare(SquareMatrix::from(vec![1], 1), 0, 0);
    let b = SubSquare::SSquare(SquareMatrix::from(vec![2], 1), 3, 3);
    assert!(a == b);
}

#[test]
fn copy_sub_writes_every_cell_of_the_block_vector() {
    let mut m = SquareMatrix::new_with(4, 0u8);
    m.copy_sub(&SubSquare::SSquare(SquareMatrix::from(vec![1, 2, 3, 4, 5, 6], 2), 1, 1));
    assert_eq!(m.matrix, vec![0, 0, 0, 0, 0, 1, 2, 0, 0, 3, 4, 0, 0, 5, 6, 0]);
}

#[test]
fn copy_back_a_block_changes_nothing() {
    let mut m = counting(4);
    let block = m.sub(1, 2, 2).unwrap();
    m.copy_sub(&block);
    assert_eq!(m.matrix, counting(4).matrix);
}

#[test]
fn set_then_get_reads_back() {
    let mut m = counting(3);
    assert!(m.set(2, 1, 42));
    assert_eq!(m.get(2, 1), Some(&42));
    assert_eq!(m.get(1, 2), Some(&8));
}

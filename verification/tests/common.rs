use primeclue::data::{Data, InputShape};
use primeclue::serialization::{Deserializable, Serializator};
use rand::Rng;

#[test]
fn add_row() {
    let mut d = Data::new();
    d.add_row(vec![1.0, 2.0]).unwrap();
    let r = d.add_row(vec![1.0, 2.0, 3.0]);
    assert!(r.is_err());
    let r = d.add_row(vec![1.0]);
    assert!(r.is_err())
}

#[test]
fn random_with_forbidden() {
    let mut rng = rand::thread_rng();
    let columns = 100;
    let shape = InputShape::new(1, columns);
    for _ in 0..100 {
        let mut forbidden = vec![];
        for _ in 1..rng.gen_range(2, columns) {
            forbidden.push(rng.gen_range(0, columns))
        }
        for _ in 0..100 {
            let (_, column) = shape.random_row_column(&forbidden);
            assert!(!forbidden.contains(&column))
        }
    }
}

#[test]
fn data_get_and_row() {
    let mut d = Data::new();
    d.add_row(vec![1, 2, 3]).unwrap();
    d.add_row(vec![4, 5, 6]).unwrap();
    assert_eq!(*d.get(0, 0), 1);
    assert_eq!(*d.get(1, 2), 6);
    assert_eq!(d.input_shape().rows(), 2);
    assert_eq!(d.input_shape().columns(), 3);
    let row = d.row(1);
    assert_eq!(row, vec![&4, &5, &6]);
    assert!(!d.is_empty());
    assert!(Data::<u32>::new().is_empty());
}

#[test]
fn input_shape_serialization() {
    let shape = InputShape::new(10, 20);
    let mut s = Serializator::new();
    s.add(&shape);
    let bytes = s.to_bytes();
    let mut d = Serializator::from_bytes(bytes).unwrap();
    let n = InputShape::deserialize(&mut d).unwrap();
    assert_eq!(n.rows(), 10);
    assert_eq!(n.columns(), 20);
}

use entity_store::component::{DeserializationError, RootContainer, Uuid};

fn uuid(seed: u8) -> Uuid {
    let mut bytes = [0u8; 16];
    for (i, b) in bytes.iter_mut().enumerate() {
        *b = seed.wrapping_add(i as u8);
    }
    Uuid { bytes }
}

#[test]
fn root_container_name() {
    assert_eq!(RootContainer::name(), "rerun.blueprint.components.RootContainer");
}

#[test]
fn root_container_from_and_access() {
    let rc: RootContainer = RootContainer::from(uuid(3));
    assert_eq!(*rc.borrow(), uuid(3));
    assert_eq!(*rc.deref(), uuid(3));
    assert_eq!(rc.0, uuid(3));
}

#[test]
fn column_round_trip() {
    let data = vec![Some(RootContainer(uuid(1))), Some(RootContainer(uuid(100)))];
    let bytes = RootContainer::to_column_opt(&data);
    assert_eq!(bytes.len(), 34);
    assert_eq!(bytes[0], 1);
    assert_eq!(bytes[1], 1);
    assert_eq!(RootContainer::from_column_opt(&bytes), Ok(data));
}

#[test]
fn column_null_is_missing_data() {
    let data = vec![Some(RootContainer(uuid(1))), None, None];
    let bytes = RootContainer::to_column_opt(&data);
    assert_eq!(bytes.len(), 51);
    assert!(bytes[17..34].iter().all(|b| *b == 0));
    assert_eq!(
        RootContainer::from_column_opt(&bytes),
        Err(DeserializationError::MissingData { index: 1 })
    );
}

#[test]
fn column_bad_length() {
    assert_eq!(
        RootContainer::from_column_opt(&vec![1u8; 20]),
        Err(DeserializationError::BadLength { len: 20 })
    );
    assert_eq!(RootContainer::from_column_opt(&vec![]), Ok(vec![]));
}

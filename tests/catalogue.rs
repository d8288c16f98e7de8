use swampyer::errors::{IncorrectElementCount, IncorrectElementType, InvalidField, NotArray, NotHash, WampError};
use swampyer::messages::{Field, Message, Messages};
use swampyer::serialization::WampData;

#[test]
fn codes_and_layouts() {
    assert_eq!(Messages::from_code(1), Some(Messages::MsgHello));
    assert_eq!(Messages::from_code(70), Some(Messages::MsgYield));
    assert_eq!(Messages::from_code(7), None);
    assert_eq!(Messages::MsgResult.code(), 50);
    assert_eq!(Messages::MsgError.fields(), vec![
        Field::RequestCode,
        Field::RequestId,
        Field::Details,
        Field::Error,
        Field::Args,
        Field::Kwargs,
    ]);
    for c in 0..100u64 {
        if let Some(m) = Messages::from_code(c) {
            assert_eq!(m.code(), c);
        }
    }
}

#[test]
fn messages_are_checked_against_their_layout() {
    let ok = WampData::Array(
        vec![
            WampData::UInt(50),
            WampData::UInt(3),
            WampData::Hash(vec![], 0),
            WampData::Array(vec![WampData::UInt(9)], 0),
            WampData::Hash(vec![], 0),
        ],
        0,
    );
    let m = Message::parse(ok).unwrap();
    assert_eq!(m.kind(), Messages::MsgResult);
    assert_eq!(m.len(), 5);
    assert_eq!(m.u64_field(Field::RequestId), Ok(3));
    assert_eq!(m.u64_field(Field::Details), Err(WampError::IncorrectElementType));
    assert_eq!(m.field(Field::Args).unwrap().a(0).unwrap().as_u64(), Ok(9));
    assert_eq!(m.field(Field::Topic).err(), Some(WampError::InvalidField));

    for n in [3usize, 4, 6] {
        let mut items = vec![WampData::UInt(50)];
        for _ in 1..n {
            items.push(WampData::Null);
        }
        let r = Message::parse(WampData::Array(items, 0));
        assert_eq!(r.err(), Some(WampError::IncorrectElementCount), "RESULT of {} elements", n);
    }
    for n in [5usize, 6, 8] {
        let mut items = vec![WampData::UInt(8)];
        for _ in 1..n {
            items.push(WampData::Null);
        }
        let r = Message::parse(WampData::Array(items, 0));
        assert_eq!(r.err(), Some(WampError::IncorrectElementCount), "ERROR of {} elements", n);
    }
    let mut items = vec![WampData::UInt(8)];
    for _ in 1..7 {
        items.push(WampData::Null);
    }
    let m = Message::parse(WampData::Array(items, 0)).unwrap();
    assert_eq!(m.kind(), Messages::MsgError);

    let not_array = Message::parse(WampData::UInt(1));
    assert_eq!(not_array.err(), Some(WampError::NotArray));
    let bad_code = Message::parse(WampData::Array(vec![WampData::Str("x".to_string())], 0));
    assert_eq!(bad_code.err(), Some(WampError::IncorrectElementType));
    let too_many = Message::parse(WampData::Array(vec![WampData::UInt(1), WampData::Null, WampData::Null, WampData::Null], 0));
    assert_eq!(too_many.err(), Some(WampError::IncorrectElementCount));
    let empty = Message::parse(WampData::Array(vec![], 0));
    assert_eq!(empty.err(), Some(WampError::IncorrectElementCount));
}

#[test]
fn error_descriptions() {
    assert_eq!(NotArray.message(), "Message was not an array");
    assert_eq!(NotHash.message(), "Message was not a Hash");
    assert_eq!(IncorrectElementCount.message(), "Incorrect number of elements");
    assert_eq!(IncorrectElementType.message(), "Incorrect element type");
    assert_eq!(InvalidField.message(), "Field does not exist");
}

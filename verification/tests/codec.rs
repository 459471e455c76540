use cons_stack::codec::{decode, encode, DecodeError};
use cons_stack::linked_list::LinkedList;

#[test]
fn test_list_serialization() {
    let mut list: LinkedList<i64> = LinkedList::new();
    let serialization = String::from_utf8(encode(&list)).unwrap();
    assert_eq!(serialization, "[]"); // serialize like arrays

    list.cons(1);
    list.cons(2);
    list.cons(3);
    let serialization = String::from_utf8(encode(&list)).unwrap();
    assert_eq!(serialization, "[3,2,1]"); // serialize like arrays

    // deserialize to vec
    let vec_deserialization: Vec<i64> = serde_json::from_str(&serialization).unwrap();
    assert_eq!(vec_deserialization, vec![3, 2, 1]); // deserialize to vec

    let list_deserialization = decode(serialization.as_bytes()).unwrap();
    assert_eq!(list_deserialization, list); // deserialize to list
}

#[test]
fn test_round_trip_various_lists() {
    let cases: Vec<Vec<i64>> = vec![
        vec![],
        vec![0],
        vec![7],
        vec![-1],
        vec![3, 2, 1],
        vec![10, -20, 30, -40],
        vec![i64::MAX, i64::MIN, 0, -1, 1],
    ];
    for case in cases {
        let list = LinkedList::from_vec(case.clone());
        let encoded = encode(&list);
        let decoded = decode(&encoded).unwrap();
        assert_eq!(decoded, list);
    }
}

#[test]
fn test_encode_exact_forms() {
    let mut list: LinkedList<i64> = LinkedList::new();
    list.cons(-12);
    list.cons(0);
    list.cons(345);
    let text = String::from_utf8(encode(&list)).unwrap();
    assert_eq!(text, "[345,0,-12]");

    let mut extremes: LinkedList<i64> = LinkedList::new();
    extremes.cons(i64::MIN);
    extremes.cons(i64::MAX);
    let text = String::from_utf8(encode(&extremes)).unwrap();
    assert_eq!(text, "[9223372036854775807,-9223372036854775808]");
}

#[test]
fn test_decode_accepts_canonical_forms() {
    let mut decoded = decode(b"[-9223372036854775808]").unwrap();
    assert_eq!(decoded.pop(), Some(i64::MIN));

    let mut decoded = decode(b"[9223372036854775807,0]").unwrap();
    assert_eq!(decoded.pop(), Some(i64::MAX));
    assert_eq!(decoded.pop(), Some(0));
    assert_eq!(decoded.pop(), None);

    let decoded = decode(b"[]").unwrap();
    assert_eq!(decoded, LinkedList::new());
}

#[test]
fn test_decode_rejects_malformed_input() {
    let bad: Vec<&[u8]> = vec![
        b"",
        b"[",
        b"]",
        b"3,2,1",
        b"[3,2,1",
        b"3,2,1]",
        b"[3,,1]",
        b"[3,2,]",
        b"[,3]",
        b"[ 3]",
        b"[3 ]",
        b"[01]",
        b"[-0]",
        b"[--3]",
        b"[-]",
        b"[3.5]",
        b"[3]x",
        b"[]x",
        b"[9223372036854775808]",
        b"[-9223372036854775809]",
        b"[99999999999999999999999999]",
    ];
    for input in bad {
        assert_eq!(decode(input), Err(DecodeError::Malformed));
    }
}

use cons_stack::mresult::MResult;

#[test]
fn test_ok() {
    assert_eq!(MResult::<i32, i32>::ok(0), MResult::MOk(0));
}

#[test]
fn test_err() {
    assert_eq!(MResult::<i32, i32>::err(0), MResult::MErr(0));
}

#[test]
fn test_is_ok() {
    let ok = MResult::<i32, i32>::MOk(0);
    assert!(ok.is_ok());

    let err = MResult::<i32, i32>::MErr(0);
    assert!(!err.is_ok());
}

#[test]
fn test_is_err() {
    let ok = MResult::<i32, i32>::MOk(0);
    assert!(!ok.is_err());

    let err = MResult::<i32, i32>::MErr(0);
    assert!(err.is_err());
}

#[test]
fn test_unwrap() {
    let ok = MResult::<i32, i32>::MOk(0);
    assert_eq!(ok.unwrap(), 0);
}

#[test]
fn test_unwrap_err() {
    let err = MResult::<i32, i32>::MErr(0);
    assert_eq!(err.unwrap_err(), 0);
}

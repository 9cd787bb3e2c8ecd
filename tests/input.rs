use cldb::hex::parse_bytecode;
use cldb::input::{parse_transaction, parse_word, InputError};
use cldb::types::{Transaction, Word};

#[test]
fn hex_pairs_decode_and_a_lone_last_digit_is_ignored() {
    assert_eq!(parse_bytecode("0aFf1"), Some(vec![0x0a, 0xff]));
    assert_eq!(parse_bytecode(""), Some(vec![]));
    assert_eq!(parse_bytecode("+f1a"), Some(vec![0x0f, 0x1a]));
}

#[test]
fn non_hex_character_is_refused() {
    assert_eq!(parse_bytecode("g0"), None);
    assert_eq!(parse_bytecode("0x60"), None);
    assert_eq!(parse_bytecode("f+"), None);
    assert_eq!(parse_bytecode("++"), None);
}

#[test]
fn constructor_record_becomes_a_deployment() {
    match parse_transaction("constructor", "12", "6080") {
        Ok(Transaction::NewContract { creation_address, bytecode }) => {
            assert_eq!(creation_address, Word(12, 0, 0, 0));
            assert_eq!(bytecode, vec![0x60, 0x80]);
        }
        other => panic!("unexpected {:?}", other),
    }
}

#[test]
fn other_record_becomes_a_call() {
    match parse_transaction("method", "18446744073709551616", "a9059cbb") {
        Ok(Transaction::MethodCall { target_address, calldata }) => {
            assert_eq!(target_address, Word(0, 1, 0, 0));
            assert_eq!(calldata, "a9059cbb".to_string());
        }
        other => panic!("unexpected {:?}", other),
    }
}

#[test]
fn bad_address_is_refused() {
    assert!(matches!(parse_transaction("constructor", "12a", "60"), Err(InputError::BadAddress)));
    assert!(matches!(parse_transaction("constructor", "-1", "60"), Err(InputError::BadAddress)));
    let two_to_256 =
        "115792089237316195423570985008687907853269984665640564039457584007913129639936";
    assert!(matches!(parse_transaction("constructor", two_to_256, "60"), Err(InputError::BadAddress)));
    let max = "115792089237316195423570985008687907853269984665640564039457584007913129639935";
    match parse_transaction("constructor", max, "") {
        Ok(t) => match t {
            Transaction::NewContract { creation_address, .. } => {
                assert_eq!(creation_address, Word(u64::MAX, u64::MAX, u64::MAX, u64::MAX))
            }
            _ => panic!("expected a deployment"),
        },
        Err(e) => panic!("unexpected {:?}", e),
    }
}

#[test]
fn bad_bytecode_is_refused_and_calldata_is_kept() {
    assert!(matches!(parse_transaction("constructor", "1", "zz"), Err(InputError::BadData)));
    match parse_transaction("method", "1", "zz") {
        Ok(Transaction::MethodCall { calldata, .. }) => assert_eq!(calldata, "zz".to_string()),
        other => panic!("unexpected {:?}", other),
    }
}

#[test]
fn decimal_words_parse_to_limbs() {
    assert_eq!(parse_word("0"), Some(Word(0, 0, 0, 0)));
    assert_eq!(parse_word("340282366920938463463374607431768211457"), Some(Word(1, 0, 1, 0)));
    assert_eq!(parse_word("1 2"), None);
}

use ledger::record::{parse_amount, parse_record, parse_uint, ParseError, TxKind};

fn fields(parts: &[&str]) -> Vec<Vec<u8>> {
    parts.iter().map(|p| p.as_bytes().to_vec()).collect()
}

#[test]
fn parse_deposit_line() {
    let r = parse_record(&fields(&["deposit", "1", "5", "12.5"])).unwrap();
    assert_eq!(r.kind, TxKind::Deposit);
    assert_eq!(r.client_id, 1);
    assert_eq!(r.tx_id, 5);
    assert_eq!(r.amount, Some(125_000));
}

#[test]
fn parse_withdrawal_line() {
    let r = parse_record(&fields(&["withdrawal", "42", "7", "0.0001"])).unwrap();
    assert_eq!(r.kind, TxKind::Withdrawal);
    assert_eq!(r.client_id, 42);
    assert_eq!(r.tx_id, 7);
    assert_eq!(r.amount, Some(1));
}

#[test]
fn parse_referencing_lines() {
    let d = parse_record(&fields(&["dispute", "1", "5"])).unwrap();
    assert_eq!(d.kind, TxKind::Dispute);
    assert_eq!(d.amount, None);
    let r = parse_record(&fields(&["resolve", "1", "5"])).unwrap();
    assert_eq!(r.kind, TxKind::Resolve);
    let c = parse_record(&fields(&["chargeback", "1", "5"])).unwrap();
    assert_eq!(c.kind, TxKind::Chargeback);
}

#[test]
fn parse_trims_numeric_fields() {
    let r = parse_record(&fields(&["deposit", " 3 ", "\t9", " 10 "])).unwrap();
    assert_eq!(r.client_id, 3);
    assert_eq!(r.tx_id, 9);
    assert_eq!(r.amount, Some(100_000));
}

#[test]
fn parse_unknown_kind() {
    assert_eq!(
        parse_record(&fields(&["transfer", "1", "5", "10"])),
        Err(ParseError::UnknownTransactionKind)
    );
    // The keyword match is exact and case-sensitive.
    assert_eq!(
        parse_record(&fields(&["Deposit", "1", "5", "10"])),
        Err(ParseError::UnknownTransactionKind)
    );
    assert_eq!(
        parse_record(&fields(&[" deposit", "1", "5", "10"])),
        Err(ParseError::UnknownTransactionKind)
    );
}

#[test]
fn parse_wrong_field_count() {
    assert_eq!(
        parse_record(&fields(&["deposit", "1", "5"])),
        Err(ParseError::MalformedRecord)
    );
    assert_eq!(
        parse_record(&fields(&["dispute", "1", "5", "10"])),
        Err(ParseError::MalformedRecord)
    );
    assert_eq!(parse_record(&fields(&[])), Err(ParseError::MalformedRecord));
}

#[test]
fn parse_bad_numbers() {
    assert_eq!(
        parse_record(&fields(&["deposit", "x", "5", "10"])),
        Err(ParseError::MalformedRecord)
    );
    assert_eq!(
        parse_record(&fields(&["deposit", "1", "-5", "10"])),
        Err(ParseError::MalformedRecord)
    );
    assert_eq!(
        parse_record(&fields(&["deposit", "1", "5", "-10"])),
        Err(ParseError::MalformedRecord)
    );
    // client_id must fit in u16, tx_id in u32.
    assert_eq!(
        parse_record(&fields(&["deposit", "65536", "5", "10"])),
        Err(ParseError::MalformedRecord)
    );
    assert_eq!(
        parse_record(&fields(&["deposit", "1", "4294967296", "10"])),
        Err(ParseError::MalformedRecord)
    );
}

#[test]
fn parse_uint_exact() {
    assert_eq!(parse_uint(b"65535", 65535), Some(65535));
    assert_eq!(parse_uint(b"65536", 65535), None);
    assert_eq!(parse_uint(b"0", 65535), Some(0));
    assert_eq!(parse_uint(b"", 65535), None);
    assert_eq!(parse_uint(b"  12  ", 65535), Some(12));
    assert_eq!(parse_uint(b"1 2", 65535), None);
    assert_eq!(parse_uint(b"+1", 65535), None);
}

#[test]
fn parse_amount_forms() {
    assert_eq!(parse_amount(b"10"), Some(100_000));
    assert_eq!(parse_amount(b"10."), Some(100_000));
    assert_eq!(parse_amount(b".5"), Some(5_000));
    assert_eq!(parse_amount(b"1.2345"), Some(12_345));
    assert_eq!(parse_amount(b"0.0001"), Some(1));
    assert_eq!(parse_amount(b" 2.5 "), Some(25_000));
    assert_eq!(parse_amount(b"0"), Some(0));
}

#[test]
fn parse_amount_rejects() {
    // More than four fractional digits is not representable.
    assert_eq!(parse_amount(b"1.23456"), None);
    assert_eq!(parse_amount(b"."), None);
    assert_eq!(parse_amount(b""), None);
    assert_eq!(parse_amount(b"1.2.3"), None);
    assert_eq!(parse_amount(b"-1"), None);
    assert_eq!(parse_amount(b"1e3"), None);
    // The largest representable amount, and one step beyond it.
    assert_eq!(parse_amount(b"1844674407370955.1615"), Some(u64::MAX));
    assert_eq!(parse_amount(b"1844674407370955.1616"), None);
    assert_eq!(parse_amount(b"1844674407370956"), None);
}

use bfs::ParseError;
use bfs::parse_edge_record;
use bfs::parse_u32;

fn record(fields: &[&str]) -> Vec<Vec<u8>> {
    fields.iter().map(|f| f.as_bytes().to_vec()).collect()
}

#[test]
fn two_numeric_fields_make_an_edge() {
    assert_eq!(parse_edge_record(&record(&["12", "34"])), Ok((12, 34)));
    assert_eq!(parse_edge_record(&record(&["0", "0"])), Ok((0, 0)));
}

#[test]
fn three_fields_are_malformed() {
    assert_eq!(
        parse_edge_record(&record(&["1", "2", "3"])),
        Err(ParseError::MalformedRecord)
    );
}

#[test]
fn one_field_is_malformed() {
    assert_eq!(parse_edge_record(&record(&["1"])), Err(ParseError::MalformedRecord));
    assert_eq!(parse_edge_record(&record(&[])), Err(ParseError::MalformedRecord));
}

#[test]
fn non_numeric_field_is_malformed() {
    assert_eq!(parse_edge_record(&record(&["a", "2"])), Err(ParseError::MalformedRecord));
    assert_eq!(parse_edge_record(&record(&["1", "2x"])), Err(ParseError::MalformedRecord));
    assert_eq!(parse_edge_record(&record(&["-1", "2"])), Err(ParseError::MalformedRecord));
    assert_eq!(parse_edge_record(&record(&["", "2"])), Err(ParseError::MalformedRecord));
    assert_eq!(parse_edge_record(&record(&["1 ", "2"])), Err(ParseError::MalformedRecord));
}

#[test]
fn leading_plus_is_accepted() {
    assert_eq!(parse_u32(&b"+7".to_vec()), Some(7));
    assert_eq!(parse_u32(&b"+0".to_vec()), Some(0));
    assert_eq!(parse_u32(&b"+".to_vec()), None);
}

#[test]
fn leading_zeros_are_accepted() {
    assert_eq!(parse_u32(&b"007".to_vec()), Some(7));
    assert_eq!(parse_u32(&b"0".to_vec()), Some(0));
}

#[test]
fn u32_bounds_are_exact() {
    assert_eq!(parse_u32(&b"4294967295".to_vec()), Some(u32::MAX));
    assert_eq!(parse_u32(&b"4294967296".to_vec()), None);
    assert_eq!(parse_u32(&b"99999999999999999999".to_vec()), None);
}

#[test]
fn empty_field_is_rejected() {
    assert_eq!(parse_u32(&Vec::new()), None);
}

use csim::cache::{make_cache, ModelCache, Options, Outcome, Statistics};
use csim::trace::{parse_record, Access, AccessKind, MalformedRecordError};

fn cache(sets: u32, lines: u64, blocks: u32) -> ModelCache {
    make_cache(Options { sets, lines, blocks }, Statistics { hits: 0, misses: 0, evictions: 0 }).unwrap()
}

#[test]
fn parses_each_kind() {
    assert_eq!(parse_record(" L 10,4"), Ok(Some(Access { kind: AccessKind::Load, address: 0x10 })));
    assert_eq!(parse_record(" S 7ff000398,8"), Ok(Some(Access { kind: AccessKind::Store, address: 0x7ff000398 })));
    assert_eq!(parse_record(" M 20,1"), Ok(Some(Access { kind: AccessKind::Modify, address: 0x20 })));
    assert_eq!(parse_record(" I aBcD"), Ok(Some(Access { kind: AccessKind::Instruction, address: 0xabcd })));
    assert_eq!(parse_record(" L   ffffffffffffffff,2"), Ok(Some(Access { kind: AccessKind::Load, address: u64::MAX })));
}

#[test]
fn skips_lines_without_marker() {
    assert_eq!(parse_record("I 0400d7d4,8"), Ok(None));
    assert_eq!(parse_record(""), Ok(None));
    assert_eq!(parse_record("==123== comment"), Ok(None));
}

#[test]
fn rejects_unknown_kind() {
    assert_eq!(parse_record(" X 10,4"), Err(MalformedRecordError::UnknownKind));
    assert_eq!(parse_record(" "), Err(MalformedRecordError::UnknownKind));
}

#[test]
fn rejects_missing_address() {
    assert_eq!(parse_record(" L ,4"), Err(MalformedRecordError::MissingAddress));
    assert_eq!(parse_record(" L"), Err(MalformedRecordError::MissingAddress));
    assert_eq!(parse_record(" S   "), Err(MalformedRecordError::MissingAddress));
}

#[test]
fn rejects_invalid_address() {
    assert_eq!(parse_record(" L zz,4"), Err(MalformedRecordError::InvalidAddress));
    assert_eq!(parse_record(" L 1g,4"), Err(MalformedRecordError::InvalidAddress));
    assert_eq!(parse_record(" L 10000000000000000,4"), Err(MalformedRecordError::InvalidAddress));
}

#[test]
fn modify_is_a_load_then_a_store() {
    let mut c = cache(1, 1, 2);
    assert_eq!(c.handle_instruction(" M 20,1"), Ok(vec![Outcome::Miss, Outcome::Hit]));
    let s = c.statistics();
    assert_eq!((s.hits, s.misses, s.evictions), (1, 1, 0));
}

#[test]
fn skipped_line_changes_nothing() {
    let mut c = cache(0, 1, 0);
    assert_eq!(c.handle_instruction("I 0400d7d4,8"), Ok(vec![]));
    let s = c.statistics();
    assert_eq!((s.hits, s.misses, s.evictions), (0, 0, 0));
}

#[test]
fn malformed_line_changes_nothing() {
    let mut c = cache(0, 1, 0);
    assert_eq!(c.handle_instruction(" L 0,1"), Ok(vec![Outcome::Miss]));
    assert_eq!(c.handle_instruction(" L xyz,1"), Err(MalformedRecordError::InvalidAddress));
    let s = c.statistics();
    assert_eq!((s.hits, s.misses, s.evictions), (0, 1, 0));
    assert_eq!(c.handle_instruction(" L 0,1"), Ok(vec![Outcome::Hit]));
    let s = c.statistics();
    assert_eq!((s.hits, s.misses, s.evictions), (1, 1, 0));
}

use proxy_cache::filedata::{create_file_path, parent_of, write_step, FileData, WriteStep};
use proxy_cache::maintenance::{
    classify, janitor_should_delete, needs_origin, writer_should_persist, LookupState,
};
use proxy_cache::metadata::{parse_tools, Metadata};

fn meta(creation_date: u64, ttl: u64, content_length: u64, ct: Option<&str>) -> Metadata {
    Metadata::created_at(creation_date, ttl, content_length, ct.map(|s| s.to_string()))
}

#[test]
fn header_layout_is_exact() {
    let m = meta(1, 2, 3, Some("text/html"));
    let bytes = m.encode();
    let mut expected = b"text/html\n".to_vec();
    expected.extend_from_slice(&1u64.to_le_bytes());
    expected.extend_from_slice(&2u64.to_le_bytes());
    expected.extend_from_slice(&3u64.to_le_bytes());
    assert_eq!(bytes, expected);
    assert_eq!(m.get_size(), 34);
}

#[test]
fn header_round_trip() {
    let m = meta(1_700_000_000, 180, 5, Some("application/json"));
    let mut bytes = m.encode();
    bytes.extend_from_slice(b"hello");
    let back = Metadata::decode(&bytes).unwrap();
    assert_eq!(back.creation_date, 1_700_000_000);
    assert_eq!(back.ttl, 180);
    assert_eq!(back.content_length, 5);
    assert_eq!(back.content_type, Some("application/json".to_string()));
}

#[test]
fn absent_and_empty_content_type_collapse() {
    let none = meta(7, 8, 9, None);
    let empty = meta(7, 8, 9, Some(""));
    assert_eq!(none.encode(), empty.encode());
    assert_eq!(none.get_size(), 25);
    assert_eq!(Metadata::decode(&empty.encode()).unwrap().content_type, None);
}

#[test]
fn content_type_is_trimmed_when_written() {
    let m = meta(0, 0, 0, Some("  text/plain \t"));
    assert_eq!(&m.content_type_line(), b"text/plain\n");
    assert_eq!(m.get_size(), 24 + 11);
}

#[test]
fn parse_buffer_trims_and_blanks() {
    let mut block = Vec::new();
    block.extend_from_slice(&10u64.to_le_bytes());
    block.extend_from_slice(&20u64.to_le_bytes());
    block.extend_from_slice(&30u64.to_le_bytes());
    assert_eq!(parse_tools(&block), (10, 20, 30));
    let m = Metadata::parse_buffer(&block, "image/png\n".to_string());
    assert_eq!(m.get_creation_date(), 10);
    assert_eq!(m.get_ttl_time(), 20);
    assert_eq!(m.get_content_length(), 30);
    assert_eq!(m.get_content_type(), &Some("image/png".to_string()));
    let blank = Metadata::parse_buffer(&block, "\n".to_string());
    assert_eq!(blank.content_type, None);
}

#[test]
fn decode_rejects_truncated_or_malformed_headers() {
    assert!(Metadata::decode(b"").is_none());
    assert!(Metadata::decode(b"text/html").is_none());
    assert!(Metadata::decode(b"text/html\n0123456789").is_none());
    let mut bad = vec![0xffu8, b'\n'];
    bad.extend_from_slice(&[0u8; 24]);
    assert!(Metadata::decode(&bad).is_none());
}

#[test]
fn expiry_boundary_is_inclusive() {
    let m = meta(1000, 60, 0, None);
    assert!(!m.is_expired_at(1000));
    assert!(!m.is_expired_at(1059));
    assert!(m.is_expired_at(1060));
    assert!(m.is_expired_at(5000));
    assert!(!m.is_expired_at(10));
    assert!(!m.ttl_check_at(None));
    assert!(m.ttl_check_at(Some(1060)));
    let zero = meta(1000, 0, 0, None);
    assert!(zero.is_expired_at(1000));
}

#[test]
fn fresh_metadata_is_not_expired() {
    let m = Metadata::default(3600, 4, Some("text/plain".to_string())).unwrap();
    assert_eq!(m.ttl, 3600);
    assert!(!m.ttl_check());
}

#[test]
fn huge_dates_do_not_overflow() {
    let m = meta(u64::MAX, u64::MAX, 0, None);
    assert!(!m.is_expired_at(u64::MAX));
}

#[test]
fn file_path_strips_one_leading_slash() {
    assert_eq!(create_file_path("./cachefiles", "/index.html".to_string()), "./cachefiles/index.html");
    assert_eq!(create_file_path("./cachefiles", "a/b.css".to_string()), "./cachefiles/a/b.css");
    assert_eq!(create_file_path("cache", "//etc/passwd".to_string()), "cache//etc/passwd");
    assert_eq!(create_file_path("", "/x".to_string()), "x");
}

#[test]
fn parent_is_before_last_slash() {
    assert_eq!(parent_of("./cachefiles/a/b.css"), "./cachefiles/a");
    assert_eq!(parent_of("file"), "");
    assert_eq!(parent_of("/top"), "");
}

#[test]
fn write_steps() {
    assert!(matches!(write_step(0, Some(4), 10), WriteStep::Continue(4)));
    assert!(matches!(write_step(4, Some(6), 10), WriteStep::Done));
    assert!(matches!(write_step(4, Some(0), 10), WriteStep::Abort));
    assert!(matches!(write_step(4, None, 10), WriteStep::Abort));
    assert!(matches!(write_step(4, Some(7), 10), WriteStep::Abort));
}

#[test]
fn assemble_reports_each_error() {
    let ok = FileData::assemble(60, 3, "c/x".to_string(), false, Some(5), vec![1, 2, 3], None).unwrap();
    assert_eq!(ok.metadata.creation_date, 5);
    assert_eq!(ok.get_content(), &vec![1, 2, 3]);
    assert_eq!(ok.get_path(), "c/x");
    assert!(FileData::assemble(60, 3, "c".to_string(), true, Some(5), vec![1, 2, 3], None).is_err());
    assert!(FileData::assemble(60, 3, "c/x".to_string(), false, None, vec![1, 2, 3], None).is_err());
    assert!(FileData::assemble(60, 2, "c/x".to_string(), false, Some(5), vec![1, 2, 3], None).is_err());
}

#[test]
fn loaded_checks_payload_length() {
    let m = meta(1, 2, 3, None);
    assert!(FileData::loaded("p".to_string(), m, vec![1, 2, 3]).is_ok());
    let m = meta(1, 2, 3, None);
    assert!(FileData::loaded("p".to_string(), m, vec![1, 2]).is_err());
}

#[test]
fn persist_plan_writes_a_sibling_then_renames() {
    let f = FileData::assemble(60, 2, "cache/a/page".to_string(), false, Some(9), vec![7, 8], Some("text/html".to_string())).unwrap();
    let suffix = uuid::Uuid::new_v4().to_string();
    let plan = f.persist_plan_with(&suffix);
    assert_eq!(plan.target, "cache/a/page");
    assert_eq!(plan.parent, "cache/a");
    assert_ne!(plan.temp_path, plan.target);
    assert_eq!(plan.temp_path, format!("cache/a/page.{suffix}"));
    assert_eq!(parent_of(&plan.temp_path), "cache/a");
    let mut expected = f.format_content_type();
    expected.extend_from_slice(&f.generate_header(Vec::new()));
    expected.extend_from_slice(&[7, 8]);
    assert_eq!(plan.bytes, expected);
    let fixed = f.persist_plan_with("tmp");
    assert_eq!(fixed.temp_path, "cache/a/page.tmp");
}

#[test]
fn header_round_trip_non_ascii() {
    let m = meta(5, 6, 0, Some("text/plain; title=caf\u{e9} \u{2615}"));
    let back = Metadata::decode(&m.encode()).unwrap();
    assert_eq!(back.content_type, Some("text/plain; title=caf\u{e9} \u{2615}".to_string()));
    assert_eq!(back.creation_date, 5);
    assert_eq!(back.ttl, 6);
}

#[test]
fn lookup_states() {
    let m = meta(100, 10, 0, None);
    assert_eq!(classify(None, Some(0)), LookupState::Miss);
    assert_eq!(classify(Some(&m), Some(105)), LookupState::Hit);
    assert_eq!(classify(Some(&m), Some(110)), LookupState::Stale);
    assert_eq!(classify(Some(&m), None), LookupState::Hit);
    assert!(needs_origin(&LookupState::Miss));
    assert!(needs_origin(&LookupState::Stale));
    assert!(!needs_origin(&LookupState::Hit));
}

#[test]
fn janitor_deletes_expired_and_keeps_fresh() {
    let now = 1_000_000u64;
    let expired = meta(now - 1, 0, 0, None);
    let fresh = meta(now - 1, 3600, 0, None);
    assert!(janitor_should_delete(true, Some(&expired), Some(now)));
    assert!(!janitor_should_delete(true, Some(&fresh), Some(now)));
    assert!(!janitor_should_delete(false, Some(&expired), Some(now)));
    assert!(!janitor_should_delete(true, None, Some(now)));
    assert!(!janitor_should_delete(true, Some(&expired), None));
}

#[test]
fn writer_keeps_first_copy() {
    assert!(writer_should_persist(false));
    assert!(!writer_should_persist(true));
}

#[test]
fn parse_buffer_reads_back_generated_header() {
    let fd = FileData::assemble(120, 3, "c/r".to_string(), false, Some(1_700_000_123), vec![1, 2, 3], Some("text/html; charset=utf-8".to_string())).unwrap();
    let h = fd.generate_header(fd.format_content_type());
    let j = h.iter().position(|b| *b == b'\n').unwrap();
    let m = Metadata::parse_buffer(&h[j + 1..j + 25], String::from_utf8(h[..=j].to_vec()).unwrap());
    assert_eq!(m.creation_date, 1_700_000_123);
    assert_eq!(m.ttl, 120);
    assert_eq!(m.content_length, 3);
    assert_eq!(m.content_type, Some("text/html; charset=utf-8".to_string()));
}

//! The harness decisions, the image packer, the ABI registry and the word
//! codec.

use axloader::abi::{register_all_builtin_abis, AbiRegistry};
use axloader::bytes::{read_u16_at, read_u32_at, read_u64_at, write_u64_at};
use axloader::judge::{
    all_passed, app_base_name, dynamic_test, fail_marker, parse_ttype, resolve_ttype, run_verdict,
    static_test, test_judge, tests_to_run, AppConfig, TType,
};
use axloader::pack::{size_header, to_hex16, BIN_ELF_OFFSET, BIN_IMAGE_SIZE};

fn no_config() -> AppConfig {
    AppConfig { rename: None, ttype: None, dynamic_flags: None, static_flags: None, snapshot: None }
}

#[test]
fn the_first_failing_line_is_the_verdict() {
    let mut out: Vec<u8> = Vec::new();
    out.extend_from_slice(b"booting\n");
    out.extend_from_slice(b"check one \x1b[41mFAIL\x1b[0m here\n");
    out.extend_from_slice(b"check two \x1b[41mFAIL\x1b[0m too\n");
    let verdict = test_judge(&out).unwrap();
    assert_eq!(verdict, "check one \x1b[41mFAIL\x1b[0m here");
    assert!(run_verdict(&out).is_err());
}

#[test]
fn clean_output_passes() {
    let out = b"booting\nall checks OK\n".to_vec();
    assert!(test_judge(&out).is_none());
    assert_eq!(run_verdict(&out), Ok(()));
    // FAIL without the colour escapes is not the marker
    let plain = b"FAIL\n".to_vec();
    assert!(test_judge(&plain).is_none());
}

#[test]
fn the_trailing_partial_line_counts() {
    let mut out: Vec<u8> = Vec::new();
    out.extend_from_slice(b"fine line\n");
    out.extend_from_slice(b"tail \x1b[41mFAIL\x1b[0m");
    assert_eq!(test_judge(&out).unwrap(), "tail \x1b[41mFAIL\x1b[0m");
    assert_eq!(fail_marker(), b"\x1b[41mFAIL\x1b[0m".to_vec());
}

#[test]
fn link_flavours_parse_and_resolve() {
    assert_eq!(parse_ttype(&b"static".to_vec()), Some(TType::Static));
    assert_eq!(parse_ttype(&b"dynamic".to_vec()), Some(TType::Dynamic));
    assert_eq!(parse_ttype(&b"all".to_vec()), Some(TType::All));
    assert_eq!(parse_ttype(&b"other".to_vec()), None);

    assert_eq!(resolve_ttype(None, None), Ok(TType::All));
    assert_eq!(resolve_ttype(Some(TType::Static), None), Ok(TType::Static));
    assert_eq!(resolve_ttype(Some(TType::All), Some(TType::Dynamic)), Ok(TType::Dynamic));
    assert_eq!(resolve_ttype(Some(TType::Static), Some(TType::Static)), Ok(TType::Static));
    assert_eq!(resolve_ttype(Some(TType::Static), Some(TType::Dynamic)), Err(TType::Dynamic));

    assert_eq!(tests_to_run(TType::All), (true, true));
    assert_eq!(tests_to_run(TType::Static), (true, false));
    assert_eq!(tests_to_run(TType::Dynamic), (false, true));
}

#[test]
fn build_plans_follow_the_configuration() {
    let p = static_test(&b"hello_world".to_vec(), no_config());
    assert!(p.build);
    assert!(!p.dynamic);
    assert_eq!(p.output_name, b"hello".to_vec());
    assert!(p.flags.is_empty());
    assert!(!p.snapshot);

    let cfg = AppConfig {
        rename: Some(b"renamed".to_vec()),
        ttype: Some(TType::Dynamic),
        dynamic_flags: Some(vec!["-O2".to_string(), "-static-pie".to_string()]),
        static_flags: Some(vec!["-static".to_string()]),
        snapshot: Some(true),
    };
    let p = dynamic_test(&b"hello_world".to_vec(), false, cfg);
    assert!(p.build);
    assert!(p.dynamic);
    assert_eq!(p.output_name, b"renamed".to_vec());
    assert_eq!(p.flags, vec!["-O2".to_string(), "-static-pie".to_string()]);
    assert!(p.snapshot);

    let p = dynamic_test(&b"hello_world".to_vec(), true, no_config());
    assert!(!p.build);

    assert_eq!(app_base_name(&b"plain".to_vec()), b"plain".to_vec());
    assert_eq!(app_base_name(&b"name_more_parts".to_vec()), b"name".to_vec());
}

#[test]
fn a_run_summary_fails_on_any_failure() {
    assert!(all_passed(&vec![]));
    assert!(all_passed(&vec![true, true]));
    assert!(!all_passed(&vec![true, false, true]));
}

#[test]
fn the_size_header_is_the_size_little_endian() {
    assert_eq!(size_header(0), vec![0u8; 8]);
    assert_eq!(size_header(0x1234), vec![0x34, 0x12, 0, 0, 0, 0, 0, 0]);
    assert_eq!(
        size_header(0x0102030405060708),
        vec![0x08, 0x07, 0x06, 0x05, 0x04, 0x03, 0x02, 0x01]
    );
    assert_eq!(to_hex16(0xdeadbeef), b"00000000deadbeef".to_vec());
    assert!(BIN_ELF_OFFSET == 8);
    assert!(BIN_IMAGE_SIZE == 32 * 1024 * 1024);
}

#[test]
fn registered_names_stay_stable() {
    let mut reg = AbiRegistry::new();
    assert!(reg.register(b"hello".to_vec(), 0x100));
    let first = reg.lookup(b"hello");
    assert_eq!(first, Some(0x100));
    // repeated lookups of the same name return the same address
    assert_eq!(reg.lookup(b"hello"), first);
    assert_eq!(reg.lookup(b"hello"), first);
    // registering further names disturbs nothing
    assert!(reg.register(b"putchar".to_vec(), 0x200));
    assert_eq!(reg.lookup(b"hello"), first);
    // a duplicate is rejected and changes nothing
    assert!(!reg.register(b"hello".to_vec(), 0x999));
    assert_eq!(reg.lookup(b"hello"), Some(0x100));
    // a miss is a miss
    assert_eq!(reg.lookup(b"exit"), None);
}

#[test]
fn the_builtin_abis_register_once_at_startup() {
    let mut reg = AbiRegistry::new();
    assert!(register_all_builtin_abis(&mut reg, 0x1000, 0x2000, 0x3000));
    assert_eq!(reg.lookup(b"hello"), Some(0x1000));
    assert_eq!(reg.lookup(b"putchar"), Some(0x2000));
    assert_eq!(reg.lookup(b"exit"), Some(0x3000));
    // a second startup round is refused entry by entry
    assert!(!register_all_builtin_abis(&mut reg, 1, 2, 3));
    assert_eq!(reg.lookup(b"exit"), Some(0x3000));
}

#[test]
fn words_read_and_write_little_endian() {
    let b: Vec<u8> = vec![0x01, 0x02, 0x03, 0x04, 0x05, 0x06, 0x07, 0x08, 0x09, 0x0a];
    assert_eq!(read_u16_at(&b, 0), 0x0201);
    assert_eq!(read_u32_at(&b, 1), 0x05040302);
    assert_eq!(read_u64_at(&b, 2), 0x0a09080706050403);
    let mut v = vec![0u8; 12];
    write_u64_at(&mut v, 2, 0x1122334455667788);
    assert_eq!(v, vec![0, 0, 0x88, 0x77, 0x66, 0x55, 0x44, 0x33, 0x22, 0x11, 0, 0]);
    assert_eq!(read_u64_at(&v, 2), 0x1122334455667788);
}

#[test]
fn a_marker_split_across_lines_is_no_failure() {
    let mut out: Vec<u8> = Vec::new();
    out.extend_from_slice(b"prefix \x1b[41mFA");
    out.push(b'\n');
    out.extend_from_slice(b"IL\x1b[0m suffix\n");
    assert!(test_judge(&out).is_none());
}

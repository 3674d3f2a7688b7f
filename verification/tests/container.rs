use std::io::Write;
use splaunch::codec::base64url_decode;
use splaunch::container::{
    check_envelope, code_prefix, identify, identify_members, inflate_outcome, Compatibility,
    Container, JsonField,
};

fn envelope(kind: &str, container: u32, kind_version: u32) -> String {
    format!(
        r#"{{"format":"coilbox","container":{container},"kind":"{kind}",
           "kindVersion":{kind_version},"payload":{{"a":1}}}}"#
    )
}

/// base64url without padding, for the tests only - nothing here writes codes.
fn encode_for_test(data: &[u8]) -> String {
    const A: &[u8; 64] = b"ABCDEFGHIJKLMNOPQRSTUVWXYZabcdefghijklmnopqrstuvwxyz0123456789-_";
    let mut out = String::new();
    for chunk in data.chunks(3) {
        let b = |i: usize| *chunk.get(i).unwrap_or(&0) as u32;
        let bits = (b(0) << 16) | (b(1) << 8) | b(2);
        for i in 0..chunk.len() + 1 {
            out.push(A[((bits >> (18 - 6 * i)) & 63) as usize] as char);
        }
    }
    out
}

#[test]
fn a_supported_container_identifies_as_readable() {
    let id = identify(&envelope("preset", 1, 1)).unwrap();
    assert_eq!(id.kind, "preset");
    assert_eq!(id.compatibility, Compatibility::Supported);
}

#[test]
fn something_newer_is_refused_rather_than_half_read() {
    let newer_payload = identify(&envelope("preset", 1, 99)).unwrap();
    assert_eq!(newer_payload.compatibility, Compatibility::Newer);

    let newer_envelope = identify(&envelope("preset", 99, 1)).unwrap();
    assert_eq!(newer_envelope.compatibility, Compatibility::Newer);

    let err = check_envelope(&envelope("preset", 1, 99), "preset").unwrap_err();
    assert!(err.contains("newer Coilbox"), "{err}");
}

#[test]
fn a_kind_we_have_no_reader_for_says_so_by_name() {
    let id = identify(&envelope("blueprint", 1, 1)).unwrap();
    assert_eq!(id.compatibility, Compatibility::UnknownKind);
    let err = check_envelope(&envelope("blueprint", 1, 1), "preset").unwrap_err();
    assert!(err.contains("blueprint"), "{err}");
}

#[test]
fn a_file_that_is_not_a_container_is_refused_by_name() {
    let err = identify(r#"{"name":"my scenario","units":[]}"#).unwrap_err();
    assert!(err.contains("not a Coilbox file"), "{err}");
}

#[test]
fn base64url_round_trips_every_length() {
    for bytes in [
        vec![0u8],
        vec![0, 255],
        vec![1, 2, 3],
        vec![0xff, 0xfe, 0xfd, 0xfc],
        (0u8..=255).collect::<Vec<u8>>(),
    ] {
        let text = encode_for_test(&bytes);
        assert_eq!(base64url_decode(&text).unwrap(), bytes, "{text}");
    }
}

#[test]
fn a_share_code_reads_the_same_as_the_json() {
    let json = envelope("preset", 1, 1);
    let mut deflate =
        flate2::write::DeflateEncoder::new(Vec::new(), flate2::Compression::default());
    deflate.write_all(json.as_bytes()).unwrap();
    let code = format!("{}{}", code_prefix(), encode_for_test(&deflate.finish().unwrap()));

    let from_code = identify(&code).unwrap();
    assert_eq!(from_code, identify(&json).unwrap());
    assert_eq!(from_code.compatibility, Compatibility::Supported);
}

#[test]
fn a_zlib_wrapped_share_code_reads_too() {
    let json = envelope("preset", 1, 1);
    let mut z = flate2::write::ZlibEncoder::new(Vec::new(), flate2::Compression::default());
    z.write_all(json.as_bytes()).unwrap();
    let code = format!("cbz1.{}", encode_for_test(&z.finish().unwrap()));
    assert_eq!(identify(&code).unwrap().compatibility, Compatibility::Supported);
}

#[test]
fn an_uncompressed_code_without_its_prefix_still_reads() {
    let json = envelope("preset", 1, 1);
    let code = encode_for_test(json.as_bytes());
    assert_eq!(identify(&code).unwrap(), identify(&json).unwrap());
}

#[test]
fn text_that_is_neither_says_so() {
    let err = identify("  !!! not a code  ").unwrap_err();
    assert_eq!(err, "that is neither JSON nor a Coilbox share code");
    let err = identify("{ broken").unwrap_err();
    assert!(err.starts_with("that is not valid JSON: "), "{err}");
    let err = identify("[1, 2]").unwrap_err();
    assert_eq!(err, "that is neither JSON nor a Coilbox share code");
    let err = identify(&encode_for_test(b"[1, 2]")).unwrap_err();
    assert_eq!(err, "that file is not a container");
}

#[test]
fn the_wrong_kind_is_refused_by_name() {
    let err = check_envelope(&envelope("preset", 1, 1), "campaign").unwrap_err();
    assert_eq!(err, "that is a \"preset\" file, not a campaign.");
    let err = check_envelope(&envelope("preset", 3, 7), "preset").unwrap_err();
    assert_eq!(
        err,
        "this preset was written by a newer Coilbox (container 3, payload 7). Splaunch reads container 1."
    );
    let err = check_envelope(&envelope("keymap", 1, 1), "preset").unwrap_err();
    assert_eq!(err, "Splaunch does not read Coilbox \"keymap\" files yet - only preset.");
    assert!(check_envelope(&envelope("preset", 1, 1), "preset").is_ok());
}

#[test]
fn missing_numbers_count_as_zero() {
    let id = identify_members(
        &JsonField::Text("coilbox".to_string()),
        &JsonField::Other,
        &JsonField::Absent,
        &JsonField::Count(5_000_000_001),
    )
    .unwrap();
    assert_eq!(id.container, 0);
    assert_eq!(id.kind, "");
    assert_eq!(id.kind_version, 705_032_705);
    assert_eq!(id.compatibility, Compatibility::UnknownKind);
}

#[test]
fn a_new_container_is_stamped_with_this_envelope() {
    let c = Container::new("preset", 1, 42u8);
    assert_eq!(c.format, "coilbox");
    assert_eq!(c.container, 1);
    assert_eq!(c.kind, "preset");
    assert_eq!(c.payload, 42);
}

#[test]
fn raw_deflate_wins_and_zlib_is_the_fallback() {
    assert_eq!(inflate_outcome(Ok(vec![1]), Err("no".into())), Ok(vec![1]));
    assert_eq!(inflate_outcome(Ok(vec![]), Ok(vec![2])), Ok(vec![2]));
    assert_eq!(
        inflate_outcome(Err("a".into()), Err("b".into())),
        Err("that share code did not decompress: b".to_string())
    );
    let big = vec![0u8; 8 * 1024 * 1024 + 1];
    assert!(inflate_outcome(Ok(big), Ok(vec![])).unwrap_err().contains("far more"));
}

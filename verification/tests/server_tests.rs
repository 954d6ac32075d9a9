use mnemosyne_core::mcp::artifact::{
    base64_encode, check_render_size, delivers_inline, hex, plan_chunk, rfc3339, valid_id,
};
use mnemosyne_core::errors::CoreError;
use mnemosyne_core::mcp::server::{
    inspect_object_id_not_found, parse_inspect_object_id, rpc_error_details, DetailValue,
    RpcErrorDetails,
};

fn detail<'a>(d: &'a RpcErrorDetails, key: &str) -> Option<&'a DetailValue> {
    d.details.as_ref()?.iter().find(|(k, _)| k == key).map(|(_, v)| v)
}

fn text(s: &str) -> DetailValue {
    DetailValue::Text(s.into())
}

#[test]
fn rpc_response_error_includes_structured_details() {
    let error = CoreError::ConfigError {
        detail: "missing API key".into(),
        suggestion: Some("Set MNEMOSYNE_TEST_API_KEY before retrying.".into()),
    };
    let details = rpc_error_details(&error, "Configuration error: missing API key".into());
    assert_eq!(details.code, "config_error");
    assert_eq!(details.message, "Configuration error: missing API key");
    assert_eq!(
        detail(&details, "suggestion"),
        Some(&text("Set MNEMOSYNE_TEST_API_KEY before retrying."))
    );
    assert_eq!(detail(&details, "detail"), Some(&text("missing API key")));
}

#[test]
fn rpc_response_maps_session_error_codes() {
    for (error, expected_code) in [
        (CoreError::InvalidInput("session not found: session-404".into()), "session_not_found"),
        (
            CoreError::InvalidInput(
                "session load failed: session-123: embedded session_id session-actual does not match requested session_id session-123"
                    .into(),
            ),
            "session_load_failed",
        ),
        (CoreError::Unsupported("session_version 99 is unsupported".into()), "session_version_unsupported"),
        (CoreError::Other("session persist failed: disk full".into()), "session_persist_failed"),
    ] {
        let details = rpc_error_details(&error, "failed".into());
        assert_eq!(details.code, expected_code);
    }
}

#[test]
fn envelope_codes_per_kind() {
    let cases = [
        (CoreError::Io("denied".into()), "io_error"),
        (CoreError::UnexpectedEof, "io_error"),
        (CoreError::InvalidInput("bad".into()), "invalid_input"),
        (CoreError::NotImplemented("later".into()), "not_implemented"),
        (CoreError::SerdeJson("expected value".into()), "invalid_params"),
        (CoreError::Other("boom".into()), "internal_error"),
        (CoreError::Unsupported("nope".into()), "unsupported"),
        (CoreError::AiProviderTimeout { detail: "slow".into() }, "provider_timeout"),
    ];
    for (error, code) in cases {
        let d = rpc_error_details(&error, "m".into());
        assert_eq!(d.code, code);
        assert_eq!(d.message, "m");
    }
}

#[test]
fn provider_error_carries_status() {
    let d = rpc_error_details(
        &CoreError::AiProviderError { detail: "rate limited".into(), status: Some(429) },
        "m".into(),
    );
    assert_eq!(d.code, "provider_error");
    assert_eq!(detail(&d, "status"), Some(&DetailValue::Number(429)));
    let d = rpc_error_details(&CoreError::AiProviderError { detail: "x".into(), status: None }, "m".into());
    assert_eq!(detail(&d, "status"), Some(&DetailValue::Null));
}

#[test]
fn feature_errors_parse_message_and_pairs() {
    let error = CoreError::Unsupported(
        "feature_unavailable_object_diff_too_large:  too many objects (objects=1200, limit=1000, mode=deep) ".into(),
    );
    let d = rpc_error_details(&error, "ignored".into());
    assert_eq!(d.code, "feature_unavailable_object_diff_too_large");
    assert_eq!(d.message, "too many objects");
    assert_eq!(detail(&d, "detail"), Some(&text("too many objects")));
    assert_eq!(detail(&d, "objects"), Some(&DetailValue::Number(1200)));
    assert_eq!(detail(&d, "limit"), Some(&DetailValue::Number(1000)));
    assert_eq!(detail(&d, "mode"), Some(&text("deep")));

    let plain = CoreError::Unsupported("feature_unavailable_without_field_data: no field bytes".into());
    let d = rpc_error_details(&plain, "ignored".into());
    assert_eq!(d.message, "no field bytes");
    assert_eq!(d.details, Some(vec![("detail".to_string(), text("no field bytes"))]));
}

#[test]
fn snapshot_and_workflow_codes() {
    let d = rpc_error_details(&CoreError::Unsupported("snapshot_stale_source: changed".into()), "m".into());
    assert_eq!(d.code, "snapshot_stale_source");
    assert_eq!(detail(&d, "hint"), Some(&text("run with --refresh to re-parse and update the cache")));
    let d = rpc_error_details(&CoreError::Unsupported("workflow_corrupt: bad json".into()), "m".into());
    assert_eq!(d.code, "workflow_corrupt");
    assert_eq!(detail(&d, "detail"), Some(&text("workflow_corrupt: bad json")));
    let err = inspect_object_id_not_found("0x10", "heap.hprof");
    let d = rpc_error_details(&err, "m".into());
    assert_eq!(d.code, "object_id_not_found");
    assert_eq!(
        err,
        CoreError::Unsupported(
            "inspect_object_id_not_found: object id '0x10' was not found in heap dump 'heap.hprof'".into()
        )
    );
}

#[test]
fn object_ids_in_hex_and_decimal() {
    assert_eq!(parse_inspect_object_id("  0x1F "), Some(31));
    assert_eq!(parse_inspect_object_id("0X10"), Some(16));
    assert_eq!(parse_inspect_object_id("ff"), Some(255));
    assert_eq!(parse_inspect_object_id("123"), Some(123));
    assert_eq!(parse_inspect_object_id("+7"), Some(7));
    assert_eq!(parse_inspect_object_id(""), None);
    assert_eq!(parse_inspect_object_id("0x"), None);
    assert_eq!(parse_inspect_object_id("12z"), None);
    assert_eq!(parse_inspect_object_id("18446744073709551615"), Some(u64::MAX));
    assert_eq!(parse_inspect_object_id("18446744073709551616"), None);
    assert_eq!(parse_inspect_object_id("0x1ffffffffffffffff"), None);
}

#[test]
fn artifact_encodings() {
    assert_eq!(base64_encode(b""), "");
    assert_eq!(base64_encode(b"f"), "Zg==");
    assert_eq!(base64_encode(b"fo"), "Zm8=");
    assert_eq!(base64_encode(b"foo"), "Zm9v");
    assert_eq!(base64_encode(b"foobar"), "Zm9vYmFy");
    assert_eq!(base64_encode(&[0xff, 0xfe, 0x3e]), "//4+");
    assert_eq!(hex(&[0x00, 0xab, 0x10]), "00ab10");
    assert!(valid_id(&"a1".repeat(32)));
    assert!(!valid_id(&"g1".repeat(32)));
    assert!(!valid_id("abc"));
    assert_eq!(rfc3339(0), "1970-01-01T00:00:00Z");
    assert_eq!(rfc3339(951_782_400), "2000-02-29T00:00:00Z");
    assert_eq!(rfc3339(1_700_000_000), "2023-11-14T22:13:20Z");
    assert_eq!(rfc3339(4_102_444_799), "2099-12-31T23:59:59Z");
}

#[test]
fn artifact_read_plans() {
    let p = plan_chunk(1000, 50, 10, 900, 262_144).unwrap();
    assert_eq!((p.offset, p.amount, p.next, p.eof), (900, 100, 1000, true));
    let p = plan_chunk(1000, 50, 10, 0, 10).unwrap();
    assert_eq!((p.amount, p.next, p.eof), (10, 10, false));
    assert_eq!(plan_chunk(1000, 10, 10, 0, 10), Err(CoreError::Unsupported("artifact_expired".into())));
    assert_eq!(
        plan_chunk(1000, 50, 10, 0, 262_145),
        Err(CoreError::InvalidInput("max_bytes may not exceed 262144".into()))
    );
    assert_eq!(
        plan_chunk(1000, 50, 10, 1001, 10),
        Err(CoreError::InvalidInput("offset_bytes must not exceed artifact length".into()))
    );
    assert!(delivers_inline(262_144));
    assert!(!delivers_inline(262_145));
    assert_eq!(
        check_render_size(16_777_217, false, "json"),
        Err(CoreError::Unsupported(
            "artifact_size_limit_exceeded: exceeded render limit (limit_bytes=16777216, observed_bytes=16777217, format=json)".into()
        ))
    );
    assert_eq!(check_render_size(5, false, "json"), Ok(()));
}

#[test]
fn random_style_ids_are_valid_and_base64_lengths() {
    let bytes: Vec<u8> = (0..32u8).map(|b| b.wrapping_mul(37)).collect();
    assert!(valid_id(&hex(&bytes)));
    for n in 0..10usize {
        let data = vec![7u8; n];
        assert_eq!(base64_encode(&data).len(), 4 * ((n + 2) / 3));
    }
}

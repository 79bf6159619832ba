use dab_core::stamp::{check_sidecar, name_ok, sha256_hex, Sidecar, StampError, SCHEMA};

fn sidecar(sha: &str, stamp: &str) -> Sidecar {
    Sidecar {
        schema: SCHEMA.to_string(),
        name: "az-5x5-v1".to_string(),
        board_rows: 5,
        board_cols: 5,
        channels: 7,
        plane: 11,
        policy_length: 60,
        features_version: 1,
        source_stamp: stamp.to_string(),
        onnx_sha256: sha.to_string(),
    }
}

#[test]
fn sha256_known_digest() {
    assert_eq!(
        sha256_hex(b"abc"),
        "ba7816bf8f01cfea414140de5dae2223b00361a396177a9cb410ff61f20015ad"
    );
    assert_eq!(sha256_hex(b"").len(), 64);
}

#[test]
fn accept_matching_sidecar_fields() {
    let onnx = b"not-a-real-onnx";
    let sha = sha256_hex(onnx);
    let parsed = check_sidecar(sidecar(&sha, "dev"), onnx, "dev").unwrap();
    assert_eq!(parsed.name, "az-5x5-v1");
    assert_eq!(parsed.board_rows, 5);
}

#[test]
fn reject_each_field_in_order() {
    let onnx = b"x";
    let sha = sha256_hex(onnx);

    let mut s = sidecar(&sha, "dev");
    s.schema = "other/1".to_string();
    assert_eq!(check_sidecar(s, onnx, "dev").unwrap_err(), StampError::Schema);

    let mut s = sidecar(&sha, "dev");
    s.name = "AZ NET".to_string();
    assert_eq!(check_sidecar(s, onnx, "dev").unwrap_err(), StampError::Name);

    let mut s = sidecar(&sha, "dev");
    s.board_rows = 3;
    assert_eq!(check_sidecar(s, onnx, "dev").unwrap_err(), StampError::PadSize);

    let mut s = sidecar(&sha, "dev");
    s.policy_length = 24;
    assert_eq!(check_sidecar(s, onnx, "dev").unwrap_err(), StampError::Shape);

    let mut s = sidecar(&sha, "dev");
    s.features_version = 2;
    assert_eq!(
        check_sidecar(s, onnx, "dev").unwrap_err(),
        StampError::FeaturesVersion
    );

    let s = sidecar(&sha, "dev");
    assert_eq!(
        check_sidecar(s, onnx, "other").unwrap_err(),
        StampError::SourceStamp
    );

    let s = sidecar("deadbeef", "dev");
    assert_eq!(check_sidecar(s, onnx, "dev").unwrap_err(), StampError::Sha256);

    // A bad schema is reported before a bad name.
    let mut s = sidecar(&sha, "dev");
    s.schema = "x".to_string();
    s.name = String::new();
    assert_eq!(check_sidecar(s, onnx, "dev").unwrap_err(), StampError::Schema);
}

#[test]
fn model_names() {
    assert!(name_ok("az-5x5-v1"));
    assert!(name_ok("a"));
    assert!(!name_ok(""));
    assert!(!name_ok("-az"));
    assert!(!name_ok("az-"));
    assert!(!name_ok("Az"));
    assert!(!name_ok("a z"));
    assert!(name_ok(&"a".repeat(64)));
    assert!(!name_ok(&"a".repeat(65)));
    assert!(!name_ok("é"));
}

#[test]
fn error_messages() {
    assert_eq!(StampError::Json.as_str(), "invalid sidecar JSON");
    assert_eq!(
        StampError::PadSize.as_str(),
        "sidecar boardRows/boardCols must be the 5×5 pad"
    );
    assert_eq!(StampError::Sha256.as_str(), "sidecar onnxSha256 mismatch");
}

/// Reads the sidecar JSON the way the browser loader does, then checks it.
fn parse_and_check(json: &str, onnx: &[u8], expected: &str) -> Result<Sidecar, StampError> {
    let v: serde_json::Value = serde_json::from_str(json).map_err(|_| StampError::Json)?;
    let text = |k: &str| {
        v.get(k)
            .and_then(|x| x.as_str())
            .map(|s| s.to_string())
            .ok_or(StampError::Json)
    };
    let num = |k: &str| v.get(k).and_then(|x| x.as_u64()).ok_or(StampError::Json);
    let parsed = Sidecar {
        schema: text("schema")?,
        name: text("name")?,
        board_rows: u8::try_from(num("boardRows")?).map_err(|_| StampError::Json)?,
        board_cols: u8::try_from(num("boardCols")?).map_err(|_| StampError::Json)?,
        channels: usize::try_from(num("channels")?).map_err(|_| StampError::Json)?,
        plane: usize::try_from(num("plane")?).map_err(|_| StampError::Json)?,
        policy_length: usize::try_from(num("policyLength")?).map_err(|_| StampError::Json)?,
        features_version: u32::try_from(num("featuresVersion")?).map_err(|_| StampError::Json)?,
        source_stamp: text("sourceStamp")?,
        onnx_sha256: text("onnxSha256")?,
    };
    check_sidecar(parsed, onnx, expected)
}

fn valid_json(sha: &str, stamp: &str) -> String {
    format!(
        r#"{{
          "schema": "dab-az-model/1",
          "name": "az-5x5-v1",
          "boardRows": 5,
          "boardCols": 5,
          "channels": 7,
          "plane": 11,
          "policyLength": 60,
          "valueRange": [-1, 1],
          "featuresVersion": 1,
          "sourceStamp": "{stamp}",
          "onnxSha256": "{sha}"
        }}"#
    )
}

#[test]
fn accept_matching_sidecar() {
    let onnx = b"not-a-real-onnx";
    let sha = sha256_hex(onnx);
    let stamp = "dev";
    let parsed = parse_and_check(&valid_json(&sha, stamp), onnx, stamp).unwrap();
    assert_eq!(parsed.name, "az-5x5-v1");
    assert_eq!(parsed.board_rows, 5);
}

#[test]
fn reject_bad_json() {
    assert_eq!(parse_and_check("{", b"x", "dev"), Err(StampError::Json));
}

#[test]
fn reject_schema() {
    let onnx = b"x";
    let json = valid_json(&sha256_hex(onnx), "dev").replace("dab-az-model/1", "other/1");
    assert_eq!(parse_and_check(&json, onnx, "dev"), Err(StampError::Schema));
}

#[test]
fn reject_name() {
    let onnx = b"x";
    let json = valid_json(&sha256_hex(onnx), "dev").replace("az-5x5-v1", "AZ NET");
    assert_eq!(parse_and_check(&json, onnx, "dev"), Err(StampError::Name));
}

#[test]
fn reject_pad_size() {
    let onnx = b"x";
    let json =
        valid_json(&sha256_hex(onnx), "dev").replace("\"boardRows\": 5", "\"boardRows\": 3");
    assert_eq!(parse_and_check(&json, onnx, "dev"), Err(StampError::PadSize));
}

#[test]
fn reject_shape() {
    let onnx = b"x";
    let json = valid_json(&sha256_hex(onnx), "dev")
        .replace("\"policyLength\": 60", "\"policyLength\": 24");
    assert_eq!(parse_and_check(&json, onnx, "dev"), Err(StampError::Shape));
}

#[test]
fn reject_features_version() {
    let onnx = b"x";
    let json = valid_json(&sha256_hex(onnx), "dev")
        .replace("\"featuresVersion\": 1", "\"featuresVersion\": 2");
    assert_eq!(
        parse_and_check(&json, onnx, "dev"),
        Err(StampError::FeaturesVersion)
    );
}

#[test]
fn reject_source_stamp() {
    let onnx = b"x";
    let json = valid_json(&sha256_hex(onnx), "dev");
    assert_eq!(
        parse_and_check(&json, onnx, "other"),
        Err(StampError::SourceStamp)
    );
}

#[test]
fn reject_sha256() {
    let json = valid_json("deadbeef", "dev");
    assert_eq!(parse_and_check(&json, b"x", "dev"), Err(StampError::Sha256));
}

#[test]
fn stamp_accepts_dev_fixture_bytes() {
    let onnx = b"fixture";
    let sha = sha256_hex(onnx);
    let ok = format!(
        r#"{{"schema":"dab-az-model/1","name":"az-5x5-v1","boardRows":5,"boardCols":5,"channels":7,"plane":11,"policyLength":60,"featuresVersion":1,"sourceStamp":"dev","onnxSha256":"{sha}"}}"#
    );
    assert!(parse_and_check(&ok, onnx, "dev").is_ok());
}

#[test]
fn hex_lower_writes_two_digits_per_byte() {
    assert_eq!(dab_core::stamp::hex_lower(&[]), "");
    assert_eq!(dab_core::stamp::hex_lower(&[0x00, 0x0f, 0xa0, 0xff, 0x3c]), "000fa0ff3c");
}

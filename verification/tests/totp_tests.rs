use totp_pam::config::{encode_config, parse_config};
use totp_pam::engine::{generate_code, verify, verify_totp};
use totp_pam::secret::{generate_secret, new_default_config};
use totp_pam::uri::{make_label, parse_totp_uri, to_qr_payload, to_uri};
use totp_pam::{HashAlgorithm, TotpConfig, TotpError, SECRET_LEN};

fn rfc_config() -> TotpConfig {
    TotpConfig {
        algorithm: HashAlgorithm::Sha1,
        digits: 6,
        step_seconds: 30,
        skew_steps: 1,
        secret: b"12345678901234567890".to_vec(),
    }
}

#[test]
fn rfc4226_counter_one_vector() {
    // t = 59 falls in the second 30-second step, so counter = 1; the
    // HOTP reference vector for counter 1 is 287082.
    let cfg = rfc_config();
    assert_eq!(generate_code(&cfg, 59), "287082");
}

#[test]
fn rfc4226_counter_zero_vector() {
    let cfg = rfc_config();
    assert_eq!(generate_code(&cfg, 29), "755224");
}

#[test]
fn rfc6238_eight_digit_vector() {
    let mut cfg = rfc_config();
    cfg.digits = 8;
    assert_eq!(generate_code(&cfg, 59), "94287082");
}

#[test]
fn generate_code_deterministic() {
    let cfg = rfc_config();
    let a = generate_code(&cfg, 1234567890);
    let b = generate_code(&cfg, 1234567890);
    assert_eq!(a, b);
    assert_eq!(a.len(), 6);
}

#[test]
fn sha256_and_sha512_codes_are_stable() {
    let mut cfg = rfc_config();
    cfg.algorithm = HashAlgorithm::Sha256;
    let a = generate_code(&cfg, 59);
    assert_eq!(a, generate_code(&cfg, 59));
    assert_eq!(a.len(), 6);
    assert!(a.bytes().all(|b| b.is_ascii_digit()));
    cfg.algorithm = HashAlgorithm::Sha512;
    let b = generate_code(&cfg, 59);
    assert_eq!(b, generate_code(&cfg, 59));
    assert_eq!(b.len(), 6);
    assert!(b.bytes().all(|b| b.is_ascii_digit()));
}

#[test]
fn verify_accepts_code_at_its_own_time() {
    let cfg = rfc_config();
    let code = generate_code(&cfg, 59);
    assert_eq!(verify(&cfg, &code, 59), Ok(true));
}

#[test]
fn verify_accepts_within_skew_window() {
    let cfg = rfc_config();
    let code = generate_code(&cfg, 59);
    // one step early and one step late are both inside the +/-1 window
    assert_eq!(verify(&cfg, &code, 29), Ok(true));
    assert_eq!(verify(&cfg, &code, 89), Ok(true));
}

#[test]
fn verify_rejects_beyond_skew_window() {
    let cfg = rfc_config();
    let code = generate_code(&cfg, 59);
    // two steps away: the window around t covers only adjacent counters
    assert_eq!(verify(&cfg, &code, 119), Ok(false));
    let late = generate_code(&cfg, 119);
    assert_eq!(verify(&cfg, &late, 59), Ok(false));
}

#[test]
fn verify_zero_time_is_invalid() {
    let cfg = rfc_config();
    assert_eq!(verify(&cfg, "287082", 0), Err(TotpError::InvalidTime));
    assert_eq!(verify_totp(&cfg, "287082", 0), Err(TotpError::InvalidTime));
}

#[test]
fn verify_rejects_wrong_or_malformed_codes() {
    let cfg = rfc_config();
    assert_eq!(verify(&cfg, "000000", 59), Ok(false));
    assert_eq!(verify(&cfg, "28708", 59), Ok(false));
    assert_eq!(verify(&cfg, "2870822", 59), Ok(false));
    assert_eq!(verify(&cfg, "", 59), Ok(false));
}

#[test]
fn config_encode_is_human_readable() {
    let cfg = rfc_config();
    let text = String::from_utf8(encode_config(&cfg)).unwrap();
    assert_eq!(
        text,
        "algorithm: SHA1\ndigits: 6\nstep_seconds: 30\nskew_steps: 1\nsecret: MTIzNDU2Nzg5MDEyMzQ1Njc4OTA="
    );
}

#[test]
fn config_round_trip() {
    let cfg = TotpConfig {
        algorithm: HashAlgorithm::Sha256,
        digits: 8,
        step_seconds: 60,
        skew_steps: 2,
        secret: (0u8..20).collect(),
    };
    let text = encode_config(&cfg);
    let back = parse_config(&text).unwrap();
    assert_eq!(back.algorithm, cfg.algorithm);
    assert_eq!(back.digits, cfg.digits);
    assert_eq!(back.step_seconds, cfg.step_seconds);
    assert_eq!(back.skew_steps, cfg.skew_steps);
    assert_eq!(back.secret, cfg.secret);
}

#[test]
fn parse_ignores_unknown_fields() {
    let mut text = b"owner: somebody\n".to_vec();
    text.extend_from_slice(&encode_config(&rfc_config()));
    let back = parse_config(&text).unwrap();
    assert_eq!(back.step_seconds, 30);
}

#[test]
fn parse_truncated_secret_is_corrupt() {
    let text = encode_config(&rfc_config());
    let cut = &text[..text.len() - 5];
    assert_eq!(parse_config(cut), Err(TotpError::Corrupt));
}

#[test]
fn parse_empty_secret_is_corrupt() {
    // a document whose secret field holds nothing must not yield a
    // zero-length secret
    let text = b"algorithm: SHA1\ndigits: 6\nstep_seconds: 30\nskew_steps: 1\nsecret: ";
    assert_eq!(parse_config(text), Err(TotpError::Corrupt));
}

#[test]
fn parse_garbage_is_corrupt() {
    assert_eq!(parse_config(b""), Err(TotpError::Corrupt));
    assert_eq!(parse_config(b"hello world"), Err(TotpError::Corrupt));
    let text = b"algorithm: MD5\ndigits: 6\nstep_seconds: 30\nskew_steps: 1\nsecret: AAAA";
    assert_eq!(parse_config(text), Err(TotpError::Corrupt));
    let text2 = b"algorithm: SHA1\ndigits: six\nstep_seconds: 30\nskew_steps: 1\nsecret: AAAA";
    assert_eq!(parse_config(text2), Err(TotpError::Corrupt));
}

#[test]
fn uri_has_exact_expected_form() {
    let cfg = rfc_config();
    let uri = to_uri(&cfg, "alice@example", "TOTP-PAM");
    assert_eq!(
        uri,
        "otpauth://totp/TOTP-PAM:alice%40example?secret=GEZDGNBVGY3TQOJQGEZDGNBVGY3TQOJQ&issuer=TOTP-PAM&algorithm=SHA1&digits=6&period=30"
    );
}

#[test]
fn uri_percent_encodes_non_ascii() {
    let cfg = rfc_config();
    let uri = to_uri(&cfg, "f\u{00fc}r", "Caf\u{00e9}");
    // UTF-8 bytes of the non-ASCII characters are escaped, never dropped
    assert!(uri.starts_with("otpauth://totp/Caf%C3%A9:f%C3%BCr?secret="));
}

#[test]
fn label_joins_user_and_host() {
    assert_eq!(make_label("alice", "example"), "alice@example");
}

#[test]
fn qr_payload_is_png_of_uri() {
    let cfg = rfc_config();
    let png = to_qr_payload(&cfg, "alice@example", "TOTP-PAM").unwrap();
    assert_eq!(&png[..8], &[0x89, 0x50, 0x4e, 0x47, 0x0d, 0x0a, 0x1a, 0x0a]);
}

#[test]
fn generate_secret_has_requested_length() {
    let a = generate_secret(SECRET_LEN).unwrap();
    let b = generate_secret(SECRET_LEN).unwrap();
    assert_eq!(a.len(), SECRET_LEN);
    assert_eq!(b.len(), SECRET_LEN);
    // two draws from the OS entropy source must not coincide
    assert_ne!(a, b);
}

#[test]
fn default_config_uses_fixed_parameters() {
    let secret = generate_secret(SECRET_LEN).unwrap();
    let cfg = new_default_config(secret.clone());
    assert_eq!(cfg.algorithm, HashAlgorithm::Sha1);
    assert_eq!(cfg.digits, 6);
    assert_eq!(cfg.step_seconds, 30);
    assert_eq!(cfg.skew_steps, 1);
    assert_eq!(cfg.secret, secret);
}

#[test]
fn uri_round_trip_recovers_parameters() {
    let cfg = TotpConfig {
        algorithm: HashAlgorithm::Sha512,
        digits: 7,
        step_seconds: 45,
        skew_steps: 1,
        secret: (100u8..120).collect(),
    };
    let uri = to_uri(&cfg, "b\u{00f6}b@example", "My Service");
    let (secret, alg, digits, period) = parse_totp_uri(&uri).unwrap();
    assert_eq!(secret, cfg.secret);
    assert_eq!(alg, HashAlgorithm::Sha512);
    assert_eq!(digits, 7);
    assert_eq!(period, 45);
}

#[test]
fn parse_totp_uri_rejects_garbage() {
    assert!(parse_totp_uri("").is_none());
    assert!(parse_totp_uri("otpauth://totp/x").is_none());
    assert!(parse_totp_uri("https://example.com/?secret=ABC").is_none());
}

#[test]
fn qr_payload_too_long_is_encoding_error() {
    let cfg = rfc_config();
    let huge_label = "a".repeat(5000);
    assert_eq!(
        to_qr_payload(&cfg, &huge_label, "TOTP-PAM"),
        Err(TotpError::EncodingError)
    );
}

#[test]
fn parse_ignores_unknown_fields_between_lines() {
    // unknown lines may sit before the fields and in every gap between them
    let text = "note: one\nalgorithm: SHA1\ncolor: blue\ndigits: 6\nstep_seconds: 30\nowner: x\nskew_steps: 1\nsecret: MTIzNDU2Nzg5MDEyMzQ1Njc4OTA=";
    let back = parse_config(text.as_bytes()).unwrap();
    assert_eq!(back.secret, b"12345678901234567890".to_vec());
    assert_eq!(back.digits, 6);
    assert_eq!(back.step_seconds, 30);
    assert_eq!(back.skew_steps, 1);
}

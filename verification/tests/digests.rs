use kessetsu::hashing::normalize_sha256;

const HEX: &str = "E3B0C44298FC1C149AFBF4C8996FB92427AE41E4649B934CA495991B7852B855";
const REFUSAL: &str =
    "--requirements-sha256 must contain exactly 64 hexadecimal characters, optionally prefixed by 'sha256:'";

#[test]
fn digests_are_prefixed_and_lowercased() {
    let want = format!("sha256:{}", HEX.to_ascii_lowercase());
    assert_eq!(normalize_sha256(HEX), Ok(want.clone()));
    assert_eq!(normalize_sha256(&format!("sha256:{HEX}")), Ok(want));
}

#[test]
fn malformed_digests_are_refused() {
    assert_eq!(normalize_sha256(&HEX[1..]), Err(REFUSAL.to_string()));
    assert_eq!(normalize_sha256(&format!("{}g", &HEX[1..])), Err(REFUSAL.to_string()));
    assert_eq!(normalize_sha256("sha256:"), Err(REFUSAL.to_string()));
    assert_eq!(normalize_sha256(&format!("SHA256:{HEX}")), Err(REFUSAL.to_string()));
}

use kodecks_client::save_data::{Auth, AuthError, SaveData, SaveDataError, SaveDataV1, Statistics};

const NOTICE: &str = "Do NOT share this data with anyone.\nIt contains a secret key to access your account on the server.\n\n";

fn document() -> Vec<u8> {
    br#"{"auth":{"private_key":"AAAAAAAAAAAAAAAAAAAAAAAAAAAAAAAAAAAAAAAAAAE="},"statistics":{"games":3}}"#.to_vec()
}

#[test]
fn test_save_data() {
    let json = document();
    let encoded = SaveData::encode(&json).unwrap();
    let decoded = SaveData::decode(&encoded).unwrap();
    assert_eq!(decoded, json);
}

#[test]
fn test_encoded_text_is_notice_then_base64() {
    let encoded = SaveData::encode(&document()).unwrap();
    assert!(encoded.starts_with(NOTICE));
    let data = &encoded[NOTICE.len()..];
    assert!(!data.is_empty());
    assert_eq!(data.len() % 4, 0);
    assert!(data.chars().all(|c| c.is_ascii_alphanumeric() || c == '-' || c == '_' || c == '='));
}

#[test]
fn test_encode_uses_a_fresh_nonce() {
    let json = document();
    let mut texts = std::collections::HashSet::new();
    for _ in 0..8 {
        let t = SaveData::encode(&json).unwrap();
        assert_eq!(SaveData::decode(&t).unwrap(), json);
        texts.insert(t);
    }
    assert!(texts.len() > 1);
}

#[test]
fn test_decode_reads_the_last_word_after_trimming() {
    let json = document();
    let encoded = SaveData::encode(&json).unwrap();
    let data = encoded[NOTICE.len()..].to_string();
    assert_eq!(SaveData::decode(&data).unwrap(), json);
    let padded = format!("  some other text\n{}\u{a0}\n\t", data);
    assert_eq!(SaveData::decode(&padded).unwrap(), json);
}

#[test]
fn test_decode_errors() {
    assert_eq!(SaveData::decode("not base64 ***"), Err(SaveDataError::InvalidBase64));
    assert_eq!(SaveData::decode("AAA"), Err(SaveDataError::InvalidBase64));
    assert_eq!(SaveData::decode(""), Err(SaveDataError::InvalidLength));
    assert_eq!(SaveData::decode("notice\nAAA="), Err(SaveDataError::InvalidLength));
    assert_eq!(SaveData::decode("AAAAAAAA"), Err(SaveDataError::Compression));
}

#[test]
fn test_decode_checks_the_masked_stream() {
    let json = document();
    let encoded = SaveData::encode(&json).unwrap();
    // Flipping the nonce unmasks the stream wrongly.
    let data = &encoded[NOTICE.len()..];
    let mut chars: Vec<char> = data.chars().collect();
    chars[0] = if chars[0] == 'A' { 'B' } else { 'A' };
    let broken: String = chars.into_iter().collect();
    assert_eq!(SaveData::decode(&broken), Err(SaveDataError::Compression));
}

#[test]
fn test_serialize() {
    let data = SaveDataV1::new().unwrap();
    let text = data.auth.key_text();
    let decoded = Auth::from_key_text(&text).unwrap();
    assert!(decoded.same_key(&data.auth));
    assert_eq!(data.statistics, Statistics::default());
}

#[test]
fn test_key_text_is_url_safe_base64() {
    let auth = Auth::from_key_text("AAAAAAAAAAAAAAAAAAAAAAAAAAAAAAAAAAAAAAAAAAE=").unwrap();
    let mut one = vec![0u8; 32];
    one[31] = 1;
    assert_eq!(auth.key_bytes(), one);
    assert_eq!(auth.key_text(), "AAAAAAAAAAAAAAAAAAAAAAAAAAAAAAAAAAAAAAAAAAE=");
}

#[test]
fn test_key_text_errors() {
    assert_eq!(Auth::from_key_text("not base64!").err(), Some(AuthError::InvalidBase64));
    assert_eq!(
        Auth::from_key_text("AAAAAAAAAAAAAAAAAAAAAAAAAAAAAAAAAAAAAAAAAAA=").err(),
        Some(AuthError::InvalidKey)
    );
    assert_eq!(
        Auth::from_key_text("__________________________________________8=").err(),
        Some(AuthError::InvalidKey)
    );
    assert_eq!(Auth::from_key_text("-__-").err(), Some(AuthError::InvalidKey));
}

#[test]
fn test_generated_keys_round_trip() {
    for _ in 0..4 {
        let auth = Auth::generate().unwrap();
        assert_eq!(auth.key_bytes().len(), 32);
        let back = Auth::from_key_text(&auth.key_text()).unwrap();
        assert!(back.same_key(&auth));
        assert_eq!(back.key_bytes(), auth.key_bytes());
    }
    let a = Auth::generate().unwrap();
    let b = Auth::generate().unwrap();
    assert!(!a.same_key(&b));
}

#[test]
fn test_statistics_record_game() {
    let mut s = Statistics::default();
    assert_eq!(s.games, 0);
    s.record_game();
    s.record_game();
    assert_eq!(s, Statistics { games: 2 });
}

#[test]
fn decode_ignores_the_header() {
    let json = document();
    let encoded = SaveData::encode(&json).unwrap();
    let word = encoded[NOTICE.len()..].to_string();
    let with_header = format!("any header at all\nsecond line\n{}  ", word);
    assert_eq!(SaveData::decode(&with_header), SaveData::decode(&word));
    assert_eq!(SaveData::decode("header\nAAA=  "), SaveData::decode("AAA="));
}

#[test]
fn encode_always_succeeds() {
    assert!(SaveData::encode(b"").is_ok());
    assert!(SaveData::encode(&vec![0u8; 10000]).is_ok());
}

#[test]
fn random_bytes_have_the_length_asked() {
    let v = kodecks_client::entropy::random_bytes(16).unwrap();
    assert_eq!(v.len(), 16);
    assert_eq!(kodecks_client::entropy::random_bytes(0).unwrap().len(), 0);
}

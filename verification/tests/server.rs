use kodecks_client::save_data::Auth;
use kodecks_client::server::{default_server, is_default_server, LoginAction, LoginError, LoginFlow, LoginReply};

fn key() -> Auth {
    Auth::from_key_text("AAAAAAAAAAAAAAAAAAAAAAAAAAAAAAAAAAAAAAAAAAE=").unwrap()
}

#[test]
fn test_default_server() {
    assert_eq!(default_server().as_deref(), Some("https://kodecks.onrender.com/"));
    assert!(is_default_server("https://kodecks.onrender.com/"));
    assert!(!is_default_server("https://kodecks.onrender.com"));
    assert!(!is_default_server("https://example.com/"));
}

#[test]
fn test_login_flow() {
    let (flow, first) = LoginFlow::start("https://example.com/game/", &key());
    let mut flow = flow.unwrap();
    let pubkey = match first {
        LoginAction::RequestChallenge { url, pubkey } => {
            assert_eq!(url, "https://example.com/game/login");
            pubkey
        }
        other => panic!("unexpected {:?}", other),
    };
    // The public key of the secret key 1 is the generator's x coordinate.
    assert_eq!(pubkey[0], 0x79);
    assert_eq!(pubkey.len(), 32);

    let answer = flow.step(&LoginReply::Challenge { challenge: "abc".to_string() });
    match answer {
        LoginAction::AnswerChallenge { url, pubkey: p, signature } => {
            assert_eq!(url, "https://example.com/game/login");
            assert_eq!(p, pubkey);
            assert_eq!(signature.len(), 64);
        }
        other => panic!("unexpected {:?}", other),
    }
    let open = flow.step(&LoginReply::Session { token: "t k".to_string() });
    match open {
        LoginAction::OpenSocket { url } => assert_eq!(url, "https://example.com/ws?token=t+k"),
        other => panic!("unexpected {:?}", other),
    }
}

#[test]
fn test_signature_is_deterministic() {
    let sign = || {
        let (flow, _) = LoginFlow::start("https://example.com/", &key());
        match flow.unwrap().step(&LoginReply::Challenge { challenge: "xyz".to_string() }) {
            LoginAction::AnswerChallenge { signature, .. } => signature,
            other => panic!("unexpected {:?}", other),
        }
    };
    assert_eq!(sign(), sign());
}

#[test]
fn test_login_failures() {
    let (flow, action) = LoginFlow::start("not a url", &key());
    assert!(flow.is_none());
    assert!(matches!(action, LoginAction::Fail(LoginError::InvalidUrl)));

    let (flow, _) = LoginFlow::start("https://example.com/", &key());
    let mut flow = flow.unwrap();
    let a = flow.step(&LoginReply::Session { token: "early".to_string() });
    assert!(matches!(a, LoginAction::Fail(LoginError::UnexpectedResponse)));

    let (flow, _) = LoginFlow::start("https://example.com/", &key());
    let mut flow = flow.unwrap();
    match flow.step(&LoginReply::Refused { error: "banned".to_string() }) {
        LoginAction::Fail(LoginError::Refused(e)) => assert_eq!(e, "banned"),
        other => panic!("unexpected {:?}", other),
    }

    let (flow, _) = LoginFlow::start("https://example.com/", &key());
    let mut flow = flow.unwrap();
    flow.step(&LoginReply::Challenge { challenge: "c".to_string() });
    let a = flow.step(&LoginReply::Challenge { challenge: "again".to_string() });
    assert!(matches!(a, LoginAction::Fail(LoginError::UnexpectedResponse)));
}

//! Logging in to the game server: the client asks for a challenge for its
//! public key, answers it with a signature, and opens the game socket with
//! the session token it gets back. The network exchanges are made by the
//! caller; this module decides what to send next.
use vstd::prelude::*;
use crate::save_data::{schnorr_key, Auth};
use k256::schnorr::signature::Signer;
use k256::schnorr::SigningKey;
use url::Url;

verus! {

#[verifier::external_type_specification]
#[verifier::external_body]
pub struct ExUrlParseError(url::ParseError);

/// The serialization of the URL `rel` resolved against the URL `base`, as
/// the url crate parses and joins them; none where it refuses either.
pub uninterp spec fn joined_url(base: Seq<char>, rel: Seq<char>) -> Option<Seq<char>>;

/// The serialization of the URL `url` with the pair `key`=`value` appended
/// to its query, as the url crate writes it; none where it refuses `url`.
pub uninterp spec fn url_with_pair(url: Seq<char>, key: Seq<char>, value: Seq<char>) -> Option<Seq<char>>;

/// The serialization of the URL `text`, as the url crate parses it; none
/// where it refuses it.
pub uninterp spec fn parsed_url(text: Seq<char>) -> Option<Seq<char>>;

/// The x-only public key (32 bytes) of the schnorr signing key `key`.
pub uninterp spec fn schnorr_public_key(key: Seq<u8>) -> Seq<u8>;

/// The signature (64 bytes) of `msg` by the schnorr signing key `key`, with
/// the message hashed by SHA-256 and no auxiliary randomness; none in the
/// rare case where signing fails.
pub uninterp spec fn schnorr_signature(key: Seq<u8>, msg: Seq<u8>) -> Option<Seq<u8>>;

/// `Url::parse` of the url crate, then `Url::join`: `rel` resolved against
/// `base`, serialized.
#[verifier::external_body]
fn url_join(base: &str, rel: &str) -> (res: Result<String, url::ParseError>)
    ensures
        res is Ok <==> joined_url(base@, rel@) is Some,
        res matches Ok(u) ==> joined_url(base@, rel@) == Some(u@),
{
    Ok(Url::parse(base)?.join(rel)?.into())
}

/// `Url::parse` of the url crate, then `query_pairs_mut().append_pair`:
/// `url` with `key`=`value` appended to its query, serialized.
#[verifier::external_body]
fn url_append_pair(url: &str, key: &str, value: &str) -> (res: Result<String, url::ParseError>)
    ensures
        res is Ok <==> url_with_pair(url@, key@, value@) is Some,
        res matches Ok(u) ==> url_with_pair(url@, key@, value@) == Some(u@),
{
    let mut u = Url::parse(url)?;
    u.query_pairs_mut().append_pair(key, value);
    Ok(u.into())
}

/// `Url::parse` of the url crate: the serialization of `text`.
#[verifier::external_body]
fn url_parse(text: &str) -> (res: Result<String, url::ParseError>)
    ensures
        res is Ok <==> parsed_url(text@) is Some,
        res matches Ok(u) ==> parsed_url(text@) == Some(u@),
{
    Ok(Url::parse(text)?.into())
}

/// k256's schnorr `SigningKey::from_bytes`, then `verifying_key().to_bytes()`:
/// the x-only public key of `key`.
#[verifier::external_body]
fn public_key_of(key: &[u8]) -> (res: Vec<u8>)
    requires
        schnorr_key(key@) == Some(key@),
    ensures
        res@ == schnorr_public_key(key@),
        res@.len() == 32,
{
    SigningKey::from_bytes(key).unwrap().verifying_key().to_bytes().to_vec()
}

/// k256's schnorr `SigningKey::from_bytes`, then `Signer::try_sign` of `msg`:
/// the signature's bytes.
#[verifier::external_body]
fn sign_message(key: &[u8], msg: &[u8]) -> (res: Result<Vec<u8>, k256::schnorr::Error>)
    requires
        schnorr_key(key@) == Some(key@),
    ensures
        res is Ok <==> schnorr_signature(key@, msg@) is Some,
        res matches Ok(s) ==> schnorr_signature(key@, msg@) == Some(s@),
{
    let signature: k256::schnorr::Signature = SigningKey::from_bytes(key).unwrap().try_sign(msg)?;
    Ok(signature.to_bytes().to_vec())
}

/// The server address the client uses unless told otherwise.
pub open spec fn default_server_text() -> Seq<char> {
    "https://kodecks.onrender.com"@
}

/// The default server address, as the url crate serializes it.
pub fn default_server() -> (res: Option<String>)
    ensures
        match res {
            Some(u) => parsed_url(default_server_text()) == Some(u@),
            None => parsed_url(default_server_text()) is None,
        },
{
    match url_parse("https://kodecks.onrender.com") {
        Ok(u) => Some(u),
        Err(_) => None,
    }
}

/// Whether `url` (a serialized URL) is the default server address; the
/// configuration leaves it out when it is.
pub fn is_default_server(url: &str) -> (res: bool)
    ensures
        res == (parsed_url(default_server_text()) == Some(url@)),
{
    match default_server() {
        Some(d) => d.eq(&url.to_owned()),
        None => false,
    }
}

// ---------------------------------------------------------------------------
// The login exchange.
/// What the server answers a login request with.
#[derive(Debug, Clone)]
pub enum LoginReply {
    /// A challenge to sign.
    Challenge { challenge: String },
    /// A session was opened.
    Session { token: String },
    /// The request was refused, with the server's error.
    Refused { error: String },
}

/// What the client does next.
#[derive(Debug, Clone)]
pub enum LoginAction {
    /// Post to `url` a challenge request for the public key.
    RequestChallenge { url: String, pubkey: Vec<u8> },
    /// Post to `url` the signature of the challenge.
    AnswerChallenge { url: String, pubkey: Vec<u8>, signature: Vec<u8> },
    /// Open the game socket at `url`.
    OpenSocket { url: String },
    /// Give up.
    Fail(LoginError),
}

/// Why logging in failed.
#[derive(Debug, Clone)]
pub enum LoginError {
    /// An address could not be formed.
    InvalidUrl,
    /// The key could not sign the challenge.
    SigningFailed,
    /// The server refused, with this error.
    Refused(String),
    /// The server answered something the client did not ask for.
    UnexpectedResponse,
}

/// Where the exchange stands.
#[derive(Debug, Clone, Copy, PartialEq, Eq, Structural)]
pub enum LoginStage {
    AwaitingChallenge,
    AwaitingSession,
    Finished,
}

/// A login exchange in progress.
#[derive(Clone)]
pub struct LoginFlow {
    login_url: String,
    key: Vec<u8>,
    pubkey: Vec<u8>,
    stage: LoginStage,
}

/// A login action, as mathematical values.
pub enum LoginActionSpec {
    RequestChallenge { url: Seq<char>, pubkey: Seq<u8> },
    AnswerChallenge { url: Seq<char>, pubkey: Seq<u8>, signature: Seq<u8> },
    OpenSocket { url: Seq<char> },
    InvalidUrl,
    SigningFailed,
    Refused(Seq<char>),
    UnexpectedResponse,
}

impl LoginAction {
    pub open spec fn spec(&self) -> LoginActionSpec {
        match self {
            LoginAction::RequestChallenge { url, pubkey } => LoginActionSpec::RequestChallenge {
                url: url@,
                pubkey: pubkey@,
            },
            LoginAction::AnswerChallenge { url, pubkey, signature } => LoginActionSpec::AnswerChallenge {
                url: url@,
                pubkey: pubkey@,
                signature: signature@,
            },
            LoginAction::OpenSocket { url } => LoginActionSpec::OpenSocket { url: url@ },
            LoginAction::Fail(LoginError::InvalidUrl) => LoginActionSpec::InvalidUrl,
            LoginAction::Fail(LoginError::SigningFailed) => LoginActionSpec::SigningFailed,
            LoginAction::Fail(LoginError::Refused(e)) => LoginActionSpec::Refused(e@),
            LoginAction::Fail(LoginError::UnexpectedResponse) => LoginActionSpec::UnexpectedResponse,
        }
    }
}

/// The first action of a login to `server` with `key`: asking the `login`
/// address under the server for a challenge for the key's public key.
pub open spec fn login_start(server: Seq<char>, key: Seq<u8>) -> LoginActionSpec {
    match joined_url(server, "login"@) {
        Some(u) => LoginActionSpec::RequestChallenge { url: u, pubkey: schnorr_public_key(key) },
        None => LoginActionSpec::InvalidUrl,
    }
}

/// The action after the server's reply: a challenge is signed and sent
/// back; a session token opens the socket at `/ws` on the server with the
/// token in the query; a refusal fails with the server's error; any other
/// reply fails as unexpected.
pub open spec fn login_next(stage: LoginStage, login_url: Seq<char>, key: Seq<u8>, reply: LoginReply) -> LoginActionSpec {
    match (stage, reply) {
        (_, LoginReply::Refused { error }) => LoginActionSpec::Refused(error@),
        (LoginStage::AwaitingChallenge, LoginReply::Challenge { challenge }) => match schnorr_signature(
            key,
            vstd::utf8::encode_utf8(challenge@),
        ) {
            Some(s) => LoginActionSpec::AnswerChallenge {
                url: login_url,
                pubkey: schnorr_public_key(key),
                signature: s,
            },
            None => LoginActionSpec::SigningFailed,
        },
        (LoginStage::AwaitingSession, LoginReply::Session { token }) => match joined_url(login_url, "/ws"@) {
            Some(ws) => match url_with_pair(ws, "token"@, token@) {
                Some(u) => LoginActionSpec::OpenSocket { url: u },
                None => LoginActionSpec::InvalidUrl,
            },
            None => LoginActionSpec::InvalidUrl,
        },
        _ => LoginActionSpec::UnexpectedResponse,
    }
}

/// The stage after an action is taken.
pub open spec fn stage_after(stage: LoginStage, a: LoginActionSpec) -> LoginStage {
    match a {
        LoginActionSpec::RequestChallenge { .. } => LoginStage::AwaitingChallenge,
        LoginActionSpec::AnswerChallenge { .. } => LoginStage::AwaitingSession,
        _ => LoginStage::Finished,
    }
}

impl LoginFlow {
    pub closed spec fn stage_spec(&self) -> LoginStage {
        self.stage
    }

    pub closed spec fn login_url_spec(&self) -> Seq<char> {
        self.login_url@
    }

    pub closed spec fn key_spec(&self) -> Seq<u8> {
        self.key@
    }

    /// The key is one that signs.
    pub closed spec fn wf(&self) -> bool {
        &&& schnorr_key(self.key@) == Some(self.key@)
        &&& self.pubkey@ == schnorr_public_key(self.key@)
    }

    /// Starts a login to `server` with the account key `auth` (see
    /// [`login_start`]); the flow, if the exchange goes on.
    pub fn start(server: &str, auth: &Auth) -> (res: (Option<LoginFlow>, LoginAction))
        requires
            auth.wf(),
        ensures
            res.1.spec() == login_start(server@, auth.key()),
            match res.0 {
                Some(f) => f.wf() && f.stage_spec() == LoginStage::AwaitingChallenge && f.key_spec()
                    == auth.key() && (res.1.spec() matches LoginActionSpec::RequestChallenge { url, .. }
                    && f.login_url_spec() == url),
                None => !(res.1.spec() is RequestChallenge),
            },
    {
        let key = auth.key_bytes();
        let pubkey = public_key_of(key.as_slice());
        match url_join(server, "login") {
            Ok(login_url) => {
                let action = LoginAction::RequestChallenge { url: login_url.clone(), pubkey: copy_bytes(&pubkey) };
                (Some(LoginFlow { login_url, key, pubkey, stage: LoginStage::AwaitingChallenge }), action)
            },
            Err(_) => (None, LoginAction::Fail(LoginError::InvalidUrl)),
        }
    }

    /// Takes the server's reply (see [`login_next`]) and moves to the next
    /// stage.
    pub fn step(&mut self, reply: &LoginReply) -> (res: LoginAction)
        requires
            old(self).wf(),
        ensures
            final(self).wf(),
            res.spec() == login_next(old(self).stage_spec(), old(self).login_url_spec(), old(self).key_spec(), *reply),
            final(self).stage_spec() == stage_after(old(self).stage_spec(), res.spec()),
            final(self).login_url_spec() == old(self).login_url_spec(),
            final(self).key_spec() == old(self).key_spec(),
    {
        let action = match reply {
            LoginReply::Refused { error } => LoginAction::Fail(LoginError::Refused(error.clone())),
            LoginReply::Challenge { challenge } => {
                if self.stage == LoginStage::AwaitingChallenge {
                    match sign_message(self.key.as_slice(), challenge.as_str().as_bytes()) {
                        Ok(signature) => LoginAction::AnswerChallenge {
                            url: self.login_url.clone(),
                            pubkey: copy_bytes(&self.pubkey),
                            signature,
                        },
                        Err(_) => LoginAction::Fail(LoginError::SigningFailed),
                    }
                } else {
                    LoginAction::Fail(LoginError::UnexpectedResponse)
                }
            },
            LoginReply::Session { token } => {
                if self.stage == LoginStage::AwaitingSession {
                    match url_join(self.login_url.as_str(), "/ws") {
                        Ok(ws) => match url_append_pair(ws.as_str(), "token", token.as_str()) {
                            Ok(u) => LoginAction::OpenSocket { url: u },
                            Err(_) => LoginAction::Fail(LoginError::InvalidUrl),
                        },
                        Err(_) => LoginAction::Fail(LoginError::InvalidUrl),
                    }
                } else {
                    LoginAction::Fail(LoginError::UnexpectedResponse)
                }
            },
        };
        self.stage = match &action {
            LoginAction::RequestChallenge { .. } => LoginStage::AwaitingChallenge,
            LoginAction::AnswerChallenge { .. } => LoginStage::AwaitingSession,
            _ => LoginStage::Finished,
        };
        action
    }
}

fn copy_bytes(v: &Vec<u8>) -> (res: Vec<u8>)
    ensures
        res@ == v@,
{
    let mut res: Vec<u8> = Vec::new();
    let mut i: usize = 0;
    while i < v.len()
        invariant
            i <= v.len(),
            res@ == v@.take(i as int),
        decreases v.len() - i,
    {
        res.push(v[i]);
        i += 1;
        assert(res@ =~= v@.take(i as int));
    }
    assert(v@.take(i as int) =~= v@);
    res
}

} // verus!

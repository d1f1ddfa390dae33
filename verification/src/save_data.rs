//! The save file: a short notice, then the URL-safe base64 text of four
//! random bytes followed by the zlib-compressed JSON document masked with
//! those bytes, repeated. Also the account key and the play statistics that
//! the document carries.
use vstd::prelude::*;
use base64::engine::general_purpose::URL_SAFE;
use base64::Engine;
use flate2::bufread::ZlibDecoder;
use flate2::write::ZlibEncoder;
use flate2::Compression;
use k256::schnorr::SigningKey;
use rand::rngs::{OsRng, StdRng};
use rand::SeedableRng;
use crate::entropy::{random_bytes, EntropyError};
use std::io::Read;
use std::io::Write;

verus! {

/// How many random bytes open the encoded document.
pub const NONCE_LEN: usize = 4;

// ---------------------------------------------------------------------------
// Outside types.
#[verifier::external_type_specification]
#[verifier::external_body]
pub struct ExDecodeError(base64::DecodeError);

#[verifier::external_type_specification]
#[verifier::external_body]
pub struct ExIoError(std::io::Error);

#[verifier::external_type_specification]
#[verifier::external_body]
pub struct ExSignatureError(k256::schnorr::Error);

// ---------------------------------------------------------------------------
// Base64 (RFC 4648, URL-safe alphabet, with padding).
/// The symbol for the six bits `v` in the URL-safe alphabet.
pub open spec fn url_safe_symbol(v: int) -> char {
    if v < 26 {
        (65 + v) as char
    } else if v < 52 {
        (97 + v - 26) as char
    } else if v < 62 {
        (48 + v - 52) as char
    } else if v == 62 {
        '-'
    } else {
        '_'
    }
}

/// The padded URL-safe base64 text of `data`: each group of three bytes
/// becomes four symbols, and a last group of one or two bytes is padded
/// with `=`.
pub open spec fn base64_url(data: Seq<u8>) -> Seq<char>
    decreases data.len(),
{
    if data.len() == 0 {
        Seq::empty()
    } else if data.len() == 1 {
        let a = data[0] as int;
        seq![url_safe_symbol(a / 4), url_safe_symbol((a % 4) * 16), '=', '=']
    } else if data.len() == 2 {
        let a = data[0] as int;
        let b = data[1] as int;
        seq![
            url_safe_symbol(a / 4),
            url_safe_symbol((a % 4) * 16 + b / 16),
            url_safe_symbol((b % 16) * 4),
            '=',
        ]
    } else {
        let a = data[0] as int;
        let b = data[1] as int;
        let c = data[2] as int;
        seq![
            url_safe_symbol(a / 4),
            url_safe_symbol((a % 4) * 16 + b / 16),
            url_safe_symbol((b % 16) * 4 + c / 64),
            url_safe_symbol(c % 64),
        ] + base64_url(data.skip(3))
    }
}

/// The bytes whose base64 text is `text`, if there are any.
pub open spec fn base64_url_bytes(text: Seq<char>) -> Option<Seq<u8>> {
    if exists|v: Seq<u8>| base64_url(v) == text {
        Some(choose|v: Seq<u8>| base64_url(v) == text)
    } else {
        None
    }
}

/// `URL_SAFE.encode` of the base64 crate: the padded URL-safe base64 text
/// of `data`.
#[verifier::external_body]
fn base64_url_encode(data: &[u8]) -> (res: String)
    ensures
        res@ == base64_url(data@),
{
    URL_SAFE.encode(data)
}

/// `URL_SAFE.decode` of the base64 crate, on the bytes of `text`. Decoding
/// requires canonical padding and rejects stray trailing bits, so it
/// succeeds exactly on the texts that encoding produces, and gives back the
/// bytes that were encoded.
#[verifier::external_body]
fn base64_url_decode(text: &Vec<char>) -> (res: Result<Vec<u8>, base64::DecodeError>)
    ensures
        res is Ok <==> exists|v: Seq<u8>| base64_url(v) == text@,
        res matches Ok(w) ==> base64_url(w@) == text@,
        res matches Ok(w) ==> forall|v: Seq<u8>| base64_url(v) == text@ ==> w@ == v,
{
    let s: String = text.iter().collect();
    URL_SAFE.decode(s.as_bytes())
}

// ---------------------------------------------------------------------------
// Zlib.
/// What flate2's zlib encoder at the default level writes for `data`.
pub uninterp spec fn zlib_deflate(data: Seq<u8>) -> Seq<u8>;

/// What flate2's zlib decoder reads out of `data`, if it reads a whole
/// stream.
pub uninterp spec fn zlib_inflate(data: Seq<u8>) -> Option<Seq<u8>>;

/// flate2's `ZlibEncoder` at `Compression::default()`, writing into a new
/// `Vec`: the compressed stream of `data`. Writing into a `Vec` does not
/// fail, and the compressor, given valid parameters and room to write,
/// reports no error, so the call succeeds.
#[verifier::external_body]
fn zlib_compress(data: &[u8]) -> (res: Result<Vec<u8>, std::io::Error>)
    ensures
        res is Ok,
        res matches Ok(v) ==> v@ == zlib_deflate(data@),
{
    let mut e = ZlibEncoder::new(Vec::new(), Compression::default());
    e.write_all(data)?;
    e.finish()
}

/// flate2's `bufread::ZlibDecoder` over `data`, read to the end. It gives
/// back what the encoder compressed.
#[verifier::external_body]
fn zlib_decompress(data: &[u8]) -> (res: Result<Vec<u8>, std::io::Error>)
    ensures
        res is Ok <==> zlib_inflate(data@) is Some,
        res matches Ok(v) ==> zlib_inflate(data@) == Some(v@),
        res is Err ==> forall|x: Seq<u8>| zlib_deflate(x) != data@,
        res matches Ok(v) ==> forall|x: Seq<u8>| zlib_deflate(x) == data@ ==> v@ == x,
{
    let mut d = ZlibDecoder::new(data);
    let mut out: Vec<u8> = Vec::new();
    d.read_to_end(&mut out)?;
    Ok(out)
}


// ---------------------------------------------------------------------------
// The container.
/// The notice that opens a save file.
pub open spec fn notice() -> Seq<char> {
    "Do NOT share this data with anyone.\nIt contains a secret key to access your account on the server.\n\n"@
}

/// `data` with byte `i` combined by exclusive or with byte `i` of `nonce`,
/// taken round.
pub open spec fn masked(data: Seq<u8>, nonce: Seq<u8>) -> Seq<u8> {
    Seq::new(data.len(), |i: int| data[i] ^ nonce[i % (nonce.len() as int)])
}

/// The save text of the JSON document `json` under `nonce`.
pub open spec fn sealed_text(json: Seq<u8>, nonce: Seq<u8>) -> Seq<char> {
    notice() + base64_url(nonce + masked(zlib_deflate(json), nonce))
}

/// Why a save text could not be read or written.
#[derive(Debug, Clone, Copy, PartialEq, Eq, Structural)]
pub enum SaveDataError {
    /// The last word of the text is not base64.
    InvalidBase64,
    /// The decoded data is shorter than the nonce.
    InvalidLength,
    /// The compressed document could not be written or read.
    Compression,
    /// The operating system gave no random bytes for the nonce.
    NoRandomness,
}

/// Whitespace as `char::is_whitespace` and `str::trim` see it: the
/// characters with the Unicode `White_Space` property.
pub open spec fn is_white_space(c: char) -> bool {
    let u = c as u32;
    (9 <= u <= 13) || u == 32 || u == 0x85 || u == 0xa0 || u == 0x1680 || (0x2000 <= u <= 0x200a)
        || u == 0x2028 || u == 0x2029 || u == 0x202f || u == 0x205f || u == 0x3000
}

/// Whitespace as `char::is_ascii_whitespace` sees it.
pub open spec fn is_ascii_space(c: char) -> bool {
    c == ' ' || c == '\t' || c == '\n' || c == '\x0C' || c == '\r'
}

pub open spec fn trim_end(s: Seq<char>) -> Seq<char>
    decreases s.len(),
{
    if s.len() > 0 && is_white_space(s.last()) {
        trim_end(s.drop_last())
    } else {
        s
    }
}

pub open spec fn trim_start(s: Seq<char>) -> Seq<char>
    decreases s.len(),
{
    if s.len() > 0 && is_white_space(s[0]) {
        trim_start(s.drop_first())
    } else {
        s
    }
}

/// What follows the last ASCII whitespace of `s` (all of `s` if none).
pub open spec fn last_word(s: Seq<char>) -> Seq<char>
    decreases s.len(),
{
    if s.len() == 0 {
        s
    } else if is_ascii_space(s.last()) {
        Seq::empty()
    } else {
        last_word(s.drop_last()).push(s.last())
    }
}

/// The part of a save text that holds the data: the last word of the
/// trimmed text.
pub open spec fn data_word(text: Seq<char>) -> Seq<char> {
    last_word(trim_start(trim_end(text)))
}

/// The bytes after the nonce, unmasked.
pub open spec fn unmasked(data: Seq<u8>) -> Seq<u8> {
    masked(data.skip(NONCE_LEN as int), data.take(NONCE_LEN as int))
}

/// What reading the save text `text` gives: the JSON document, or why
/// there is none.
pub open spec fn opened(text: Seq<char>) -> Result<Seq<u8>, SaveDataError> {
    match base64_url_bytes(data_word(text)) {
        None => Err(SaveDataError::InvalidBase64),
        Some(data) => if data.len() < NONCE_LEN {
            Err(SaveDataError::InvalidLength)
        } else {
            match zlib_inflate(unmasked(data)) {
                Some(json) => Ok(json),
                None => Err(SaveDataError::Compression),
            }
        },
    }
}

fn white_space(c: char) -> (res: bool)
    ensures
        res == is_white_space(c),
{
    let u = c as u32;
    (9 <= u && u <= 13) || u == 32 || u == 0x85 || u == 0xa0 || u == 0x1680 || (0x2000 <= u && u
        <= 0x200a) || u == 0x2028 || u == 0x2029 || u == 0x202f || u == 0x205f || u == 0x3000
}

fn ascii_space(c: char) -> (res: bool)
    ensures
        res == is_ascii_space(c),
{
    c == ' ' || c == '\t' || c == '\n' || c == '\x0C' || c == '\r'
}

/// The characters of `s`, in order.
pub fn chars_of(s: &str) -> (res: Vec<char>)
    ensures
        res@ == s@,
{
    let mut res: Vec<char> = Vec::new();
    for c in it: s.chars()
        invariant
            res@ == it.seq().take(it.index() as int),
            it.seq() == s@,
    {
        res.push(c);
    }
    res
}

/// The data word of a save text (see [`data_word`]).
fn data_word_exec(s: &Vec<char>) -> (res: Vec<char>)
    ensures
        res@ == data_word(s@),
{
    let ghost t = s@;
    let mut e: usize = s.len();
    assert(t.subrange(0, e as int) =~= t);
    while e > 0 && white_space(s[e - 1])
        invariant
            e <= s.len(),
            t == s@,
            trim_end(t) == trim_end(t.subrange(0, e as int)),
        decreases e,
    {
        proof {
            let u = t.subrange(0, e as int);
            assert(u.last() == t[e - 1]);
            assert(u.drop_last() =~= t.subrange(0, e - 1));
        }
        e -= 1;
    }
    let ghost te = t.subrange(0, e as int);
    assert(trim_end(te) == te);
    let mut b: usize = 0;
    assert(te.subrange(0, e as int) =~= te);
    while b < e && white_space(s[b])
        invariant
            b <= e <= s.len(),
            t == s@,
            te == t.subrange(0, e as int),
            trim_start(te) == trim_start(t.subrange(b as int, e as int)),
        decreases e - b,
    {
        proof {
            let u = t.subrange(b as int, e as int);
            assert(u[0] == t[b as int]);
            assert(u.drop_first() =~= t.subrange(b + 1, e as int));
        }
        b += 1;
    }
    let ghost tr = t.subrange(b as int, e as int);
    assert(trim_start(tr) == tr);
    let mut k: usize = e;
    assert(t.subrange(e as int, e as int) =~= Seq::<char>::empty());
    assert(t.subrange(b as int, k as int) + t.subrange(k as int, e as int) =~= tr);
    while k > b && !ascii_space(s[k - 1])
        invariant
            b <= k <= e <= s.len(),
            t == s@,
            tr == t.subrange(b as int, e as int),
            last_word(tr) == last_word(t.subrange(b as int, k as int)) + t.subrange(k as int, e as int),
        decreases k - b,
    {
        proof {
            let u = t.subrange(b as int, k as int);
            assert(u.last() == t[k - 1]);
            assert(u.drop_last() =~= t.subrange(b as int, k - 1));
            assert(last_word(u) == last_word(u.drop_last()).push(t[k - 1]));
            assert(last_word(u.drop_last()).push(t[k - 1]) + t.subrange(k as int, e as int)
                =~= last_word(u.drop_last()) + t.subrange(k - 1, e as int));
        }
        k -= 1;
    }
    proof {
        let u = t.subrange(b as int, k as int);
        if k > b {
            assert(u.last() == t[k - 1]);
        }
        assert(last_word(u) =~= Seq::<char>::empty());
        assert(Seq::<char>::empty() + t.subrange(k as int, e as int) =~= t.subrange(k as int, e as int));
    }
    let mut res: Vec<char> = Vec::new();
    let mut i: usize = k;
    while i < e
        invariant
            k <= i <= e <= s.len(),
            t == s@,
            res@ == t.subrange(k as int, i as int),
        decreases e - i,
    {
        res.push(s[i]);
        i += 1;
        assert(res@ =~= t.subrange(k as int, i as int));
    }
    res
}

fn mask(data: &[u8], start: usize, nonce: &[u8]) -> (res: Vec<u8>)
    requires
        start <= data@.len(),
        nonce@.len() == NONCE_LEN,
    ensures
        res@ == masked(data@.skip(start as int), nonce@),
{
    let mut res: Vec<u8> = Vec::new();
    let mut i: usize = start;
    while i < data.len()
        invariant
            start <= i <= data@.len(),
            nonce@.len() == NONCE_LEN,
            res@ == masked(data@.skip(start as int), nonce@).take(i - start),
        decreases data.len() - i,
    {
        let j = i - start;
        res.push(data[i] ^ nonce[j % NONCE_LEN]);
        i += 1;
        assert(res@ =~= masked(data@.skip(start as int), nonce@).take(i - start));
    }
    assert(masked(data@.skip(start as int), nonce@).take(i - start) =~= masked(
        data@.skip(start as int),
        nonce@,
    ));
    res
}

/// The save text of the JSON document `json` under `nonce` (see
/// [`sealed_text`]); it is always written.
pub fn seal(json: &[u8], nonce: &[u8]) -> (res: Result<String, SaveDataError>)
    requires
        nonce@.len() == NONCE_LEN,
    ensures
        res is Ok,
        res matches Ok(t) ==> t@ == sealed_text(json@, nonce@),
{
    let z = match zlib_compress(json) {
        Ok(z) => z,
        Err(_) => {
            return Err(SaveDataError::Compression);
        },
    };
    let m = mask(z.as_slice(), 0, nonce);
    assert(z@.skip(0) =~= z@);
    let mut data: Vec<u8> = Vec::new();
    let mut i: usize = 0;
    while i < NONCE_LEN
        invariant
            i <= NONCE_LEN,
            nonce@.len() == NONCE_LEN,
            data@ == nonce@.take(i as int),
        decreases NONCE_LEN - i,
    {
        data.push(nonce[i]);
        i += 1;
        assert(data@ =~= nonce@.take(i as int));
    }
    let mut j: usize = 0;
    assert(nonce@.take(NONCE_LEN as int) =~= nonce@);
    while j < m.len()
        invariant
            j <= m.len(),
            data@ == nonce@ + m@.take(j as int),
        decreases m.len() - j,
    {
        data.push(m[j]);
        j += 1;
        assert(data@ =~= nonce@ + m@.take(j as int));
    }
    assert(m@.take(j as int) =~= m@);
    let text = base64_url_encode(data.as_slice());
    let mut out = "Do NOT share this data with anyone.\nIt contains a secret key to access your account on the server.\n\n".to_owned();
    out.append(text.as_str());
    Ok(out)
}

/// The JSON document that the save text `text` holds (see [`opened`]).
/// Reading what [`seal`] wrote, under any nonce, gives back the document.
pub fn open(text: &str) -> (res: Result<Vec<u8>, SaveDataError>)
    ensures
        match res {
            Ok(v) => opened(text@) == Ok::<Seq<u8>, SaveDataError>(v@),
            Err(e) => opened(text@) == Err::<Seq<u8>, SaveDataError>(e),
        },
        forall|json: Seq<u8>, nonce: Seq<u8>|
            nonce.len() == NONCE_LEN && text@ == #[trigger] sealed_text(json, nonce) ==> (res matches Ok(
                v,
            ) && v@ == json),
{
    let chars = chars_of(text);
    let word = data_word_exec(&chars);
    proof {
        assert forall|json: Seq<u8>, nonce: Seq<u8>|
            nonce.len() == NONCE_LEN && text@ == #[trigger] sealed_text(json, nonce) implies word@
            == base64_url(nonce + masked(zlib_deflate(json), nonce)) by {
            lemma_data_word_of_sealed(nonce + masked(zlib_deflate(json), nonce));
        }
    }
    let data = match base64_url_decode(&word) {
        Ok(d) => d,
        Err(_) => {
            return Err(SaveDataError::InvalidBase64);
        },
    };
    proof {
        let v = choose|v: Seq<u8>| base64_url(v) == word@;
        assert(base64_url(data@) == word@);
        assert(base64_url_bytes(word@) == Some(data@));
    }
    if data.len() < NONCE_LEN {
        proof {
            assert forall|json: Seq<u8>, nonce: Seq<u8>|
                nonce.len() == NONCE_LEN && text@ == #[trigger] sealed_text(json, nonce) implies false by {
                let d = nonce + masked(zlib_deflate(json), nonce);
                assert(data@ == d);
            }
        }
        return Err(SaveDataError::InvalidLength);
    }
    let mut nonce: Vec<u8> = Vec::new();
    let mut i: usize = 0;
    while i < NONCE_LEN
        invariant
            i <= NONCE_LEN <= data@.len(),
            nonce@ == data@.take(i as int),
        decreases NONCE_LEN - i,
    {
        nonce.push(data[i]);
        i += 1;
        assert(nonce@ =~= data@.take(i as int));
    }
    let body = mask(data.as_slice(), NONCE_LEN, nonce.as_slice());
    proof {
        assert(nonce@ == data@.take(NONCE_LEN as int));
        assert forall|json: Seq<u8>, n: Seq<u8>|
            n.len() == NONCE_LEN && text@ == #[trigger] sealed_text(json, n) implies body@
            == zlib_deflate(json) by {
            let z = zlib_deflate(json);
            let d = n + masked(z, n);
            assert(data@ == d);
            assert(d.take(NONCE_LEN as int) =~= n);
            assert(d.skip(NONCE_LEN as int) =~= masked(z, n));
            lemma_unmask(z, n);
        }
    }
    match zlib_decompress(body.as_slice()) {
        Ok(v) => Ok(v),
        Err(_) => Err(SaveDataError::Compression),
    }
}


proof fn lemma_symbol(v: int)
    requires
        0 <= v < 64,
    ensures
        !is_white_space(url_safe_symbol(v)),
        !is_ascii_space(url_safe_symbol(v)),
{
}

proof fn lemma_base64_chars(d: Seq<u8>)
    ensures
        forall|i: int|
            0 <= i < base64_url(d).len() ==> !is_white_space(#[trigger] base64_url(d)[i])
                && !is_ascii_space(base64_url(d)[i]),
        d.len() > 0 ==> base64_url(d).len() > 0,
    decreases d.len(),
{
    if d.len() == 0 {
    } else if d.len() == 1 {
        let a = d[0] as int;
        lemma_symbol(a / 4);
        lemma_symbol((a % 4) * 16);
    } else if d.len() == 2 {
        let a = d[0] as int;
        let b = d[1] as int;
        lemma_symbol(a / 4);
        lemma_symbol((a % 4) * 16 + b / 16);
        lemma_symbol((b % 16) * 4);
    } else {
        let a = d[0] as int;
        let b = d[1] as int;
        let c = d[2] as int;
        lemma_symbol(a / 4);
        lemma_symbol((a % 4) * 16 + b / 16);
        lemma_symbol((b % 16) * 4 + c / 64);
        lemma_symbol(c % 64);
        lemma_base64_chars(d.skip(3));
        let head = seq![
            url_safe_symbol(a / 4),
            url_safe_symbol((a % 4) * 16 + b / 16),
            url_safe_symbol((b % 16) * 4 + c / 64),
            url_safe_symbol(c % 64),
        ];
        let tail = base64_url(d.skip(3));
        assert(base64_url(d) == head + tail);
        assert forall|i: int| 0 <= i < base64_url(d).len() implies !is_white_space(#[trigger] base64_url(d)[i])
            && !is_ascii_space(base64_url(d)[i]) by {
            if i >= 4 {
                assert(base64_url(d)[i] == tail[i - 4]);
            }
        }
    }
}

proof fn lemma_last_word_after_space(x: Seq<char>, y: Seq<char>)
    requires
        x.len() > 0,
        is_ascii_space(x.last()),
        forall|i: int| 0 <= i < y.len() ==> !is_ascii_space(#[trigger] y[i]),
    ensures
        last_word(x + y) == y,
    decreases y.len(),
{
    if y.len() == 0 {
        assert(x + y =~= x);
    } else {
        let yd = y.drop_last();
        assert forall|i: int| 0 <= i < yd.len() implies !is_ascii_space(#[trigger] yd[i]) by {
            assert(yd[i] == y[i]);
        }
        lemma_last_word_after_space(x, yd);
        assert((x + y).drop_last() =~= x + yd);
        assert((x + y).last() == y[y.len() - 1]);
        assert(yd.push(y.last()) =~= y);
    }
}

/// In a save text, the data word is the base64 text after the notice.
proof fn lemma_data_word_of_sealed(d: Seq<u8>)
    requires
        d.len() > 0,
    ensures
        data_word(notice() + base64_url(d)) == base64_url(d),
{
    reveal_strlit("Do NOT share this data with anyone.\nIt contains a secret key to access your account on the server.\n\n");
    lemma_base64_chars(d);
    let b = base64_url(d);
    let s = notice() + b;
    assert(s.last() == b[b.len() - 1]);
    assert(trim_end(s) == s);
    assert(s[0] == notice()[0]);
    assert(trim_start(s) == s);
    lemma_last_word_after_space(notice(), b);
}

proof fn lemma_trim_end_after(x: Seq<char>, tail: Seq<char>)
    requires
        x.len() > 0,
        !is_white_space(x.last()),
        forall|i: int| 0 <= i < tail.len() ==> is_white_space(#[trigger] tail[i]),
    ensures
        trim_end(x + tail) == x,
    decreases tail.len(),
{
    if tail.len() == 0 {
        assert(x + tail =~= x);
    } else {
        let td = tail.drop_last();
        assert forall|i: int| 0 <= i < td.len() implies is_white_space(#[trigger] td[i]) by {
            assert(td[i] == tail[i]);
        }
        lemma_trim_end_after(x, td);
        assert((x + tail).drop_last() =~= x + td);
        assert((x + tail).last() == tail[tail.len() - 1]);
    }
}

/// `trim_start` drops exactly the leading whitespace: the first `k`
/// characters.
proof fn lemma_trim_start_skip(s: Seq<char>) -> (k: int)
    ensures
        0 <= k <= s.len(),
        trim_start(s) == s.skip(k),
        forall|i: int| 0 <= i < k ==> is_white_space(#[trigger] s[i]),
        k < s.len() ==> !is_white_space(s[k]),
    decreases s.len(),
{
    if s.len() > 0 && is_white_space(s[0]) {
        let r = s.drop_first();
        let k1 = lemma_trim_start_skip(r);
        assert(r.skip(k1) =~= s.skip(k1 + 1));
        assert forall|i: int| 0 <= i < k1 + 1 implies is_white_space(#[trigger] s[i]) by {
            if i > 0 {
                assert(s[i] == r[i - 1]);
            }
        }
        k1 + 1
    } else {
        assert(s.skip(0) =~= s);
        0
    }
}

proof fn lemma_last_word_whole(y: Seq<char>)
    requires
        forall|i: int| 0 <= i < y.len() ==> !is_ascii_space(#[trigger] y[i]),
    ensures
        last_word(y) == y,
    decreases y.len(),
{
    if y.len() > 0 {
        let yd = y.drop_last();
        assert forall|i: int| 0 <= i < yd.len() implies !is_ascii_space(#[trigger] yd[i]) by {
            assert(yd[i] == y[i]);
        }
        lemma_last_word_whole(yd);
        assert(yd.push(y.last()) =~= y);
    }
}

/// Only the last word of a save text is read: whatever header stands before
/// it on earlier lines, and whatever whitespace follows it, the text opens
/// as the word alone does. (The word holds no whitespace, so neither trim
/// can reach into it.)
pub proof fn lemma_header_ignored(header: Seq<char>, word: Seq<char>, tail: Seq<char>)
    requires
        word.len() > 0,
        forall|i: int| 0 <= i < word.len() ==> !is_white_space(#[trigger] word[i]),
        forall|i: int| 0 <= i < tail.len() ==> is_white_space(#[trigger] tail[i]),
    ensures
        opened(header + seq!['\n'] + word + tail) == opened(word),
{
    assert forall|i: int| 0 <= i < word.len() implies !is_ascii_space(#[trigger] word[i]) by {
        assert(!is_white_space(word[i]));
    }
    let h = header.len() as int;
    let m = header + seq!['\n'] + word;
    assert(m.last() == word[word.len() - 1]);
    lemma_trim_end_after(m, tail);
    let k = lemma_trim_start_skip(m);
    assert(m[h + 1] == word[0]);
    assert(m[h] == '\n');
    if k == h + 1 {
        assert(m.skip(k) =~= word);
    } else {
        assert(k <= h) by {
            if k > h + 1 {
                assert(is_white_space(m[h + 1]));
            }
        }
        let x = m.subrange(k, h + 1);
        assert(x.last() == '\n');
        assert(m.skip(k) =~= x + word);
        lemma_last_word_after_space(x, word);
    }
    lemma_last_word_whole(word);
    // The word read alone.
    assert(trim_end(word) == word) by {
        lemma_trim_end_after(word, Seq::<char>::empty());
        assert(word + Seq::<char>::empty() =~= word);
    }
    let k2 = lemma_trim_start_skip(word);
    assert(k2 == 0) by {
        if k2 > 0 {
            assert(is_white_space(word[0]));
        }
    }
    assert(word.skip(0) =~= word);
    assert(data_word(header + seq!['\n'] + word + tail) == data_word(word));
}

proof fn lemma_unmask(z: Seq<u8>, n: Seq<u8>)
    requires
        n.len() == NONCE_LEN,
    ensures
        masked(masked(z, n), n) == z,
{
    assert forall|i: int| 0 <= i < z.len() implies #[trigger] masked(masked(z, n), n)[i] == z[i] by {
        let a = z[i];
        let b = n[i % 4];
        assert((a ^ b) ^ b == a) by (bit_vector);
    }
    assert(masked(masked(z, n), n) =~= z);
}


// ---------------------------------------------------------------------------
// The document.
/// The key bytes that k256's schnorr `SigningKey::from_bytes` accepts for
/// `bytes`, as `to_bytes` gives them back; none where it refuses them.
pub uninterp spec fn schnorr_key(bytes: Seq<u8>) -> Option<Seq<u8>>;

/// k256's schnorr `SigningKey::from_bytes` followed by `to_bytes`. The key is
/// taken as a nonzero scalar below the group order and negated when its
/// public point has an odd y, so the bytes that come back are a key that
/// `from_bytes` keeps as it is.
#[verifier::external_body]
fn parse_signing_key(bytes: &[u8]) -> (res: Result<Vec<u8>, k256::schnorr::Error>)
    ensures
        res is Ok <==> schnorr_key(bytes@) is Some,
        res matches Ok(k) ==> schnorr_key(bytes@) == Some(k@),
        res matches Ok(k) ==> k@.len() == 32 && schnorr_key(k@) == Some(k@),
{
    match SigningKey::from_bytes(bytes) {
        Ok(key) => Ok(key.to_bytes().to_vec()),
        Err(e) => Err(e),
    }
}

/// k256's schnorr `SigningKey::random`, as `to_bytes` gives it, drawn from
/// rand's `StdRng` seeded by `SeedableRng::from_rng(OsRng)`: a random key
/// that `from_bytes` keeps as it is, or the error the operating system's
/// random source reports (neither call panics).
#[verifier::external_body]
fn random_signing_key() -> (res: Result<Vec<u8>, rand::Error>)
    ensures
        res matches Ok(k) ==> k@.len() == 32 && schnorr_key(k@) == Some(k@),
{
    let mut rng = <StdRng as SeedableRng>::from_rng(OsRng)?;
    Ok(SigningKey::random(&mut rng).to_bytes().to_vec())
}

/// The account key: the bytes of a schnorr signing key.
#[derive(Clone)]
pub struct Auth {
    private_key: Vec<u8>,
}

/// Why a stored account key could not be read.
#[derive(Debug, Clone, Copy, PartialEq, Eq, Structural)]
pub enum AuthError {
    /// The text is not base64.
    InvalidBase64,
    /// The bytes are not a signing key.
    InvalidKey,
}

/// The account key stored as `text`, if it holds one.
pub open spec fn key_from_text(text: Seq<char>) -> Option<Seq<u8>> {
    match base64_url_bytes(text) {
        Some(bytes) => schnorr_key(bytes),
        None => None,
    }
}

impl Auth {
    /// The key's bytes.
    pub closed spec fn key(&self) -> Seq<u8> {
        self.private_key@
    }

    /// A key is stored as `from_bytes` keeps it.
    pub open spec fn wf(&self) -> bool {
        schnorr_key(self.key()) == Some(self.key())
    }

    /// A fresh random account key; the one failure is a random source that
    /// gives nothing.
    pub fn generate() -> (res: Result<Auth, EntropyError>)
        ensures
            res matches Ok(a) ==> a.wf() && a.key().len() == 32,
            res matches Err(e) ==> e == EntropyError::Unavailable,
    {
        match random_signing_key() {
            Ok(k) => Ok(Auth { private_key: k }),
            Err(_) => Err(EntropyError::Unavailable),
        }
    }

    /// The key's bytes.
    pub fn key_bytes(&self) -> (res: Vec<u8>)
        ensures
            res@ == self.key(),
    {
        let mut res: Vec<u8> = Vec::new();
        let mut i: usize = 0;
        while i < self.private_key.len()
            invariant
                i <= self.private_key@.len(),
                res@ == self.private_key@.take(i as int),
            decreases self.private_key.len() - i,
        {
            res.push(self.private_key[i]);
            i += 1;
            assert(res@ =~= self.private_key@.take(i as int));
        }
        assert(self.private_key@.take(i as int) =~= self.private_key@);
        res
    }

    /// Whether two account keys are the same key.
    pub fn same_key(&self, other: &Auth) -> (res: bool)
        ensures
            res == (self.key() == other.key()),
    {
        if self.private_key.len() != other.private_key.len() {
            return false;
        }
        let mut i: usize = 0;
        while i < self.private_key.len()
            invariant
                i <= self.private_key@.len() == other.private_key@.len(),
                self.private_key@.take(i as int) == other.private_key@.take(i as int),
            decreases self.private_key.len() - i,
        {
            if self.private_key[i] != other.private_key[i] {
                assert(self.private_key@[i as int] != other.private_key@[i as int]);
                return false;
            }
            i += 1;
            assert(self.private_key@.take(i as int) =~= other.private_key@.take(i as int));
        }
        assert(self.private_key@ =~= self.private_key@.take(i as int));
        assert(other.private_key@ =~= other.private_key@.take(i as int));
        true
    }

    /// The key as it is stored: the URL-safe base64 text of its bytes.
    pub fn key_text(&self) -> (res: String)
        ensures
            res@ == base64_url(self.key()),
    {
        base64_url_encode(self.private_key.as_slice())
    }

    /// The key stored as `text` (see [`key_from_text`]): base64 that does
    /// not decode is refused first, then bytes that are not a key. Reading
    /// the text that [`Auth::key_text`] wrote gives back the same key.
    pub fn from_key_text(text: &str) -> (res: Result<Auth, AuthError>)
        ensures
            match res {
                Ok(a) => a.wf() && key_from_text(text@) == Some(a.key()),
                Err(AuthError::InvalidBase64) => base64_url_bytes(text@) is None,
                Err(AuthError::InvalidKey) => base64_url_bytes(text@) is Some && key_from_text(
                    text@,
                ) is None,
            },
            forall|k: Seq<u8>|
                schnorr_key(k) == Some(k) && text@ == #[trigger] base64_url(k) ==> (res matches Ok(a)
                    && a.key() == k),
    {
        let chars = chars_of(text);
        let bytes = match base64_url_decode(&chars) {
            Ok(b) => b,
            Err(_) => {
                return Err(AuthError::InvalidBase64);
            },
        };
        proof {
            let v = choose|v: Seq<u8>| base64_url(v) == chars@;
            assert(base64_url_bytes(text@) == Some(bytes@));
        }
        match parse_signing_key(bytes.as_slice()) {
            Ok(k) => Ok(Auth { private_key: k }),
            Err(_) => Err(AuthError::InvalidKey),
        }
    }
}

/// How many games the player has started.
#[derive(Debug, Clone, Copy, PartialEq, Eq, Structural)]
pub struct Statistics {
    pub games: u32,
}

impl Statistics {
    /// Counts one more game.
    pub fn record_game(&mut self)
        requires
            old(self).games < u32::MAX,
        ensures
            final(self).games == old(self).games + 1,
    {
        self.games = self.games + 1;
    }
}

impl Default for Statistics {
    fn default() -> (res: Statistics)
        ensures
            res.games == 0,
    {
        Statistics { games: 0 }
    }
}

/// The first version of the save document.
#[derive(Clone)]
pub struct SaveDataV1 {
    pub auth: Auth,
    pub statistics: Statistics,
}

impl SaveDataV1 {
    /// A new document: a fresh key and no games; the one failure is a
    /// random source that gives nothing.
    pub fn new() -> (res: Result<SaveDataV1, EntropyError>)
        ensures
            res matches Ok(d) ==> d.auth.wf() && d.auth.key().len() == 32 && d.statistics.games == 0,
            res matches Err(e) ==> e == EntropyError::Unavailable,
    {
        match Auth::generate() {
            Ok(auth) => Ok(SaveDataV1 { auth, statistics: Statistics { games: 0 } }),
            Err(e) => Err(e),
        }
    }
}

/// A save document, by version.
#[derive(Clone)]
pub enum SaveData {
    V1(SaveDataV1),
}

impl SaveData {
    /// Writes the JSON text `json` of a save document as a save text under
    /// four random bytes from the operating system (see [`sealed_text`]);
    /// the one failure is a random source that gives nothing.
    pub fn encode(json: &[u8]) -> (res: Result<String, SaveDataError>)
        ensures
            res matches Ok(t) ==> exists|nonce: Seq<u8>|
                nonce.len() == NONCE_LEN && t@ == #[trigger] sealed_text(json@, nonce),
            res matches Err(e) ==> e == SaveDataError::NoRandomness,
    {
        let nonce = match random_bytes(NONCE_LEN) {
            Ok(n) => n,
            Err(_) => {
                return Err(SaveDataError::NoRandomness);
            },
        };
        let res = seal(json, nonce.as_slice());
        proof {
            if res is Ok {
                assert(sealed_text(json@, nonce@) == res->Ok_0@);
            }
        }
        res
    }

    /// The JSON text of the save document in the save text `s` (see
    /// [`opened`]); what [`SaveData::encode`] wrote reads back as it was.
    pub fn decode(s: &str) -> (res: Result<Vec<u8>, SaveDataError>)
        ensures
            match res {
                Ok(v) => opened(s@) == Ok::<Seq<u8>, SaveDataError>(v@),
                Err(e) => opened(s@) == Err::<Seq<u8>, SaveDataError>(e),
            },
            forall|json: Seq<u8>, nonce: Seq<u8>|
                nonce.len() == NONCE_LEN && s@ == #[trigger] sealed_text(json, nonce) ==> (res matches Ok(
                    v,
                ) && v@ == json),
    {
        open(s)
    }
}

} // verus!

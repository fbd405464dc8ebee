use vstd::prelude::*;

use aes::cipher::{block_padding::ZeroPadding, BlockEncryptMut, KeyIvInit};
use base64::Engine;

use crate::text::{str_equal, string_append};

verus! {

// ---------------------------------------------------------------------------
// Settings and texts of the typing site
// ---------------------------------------------------------------------------

/// The account and client settings sent with each request to the typing site.
#[derive(Clone, Debug)]
pub struct JSSettings {
    pub ime: String,
    pub token: String,
    pub subversions: usize,
    pub version: String,
    pub from: String,
}

impl Default for JSSettings {
    fn default() -> (s: Self)
        ensures
            s.ime@ == "五笔字形"@,
            s.token@.len() == 0,
            s.subversions == 17108,
            s.version@ == "v2.1.6"@,
            s.from@ == "web"@,
    {
        JSSettings {
            ime: "五笔字形".to_owned(),
            token: String::new(),
            subversions: 17108,
            version: "v2.1.6".to_owned(),
            from: "web".to_owned(),
        }
    }
}

/// Which text to fetch: a random one or the text of the day.
#[derive(PartialEq, Eq, Structural, Clone, Copy, Debug)]
pub enum JSAction {
    Random,
    Daily,
    /// No text (the engine refuses to fetch).
    Unset,
}

/// `str::to_lowercase`: the lowercase form of a string.
pub uninterp spec fn lowercase(s: Seq<char>) -> Seq<char>;

/// `str::to_lowercase`: each character mapped to its Unicode lowercase form.
#[verifier::external_body]
fn to_lowercase(s: &str) -> (r: String)
    ensures
        r@ == lowercase(s@),
{
    s.to_lowercase()
}

/// The message for an action name that is neither `random` nor `daily`.
pub open spec fn action_error(s: Seq<char>) -> Seq<char> {
    "无效的 js-action: "@ + s + "，应为 random 或 daily"@
}

impl JSAction {
    /// The action named `s`, whatever its case: `random` or `daily`.
    pub fn parse(s: &str) -> (r: Result<JSAction, String>)
        ensures
            match r {
                Ok(a) => (lowercase(s@) == "random"@ && a == JSAction::Random) || (lowercase(s@)
                    == "daily"@ && lowercase(s@) != "random"@ && a == JSAction::Daily),
                Err(m) => lowercase(s@) != "random"@ && lowercase(s@) != "daily"@ && m@
                    == action_error(s@),
            },
    {
        let low = to_lowercase(s);
        if str_equal(low.as_str(), "random") {
            Ok(JSAction::Random)
        } else if str_equal(low.as_str(), "daily") {
            Ok(JSAction::Daily)
        } else {
            let mut m = "无效的 js-action: ".to_owned();
            string_append(&mut m, s);
            string_append(&mut m, "，应为 random 或 daily");
            Err(m)
        }
    }
}

impl std::str::FromStr for JSAction {
    type Err = String;

    fn from_str(s: &str) -> (r: Result<Self, Self::Err>)
        ensures
            match r {
                Ok(a) => (lowercase(s@) == "random"@ && a == JSAction::Random) || (lowercase(s@)
                    == "daily"@ && lowercase(s@) != "random"@ && a == JSAction::Daily),
                Err(m) => lowercase(s@) != "random"@ && lowercase(s@) != "daily"@ && m@
                    == action_error(s@),
            },
    {
        JSAction::parse(s)
    }
}

/// A text fetched from the site: its title and content.
#[derive(Clone, Debug)]
pub struct JSContent {
    pub title: String,
    pub content: String,
}

// ---------------------------------------------------------------------------
// Reading the site's reply
// ---------------------------------------------------------------------------

/// What the site's reply says, as plain values: its `error` field as an integer, then
/// the strings at `msg.a_name`, `msg.name`, `msg.a_content` and `msg.content` (each
/// `None` when absent or not a string).
pub type ReplyView = (Option<i64>, Option<Seq<char>>, Option<Seq<char>>, Option<Seq<char>>, Option<Seq<char>>);

/// What `serde_json::from_str::<serde_json::Value>` reads from a reply body, taken apart
/// as `ReplyView` says (`Value::as_i64` for `error`, `Value::as_str` for the strings),
/// or serde_json's message when the body is not JSON.
pub uninterp spec fn site_reply(body: Seq<char>) -> Result<ReplyView, Seq<char>>;

/// A string, if any, as plain characters.
pub open spec fn opt_view(o: Option<String>) -> Option<Seq<char>> {
    match o {
        Some(s) => Some(s@),
        None => None,
    }
}

/// `serde_json::from_str::<serde_json::Value>` of a reply body, then the `error` field
/// as an integer and the four strings under `msg`; on a parse error, its message.
#[verifier::external_body]
fn parse_site_reply(body: &str) -> (r: Result<
    (Option<i64>, Option<String>, Option<String>, Option<String>, Option<String>),
    String,
>)
    ensures
        match r {
            Ok(t) => site_reply(body@) == Ok::<ReplyView, Seq<char>>(
                (t.0, opt_view(t.1), opt_view(t.2), opt_view(t.3), opt_view(t.4)),
            ),
            Err(m) => site_reply(body@) == Err::<ReplyView, Seq<char>>(m@),
        },
{
    let v: serde_json::Value = match serde_json::from_str(body) {
        Ok(v) => v,
        Err(e) => return Err(e.to_string()),
    };
    let m = &v["msg"];
    Ok((
        v["error"].as_i64(),
        m["a_name"].as_str().map(String::from),
        m["name"].as_str().map(String::from),
        m["a_content"].as_str().map(String::from),
        m["content"].as_str().map(String::from),
    ))
}

/// The first of two strings that is there, else the empty text.
pub open spec fn first_of(a: Option<Seq<char>>, b: Option<Seq<char>>) -> Seq<char> {
    match a {
        Some(s) => s,
        None => match b {
            Some(s) => s,
            None => Seq::empty(),
        },
    }
}

/// The error of a reply whose `error` field is not 0.
pub open spec fn api_error() -> Seq<char> {
    "JS bridge API 错误: API 返回非零错误码"@
}

/// The error of a reply that is not JSON, with serde_json's message `m`.
pub open spec fn json_error(m: Seq<char>) -> Seq<char> {
    "JS bridge JSON 解析错误: "@ + m
}

/// The text a reply gives, as `(title, content)`: an error unless its `error` field is
/// 0; the title is `a_name`, else `name`, else empty; the content is `a_content`,
/// else `content`, else empty.
pub open spec fn reply_content(t: ReplyView) -> Result<(Seq<char>, Seq<char>), Seq<char>> {
    if t.0 != Some(0i64) {
        Err(api_error())
    } else {
        Ok((first_of(t.1, t.2), first_of(t.3, t.4)))
    }
}

/// A fetched text, or its error, as plain characters.
pub open spec fn content_view(r: Result<JSContent, String>) -> Result<(Seq<char>, Seq<char>), Seq<char>> {
    match r {
        Ok(c) => Ok((c.title@, c.content@)),
        Err(m) => Err(m@),
    }
}

/// The first of two strings that is there, else an empty one.
fn first_string(a: Option<String>, b: Option<String>) -> (r: String)
    ensures
        r@ == first_of(opt_view(a), opt_view(b)),
{
    match a {
        Some(s) => s,
        None => match b {
            Some(s) => s,
            None => String::new(),
        },
    }
}

/// The text that a reply's fields give (see `reply_content`).
pub fn content_of_reply(
    error: Option<i64>,
    a_name: Option<String>,
    name: Option<String>,
    a_content: Option<String>,
    content: Option<String>,
) -> (r: Result<JSContent, String>)
    ensures
        content_view(r) == reply_content(
            (error, opt_view(a_name), opt_view(name), opt_view(a_content), opt_view(content)),
        ),
{
    let ok = match error {
        Some(e) => e == 0,
        None => false,
    };
    if !ok {
        return Err("JS bridge API 错误: API 返回非零错误码".to_owned());
    }
    let title = first_string(a_name, name);
    let content = first_string(a_content, content);
    Ok(JSContent { title, content })
}

/// The text of a reply body: the reply's fields as `content_of_reply` reads them, or a
/// JSON error carrying serde_json's message.
pub fn content_of_response(body: &str) -> (r: Result<JSContent, String>)
    ensures
        match site_reply(body@) {
            Ok(t) => content_view(r) == reply_content(t),
            Err(m) => content_view(r) == Err::<(Seq<char>, Seq<char>), Seq<char>>(json_error(m)),
        },
{
    match parse_site_reply(body) {
        Ok(t) => content_of_reply(t.0, t.1, t.2, t.3, t.4),
        Err(m) => {
            let mut s = "JS bridge JSON 解析错误: ".to_owned();
            string_append(&mut s, m.as_str());
            Err(s)
        },
    }
}

// ---------------------------------------------------------------------------
// Encrypting a request body
// ---------------------------------------------------------------------------

/// The site's key and initial vector.
pub open spec fn site_key() -> Seq<u8> {
    "c9ec834c80f77237"@.map_values(|c: char| c as u8)
}

/// `n` rounded up to a multiple of 16.
pub open spec fn round16(n: int) -> int {
    (n + 15) / 16 * 16
}

/// AES-128 in CBC mode, with `key` and `iv`, of `msg` padded with zero bytes to whole
/// blocks.
pub uninterp spec fn aes128_cbc_zero(key: Seq<u8>, iv: Seq<u8>, msg: Seq<u8>) -> Seq<u8>;

/// `cbc::Encryptor::<aes::Aes128>::encrypt_padded_mut::<ZeroPadding>`: encrypts the
/// first `msg_len` bytes of `buf`, padded with zeros to whole blocks, in place; the
/// ciphertext fills those blocks. It fails only when `buf` cannot hold them.
#[verifier::external_body]
fn aes128_cbc_encrypt(key: &[u8; 16], iv: &[u8; 16], mut buf: Vec<u8>, msg_len: usize) -> (r: Vec<u8>)
    requires
        msg_len <= buf@.len(),
        round16(msg_len as int) <= buf@.len(),
    ensures
        r@ == aes128_cbc_zero(key@, iv@, buf@.subrange(0, msg_len as int)),
        r@.len() == round16(msg_len as int),
{
    let out = cbc::Encryptor::<aes::Aes128>::new(key.into(), iv.into())
        .encrypt_padded_mut::<ZeroPadding>(&mut buf, msg_len)
        .unwrap();
    out.to_vec()
}

/// The standard base64 alphabet.
pub open spec fn b64_alphabet() -> Seq<char> {
    "ABCDEFGHIJKLMNOPQRSTUVWXYZabcdefghijklmnopqrstuvwxyz0123456789+/"@
}

pub open spec fn b64_char(v: int) -> char {
    b64_alphabet()[v]
}

/// Standard base64 with `=` padding: each three bytes become four characters.
pub open spec fn base64(b: Seq<u8>) -> Seq<char>
    decreases b.len(),
{
    if b.len() == 0 {
        Seq::empty()
    } else {
        let b0 = b[0] as int;
        let b1 = if b.len() > 1 {
            b[1] as int
        } else {
            0
        };
        let b2 = if b.len() > 2 {
            b[2] as int
        } else {
            0
        };
        let c0 = b64_char(b0 / 4);
        let c1 = b64_char((b0 % 4) * 16 + b1 / 16);
        let c2 = b64_char((b1 % 16) * 4 + b2 / 64);
        let c3 = b64_char(b2 % 64);
        if b.len() == 1 {
            seq![c0, c1, '=', '=']
        } else if b.len() == 2 {
            seq![c0, c1, c2, '=']
        } else {
            seq![c0, c1, c2, c3] + base64(b.subrange(3, b.len() as int))
        }
    }
}

/// `base64::engine::general_purpose::STANDARD.encode`: standard base64 with padding.
#[verifier::external_body]
fn base64_encode(bytes: &[u8]) -> (r: String)
    requires
        bytes@.len() / 3 * 4 + 4 <= usize::MAX,
    ensures
        r@ == base64(bytes@),
{
    base64::engine::general_purpose::STANDARD.encode(bytes)
}

/// The request body as the site expects it: its UTF-8 bytes padded with zeros to
/// whole blocks, encrypted with AES-128-CBC under the site's key and vector, and
/// written in base64.
pub fn encrypt(body: String) -> (r: String)
    requires
        vstd::utf8::encode_utf8(body@).len() + 15 <= usize::MAX,
        round16(vstd::utf8::encode_utf8(body@).len() as int) / 3 * 4 + 4 <= usize::MAX,
    ensures
        r@ == base64(aes128_cbc_zero(site_key(), site_key_iv(), vstd::utf8::encode_utf8(body@))),
{
    let key: [u8; 16] = [
        0x63, 0x39, 0x65, 0x63, 0x38, 0x33, 0x34, 0x63, 0x38, 0x30, 0x66, 0x37, 0x37, 0x32, 0x33, 0x37,
    ];
    let iv: [u8; 16] = [
        0x64, 0x62, 0x34, 0x64, 0x36, 0x62, 0x66, 0x64, 0x65, 0x33, 0x30, 0x35, 0x37, 0x64, 0x63, 0x61,
    ];
    proof {
        assert(key@ =~= site_key()) by {
            reveal_strlit("c9ec834c80f77237");
        }
        assert(iv@ =~= site_key_iv()) by {
            reveal_strlit("db4d6bfde3057dca");
        }
    }
    let bytes = body.as_str().as_bytes();
    let n = bytes.len();
    let padded_len = (n + 15) / 16 * 16;
    let mut buf: Vec<u8> = Vec::new();
    let mut i: usize = 0;
    while i < padded_len
        invariant
            i <= padded_len,
            n == bytes@.len(),
            padded_len == round16(n as int),
            buf@.len() == i,
            forall|k: int| 0 <= k < i ==> #[trigger] buf@[k] == (if k < n {
                bytes@[k]
            } else {
                0u8
            }),
        decreases padded_len - i,
    {
        if i < n {
            buf.push(bytes[i]);
        } else {
            buf.push(0u8);
        }
        i += 1;
    }
    assert(n <= padded_len);
    assert(buf@.subrange(0, n as int) =~= bytes@);
    let cipher = aes128_cbc_encrypt(&key, &iv, buf, n);
    base64_encode(cipher.as_slice())
}

/// The site's initial vector.
pub open spec fn site_key_iv() -> Seq<u8> {
    "db4d6bfde3057dca"@.map_values(|c: char| c as u8)
}

} // verus!

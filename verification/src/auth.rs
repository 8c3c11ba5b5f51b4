//! Who a caller is.
//!
//! A signed token proves its tenant without a database: the tenant travels in
//! the token, and an HMAC proves that the control plane issued it.
//!
//! ```text
//! acme.7b1f…                 <- tenant, then a SHA-256 HMAC of it, hex
//! ```
//!
//! No expiry, no revocation list, no refresh: rotating the secret invalidates
//! every token at once, which is the whole of the revocation story.
use crate::text::chars_of;
use crate::text::copy_range;
use crate::text::hex_string;
use crate::text::hex_text;
use crate::text::is_hex;
use crate::text::is_white_space;
use crate::text::last_of;
use crate::text::law_hex_round_trips;
use crate::text::lemma_hex_text;
use crate::text::lemma_last_of;
use crate::text::lemma_last_of_unique;
use crate::text::lemma_trim_none;
use crate::text::rfind;
use crate::text::string_of;
use crate::text::trim;
use crate::text::trim_chars;
use crate::text::trimmed;
use crate::text::unhex_bytes;
use crate::text::unhex_chars;
use ring::hmac;
use vstd::prelude::*;
use vstd::string::StringExecFns;
use vstd::utf8::encode_utf8;

verus! {

/// Bound on a tenant id. It is a map key in four different stores.
pub const MAX_TENANT_BYTES: usize = 64;

/// The environment variable that turns verification on.
pub const SECRET_ENV: &'static str = "NEBULA_AUTH_SECRET";

/// The HMAC-SHA256 tag of a message under a secret.
pub uninterp spec fn hmac_sha256(secret: Seq<u8>, message: Seq<u8>) -> Seq<u8>;

/// `ring::hmac::sign` under a key made of `secret`: the tag is a function of
/// the secret and the message alone, and takes thirty-two bytes. Inputs whose
/// length in bits does not fit sixty-four bits would panic.
#[verifier::external_body]
fn sign(secret: &[u8], message: &[u8]) -> (tag: Vec<u8>)
    requires
        secret@.len() < 0x1000_0000_0000_0000,
        message@.len() < 0x1000_0000_0000_0000,
    ensures
        tag@ == hmac_sha256(secret@, message@),
        tag@.len() == 32,
{
    let key = hmac::Key::new(hmac::HMAC_SHA256, secret);
    hmac::sign(&key, message).as_ref().to_vec()
}

/// `ring::hmac::verify` under a key made of `secret`: succeeds exactly on the
/// tag that signing the message gives, which takes thirty-two bytes, and
/// compares in constant time.
#[verifier::external_body]
fn verify(secret: &[u8], message: &[u8], tag: &[u8]) -> (ok: bool)
    requires
        secret@.len() < 0x1000_0000_0000_0000,
        message@.len() < 0x1000_0000_0000_0000,
    ensures
        ok == (tag@ == hmac_sha256(secret@, message@)),
        ok ==> tag@.len() == 32,
{
    let key = hmac::Key::new(hmac::HMAC_SHA256, secret);
    hmac::verify(&key, message, tag).is_ok()
}

/// How the gateway decides who is calling.
pub enum Auth {
    /// **Development only.** The bearer token is taken as the tenant id, so
    /// any caller can be any tenant.
    Insecure,
    /// Tokens must carry a valid HMAC over the tenant id, under this secret.
    Signed(Vec<u8>),
}

pub open spec fn is_tenant_char(c: char) -> bool {
    ('a' <= c && c <= 'z') || ('A' <= c && c <= 'Z') || ('0' <= c && c <= '9') || c == '-' || c == '_'
}

/// Alphanumerics, dash and underscore only, and not too many of them.
///
/// The charset is not cosmetic: a tenant id is the part of the token before
/// the separator, so forbidding `.` is what makes the split unambiguous.
pub open spec fn valid_tenant(tenant: Seq<char>) -> bool {
    &&& 0 < tenant.len() <= MAX_TENANT_BYTES
    &&& forall|i: int| 0 <= i < tenant.len() ==> is_tenant_char(#[trigger] tenant[i])
}

/// The token that a secret issues to a tenant.
pub open spec fn token_of(secret: Seq<u8>, tenant: Seq<char>) -> Seq<char> {
    tenant + "."@ + hex_text(hmac_sha256(secret, encode_utf8(tenant)))
}

/// Whether a token ends in a separator and sixty-four hexadecimal characters.
pub open spec fn ends_in_tag(token: Seq<char>) -> bool {
    &&& token.len() >= 65
    &&& token[token.len() - 65] == '.'
    &&& forall|k: int| token.len() - 64 <= k < token.len() ==> is_hex(#[trigger] token[k])
}

impl Auth {
    pub open spec fn wf(&self) -> bool {
        self matches Auth::Signed(secret) ==> secret@.len() < 0x1000_0000_0000_0000
    }

    /// The tenant that `token` proves, if any.
    pub open spec fn proves(&self, token: Seq<char>) -> Option<Seq<char>> {
        let token = trim(token);
        match self {
            Auth::Insecure => if valid_tenant(token) {
                Some(token)
            } else {
                None
            },
            Auth::Signed(secret) => {
                let dot = last_of(token, '.');
                let tenant = token.take(dot);
                if dot >= 0 && valid_tenant(tenant) && unhex_bytes(token.skip(dot + 1)) == Some(
                    hmac_sha256(secret@, encode_utf8(tenant)),
                ) {
                    Some(tenant)
                } else {
                    None
                }
            },
        }
    }

    /// The mode that a configured secret asks for: none, or a blank one,
    /// leaves verification off.
    pub fn from_secret(secret: Option<&str>) -> (out: Self)
        requires
            secret matches Some(s) ==> encode_utf8(trim(s@)).len() < 0x1000_0000_0000_0000,
        ensures
            out.wf(),
            match secret {
                Some(s) if trim(s@).len() > 0 => (out matches Auth::Signed(key) && key@
                    == encode_utf8(trim(s@))),
                _ => out is Insecure,
            },
    {
        match secret {
            Some(s) => {
                let key = trimmed(s);
                if key.as_str().is_empty() {
                    Auth::Insecure
                } else {
                    Auth::signed(key.as_str().as_bytes())
                }
            },
            None => Auth::Insecure,
        }
    }

    pub fn signed(secret: &[u8]) -> (out: Self)
        requires
            secret@.len() < 0x1000_0000_0000_0000,
        ensures
            out.wf(),
            out matches Auth::Signed(key) && key@ == secret@,
    {
        Auth::Signed(vstd::slice::slice_to_vec(secret))
    }

    pub fn is_enforcing(&self) -> (out: bool)
        ensures
            out == (self is Signed),
    {
        matches!(self, Auth::Signed(_))
    }

    /// Issues a token for `tenant`.
    ///
    /// `None` under [`Auth::Insecure`]: a token that nothing verifies would be
    /// a credential-shaped string that is not a credential.
    pub fn mint(&self, tenant: &str) -> (out: Option<String>)
        requires
            self.wf(),
        ensures
            match (*self, out) {
                (Auth::Signed(secret), Some(token)) => valid_tenant(tenant@) && token@ == token_of(
                    secret@,
                    tenant@,
                ),
                (Auth::Signed(_), None) => !valid_tenant(tenant@),
                (Auth::Insecure, _) => out is None,
            },
            out matches Some(token) ==> ends_in_tag(token@),
    {
        match self {
            Auth::Insecure => None,
            Auth::Signed(secret) => {
                if !is_valid_tenant(tenant) {
                    return None;
                }
                proof {
                    lemma_tenant_bytes(tenant@);
                }
                let tag = sign(secret, tenant.as_bytes());
                let mut token = tenant.to_owned();
                token.append(".");
                token.append(hex(&tag).as_str());
                proof {
                    reveal_strlit(".");
                    lemma_hex_text(tag@);
                    assert forall|k: int| token@.len() - 64 <= k < token@.len() implies is_hex(
                        #[trigger] token@[k],
                    ) by {
                        assert(token@[k] == hex_text(tag@)[k - tenant@.len() - 1]);
                    }
                }
                Some(token)
            },
        }
    }

    /// The tenant this token proves, if any.
    pub fn tenant_of(&self, token: &str) -> (out: Option<String>)
        requires
            self.wf(),
        ensures
            match out {
                Some(tenant) => self.proves(token@) == Some(tenant@),
                None => self.proves(token@) is None,
            },
            self is Signed && out is Some ==> ends_in_tag(trim(token@)),
    {
        let chars = chars_of(token);
        let token = trim_chars(&chars);
        match self {
            Auth::Insecure => {
                if valid_tenant_chars(&token) {
                    Some(string_of(&token))
                } else {
                    None
                }
            },
            Auth::Signed(secret) => {
                let dot: usize = match rfind(&token, '.') {
                    Some(at) => at,
                    None => {
                        return None;
                    },
                };
                let tenant = copy_range(&token, 0, dot);
                let len: usize = token.len();
                let signature = copy_range(&token, dot + 1, len);
                if !valid_tenant_chars(&tenant) {
                    return None;
                }
                proof {
                    lemma_tenant_bytes(tenant@);
                }
                let name = string_of(&tenant);
                match unhex_chars(&signature) {
                    Some(tag) => {
                        if verify(secret, name.as_str().as_bytes(), &tag) {
                            proof {
                                lemma_last_of(token@, '.');
                                assert(signature@.len() == 64);
                                assert forall|k: int| len - 64 <= k < len implies is_hex(
                                    #[trigger] token@[k],
                                ) by {
                                    assert(token@[k] == signature@[k - dot - 1]);
                                }
                            }
                            Some(name)
                        } else {
                            None
                        }
                    },
                    None => None,
                }
            },
        }
    }
}

fn valid_tenant_chars(chars: &[char]) -> (out: bool)
    ensures
        out == valid_tenant(chars@),
{
    if chars.len() == 0 || chars.len() > MAX_TENANT_BYTES {
        return false;
    }
    let mut i: usize = 0;
    while i < chars.len()
        invariant
            i <= chars@.len(),
            forall|k: int| 0 <= k < i ==> is_tenant_char(#[trigger] chars@[k]),
        decreases chars@.len() - i,
    {
        let c = chars[i];
        if !(('a' <= c && c <= 'z') || ('A' <= c && c <= 'Z') || ('0' <= c && c <= '9') || c == '-'
            || c == '_') {
            return false;
        }
        i += 1;
    }
    true
}

/// Whether `tenant` may name a tenant.
pub fn is_valid_tenant(tenant: &str) -> (out: bool)
    ensures
        out == valid_tenant(tenant@),
{
    let chars = chars_of(tenant);
    valid_tenant_chars(&chars)
}

/// `bytes` as lower-case hexadecimal.
pub fn hex(bytes: &[u8]) -> (out: String)
    ensures
        out@ == hex_text(bytes@),
{
    hex_string(bytes)
}

/// The bytes that `value` spells in hexadecimal, if it does.
pub fn unhex(value: &str) -> (out: Option<Vec<u8>>)
    ensures
        match out {
            Some(bytes) => unhex_bytes(value@) == Some(bytes@),
            None => unhex_bytes(value@) is None,
        },
{
    let chars = chars_of(value);
    unhex_chars(&chars)
}

/// A tenant id takes one byte per character.
proof fn lemma_tenant_bytes(tenant: Seq<char>)
    requires
        valid_tenant(tenant),
    ensures
        encode_utf8(tenant).len() == tenant.len(),
{
    assert forall|i: int| 0 <= i < tenant.len() implies '\0' <= #[trigger] tenant[i] && tenant[i]
        <= '\u{7f}' by {
        assert(is_tenant_char(tenant[i]));
    }
    crate::text::lemma_ascii_len(tenant);
}

proof fn lemma_token_split(tenant: Seq<char>, tag: Seq<u8>)
    requires
        valid_tenant(tenant),
    ensures
        ({
            let token = tenant + "."@ + hex_text(tag);
            &&& trim(token) == token
            &&& last_of(token, '.') == tenant.len()
            &&& token.take(tenant.len() as int) == tenant
            &&& token.skip(tenant.len() as int + 1) == hex_text(tag)
        }),
{
    reveal_strlit(".");
    let token = tenant + "."@ + hex_text(tag);
    lemma_hex_text(tag);
    assert(is_tenant_char(tenant[0]));
    assert(token[0] == tenant[0]);
    assert(!is_white_space(token.last())) by {
        if hex_text(tag).len() > 0 {
            assert(token.last() == hex_text(tag)[hex_text(tag).len() - 1]);
        }
    }
    lemma_trim_none(token);
    assert forall|i: int| tenant.len() < i < token.len() implies token[i] != '.' by {
        assert(token[i] == hex_text(tag)[i - tenant.len() - 1]);
    }
    lemma_last_of_unique(token, '.', tenant.len() as int);
    assert(token.take(tenant.len() as int) =~= tenant);
    assert(token.skip(tenant.len() as int + 1) =~= hex_text(tag));
}

/// A minted token names its tenant back.
pub proof fn law_a_minted_token_names_its_tenant(secret: Vec<u8>, tenant: Seq<char>)
    requires
        valid_tenant(tenant),
    ensures
        Auth::Signed(secret).proves(token_of(secret@, tenant)) == Some(tenant),
{
    let tag = hmac_sha256(secret@, encode_utf8(tenant));
    lemma_token_split(tenant, tag);
    law_hex_round_trips(tag);
}

/// Moving another tenant's name in front of a signature proves nothing, unless
/// the two names have the same tag.
pub proof fn law_a_token_cannot_be_edited_into_another(
    secret: Vec<u8>,
    tenant: Seq<char>,
    other: Seq<char>,
)
    requires
        valid_tenant(other),
    ensures
        hmac_sha256(secret@, encode_utf8(tenant)) != hmac_sha256(secret@, encode_utf8(other))
            ==> Auth::Signed(secret).proves(
            other + "."@ + hex_text(hmac_sha256(secret@, encode_utf8(tenant))),
        ) is None,
{
    let tag = hmac_sha256(secret@, encode_utf8(tenant));
    lemma_token_split(other, tag);
    law_hex_round_trips(tag);
}

/// A token minted under one secret proves nothing under another, unless both
/// give the tenant the same tag.
pub proof fn law_rotating_the_secret_revokes(secret: Vec<u8>, rotated: Vec<u8>, tenant: Seq<char>)
    requires
        valid_tenant(tenant),
    ensures
        hmac_sha256(secret@, encode_utf8(tenant)) != hmac_sha256(rotated@, encode_utf8(tenant))
            ==> Auth::Signed(rotated).proves(token_of(secret@, tenant)) is None,
{
    let tag = hmac_sha256(secret@, encode_utf8(tenant));
    lemma_token_split(tenant, tag);
    law_hex_round_trips(tag);
}

/// Whoever a token proves is a valid tenant, whether or not it is signed.
pub proof fn law_only_valid_tenants_are_proved(auth: Auth, token: Seq<char>)
    ensures
        auth.proves(token) matches Some(tenant) ==> valid_tenant(tenant),
{
}

/// A tenant's name is one to sixty-four letters, digits, dashes and underscores.
pub proof fn law_a_tenant_is_named_by_these(tenant: Seq<char>)
    ensures
        valid_tenant(tenant) <==> tenant.len() > 0 && tenant.len() <= 64 && forall|i: int|
            0 <= i < tenant.len() ==> {
                let n = #[trigger] tenant[i] as int;
                97 <= n <= 122 || 65 <= n <= 90 || 48 <= n <= 57 || n == 45 || n == 95
            },
{
    if valid_tenant(tenant) {
        assert forall|i: int| 0 <= i < tenant.len() implies {
            let n = #[trigger] tenant[i] as int;
            97 <= n <= 122 || 65 <= n <= 90 || 48 <= n <= 57 || n == 45 || n == 95
        } by {
            assert(is_tenant_char(tenant[i]));
        }
    }
}

/// A token proves a tenant only by that tenant's tag under the secret: without the
/// blanks around it, it is the tenant's whole name, a dot, and the tag in
/// hexadecimal digits of either case.
pub proof fn law_only_the_tag_proves_a_tenant(secret: Vec<u8>, token: Seq<char>)
    ensures
        Auth::Signed(secret).proves(token) matches Some(tenant) ==> {
            let whole = trim(token);
            let digits = whole.skip(tenant.len() as int + 1);
            &&& valid_tenant(tenant)
            &&& whole == tenant + seq!['.'] + digits
            &&& unhex_bytes(digits) == Some(hmac_sha256(secret@, encode_utf8(tenant)))
        },
{
    let whole = trim(token);
    lemma_last_of(whole, '.');
    if let Some(tenant) = Auth::Signed(secret).proves(token) {
        assert(whole =~= tenant + seq!['.'] + whole.skip(tenant.len() as int + 1));
    }
}

/// Whatever spells the tag in hexadecimal digits behind a tenant's name and a dot
/// proves that tenant.
pub proof fn law_the_tag_proves_its_tenant(
    secret: Vec<u8>,
    tenant: Seq<char>,
    digits: Seq<char>,
)
    requires
        valid_tenant(tenant),
        digits.len() > 0,
        unhex_bytes(digits) == Some(hmac_sha256(secret@, encode_utf8(tenant))),
    ensures
        Auth::Signed(secret).proves(tenant + seq!['.'] + digits) == Some(tenant),
{
    let token = tenant + seq!['.'] + digits;
    assert(is_tenant_char(tenant[0]));
    assert(is_hex(digits[digits.len() - 1]));
    assert(token[0] == tenant[0]);
    assert(token.last() == digits.last());
    lemma_trim_none(token);
    assert forall|i: int| tenant.len() < i < token.len() implies token[i] != '.' by {
        assert(token[i] == digits[i - tenant.len() - 1]);
        assert(is_hex(digits[i - tenant.len() - 1]));
    }
    assert(token[tenant.len() as int] == '.');
    lemma_last_of_unique(token, '.', tenant.len() as int);
    assert(token.take(tenant.len() as int) =~= tenant);
    assert(token.skip(tenant.len() as int + 1) =~= digits);
}

/// Without a secret the token, without the blanks around it, is the tenant, if it
/// can name one.
pub proof fn law_without_a_secret_the_token_is_the_tenant(token: Seq<char>)
    ensures
        valid_tenant(trim(token)) ==> Auth::Insecure.proves(token) == Some(trim(token)),
        !valid_tenant(trim(token)) ==> Auth::Insecure.proves(token) is None,
{
}

/// A token is the tenant's whole name, a dot, and the tag in hexadecimal digits.
pub proof fn law_a_token_is_the_name_and_its_tag(secret: Seq<u8>, tenant: Seq<char>)
    ensures
        token_of(secret, tenant) == tenant + seq!['.'] + hex_text(
            hmac_sha256(secret, encode_utf8(tenant)),
        ),
{
    reveal_strlit(".");
    assert("."@ =~= seq!['.']);
}

} // verus!

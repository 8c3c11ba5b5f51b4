//! Mutual TLS for the mesh: which material there is, and how peers are named.
//!
//! All three files, or none. A half-configured mesh reads as secure and is not,
//! so it is an error rather than a downgrade.
use crate::text::chars_of;
use crate::text::copy_range;
use crate::text::string_of;
use vstd::prelude::*;
use vstd::string::StringExecFns;

verus! {

/// The name every mesh certificate is issued for, and the name every client
/// verifies against.
pub const MESH_NAME: &'static str = "nebula-mesh";

pub const CA_ENV: &'static str = "NEBULA_TLS_CA";

pub const CERT_ENV: &'static str = "NEBULA_TLS_CERT";

pub const KEY_ENV: &'static str = "NEBULA_TLS_KEY";

/// PEM material for one node.
pub struct MeshTls {
    ca: Vec<u8>,
    cert: Vec<u8>,
    key: Vec<u8>,
}

pub struct MeshView {
    pub ca: Seq<u8>,
    pub cert: Seq<u8>,
    pub key: Seq<u8>,
}

impl View for MeshTls {
    type V = MeshView;

    closed spec fn view(&self) -> MeshView {
        MeshView { ca: self.ca@, cert: self.cert@, key: self.key@ }
    }
}

pub enum TlsError {
    /// Some of the three variables were set and some were not.
    Partial(&'static str),
    /// A file could not be read: its path, and why.
    Io(String, String),
}

impl TlsError {
    pub open spec fn spec_message(self) -> Seq<char> {
        match self {
            TlsError::Partial(missing) => "mesh TLS is half configured: "@ + missing@
                + " is not set. Set NEBULA_TLS_CA, NEBULA_TLS_CERT and NEBULA_TLS_KEY together, or none of them"@,
            TlsError::Io(path, why) => "reading "@ + path@ + ": "@ + why@,
        }
    }

    pub fn message(&self) -> (out: String)
        ensures
            out@ == self.spec_message(),
    {
        match self {
            TlsError::Partial(missing) => {
                let mut out = String::from_str("mesh TLS is half configured: ");
                out.append(*missing);
                out.append(
                    " is not set. Set NEBULA_TLS_CA, NEBULA_TLS_CERT and NEBULA_TLS_KEY together, or none of them",
                );
                out
            },
            TlsError::Io(path, why) => {
                let mut out = String::from_str("reading ");
                out.append(path.as_str());
                out.append(": ");
                out.append(why.as_str());
                out
            },
        }
    }
}

impl MeshTls {
    /// PEM bytes directly.
    pub fn from_pem(ca: Vec<u8>, cert: Vec<u8>, key: Vec<u8>) -> (out: Self)
        ensures
            out@ == (MeshView { ca: ca@, cert: cert@, key: key@ }),
    {
        MeshTls { ca, cert, key }
    }

    /// The certificate that peers must be signed by.
    pub fn ca(&self) -> (out: &Vec<u8>)
        ensures
            out@ == self@.ca,
    {
        &self.ca
    }

    /// This node's certificate.
    pub fn cert(&self) -> (out: &Vec<u8>)
        ensures
            out@ == self@.cert,
    {
        &self.cert
    }

    /// This node's private key.
    pub fn key(&self) -> (out: &Vec<u8>)
        ensures
            out@ == self@.key,
    {
        &self.key
    }
}

/// All three paths, or none; the first one that is missing otherwise.
pub fn mesh_paths<P>(ca: Option<P>, cert: Option<P>, key: Option<P>) -> (out: Result<
    Option<(P, P, P)>,
    TlsError,
>)
    ensures
        match (ca, cert, key) {
            (None, None, None) => out == Ok::<Option<(P, P, P)>, TlsError>(None),
            (Some(a), Some(b), Some(c)) => out == Ok::<Option<(P, P, P)>, TlsError>(Some((a, b, c))),
            (None, _, _) => out == Err::<Option<(P, P, P)>, TlsError>(TlsError::Partial(CA_ENV)),
            (_, None, _) => out == Err::<Option<(P, P, P)>, TlsError>(TlsError::Partial(CERT_ENV)),
            (_, _, None) => out == Err::<Option<(P, P, P)>, TlsError>(TlsError::Partial(KEY_ENV)),
        },
{
    match (ca, cert, key) {
        (None, None, None) => Ok(None),
        (Some(a), Some(b), Some(c)) => Ok(Some((a, b, c))),
        (None, _, _) => Err(TlsError::Partial(CA_ENV)),
        (_, None, _) => Err(TlsError::Partial(CERT_ENV)),
        (_, _, None) => Err(TlsError::Partial(KEY_ENV)),
    }
}

/// Whether `://` stands at `at`.
pub open spec fn is_scheme_end(s: Seq<char>, at: int) -> bool {
    0 <= at && at + 3 <= s.len() && s[at] == ':' && s[at + 1] == '/' && s[at + 2] == '/'
}

/// What follows the first `://`, or everything when there is none.
pub open spec fn after_scheme(s: Seq<char>, from: int) -> Seq<char>
    decreases s.len() - from,
{
    if from < 0 || from >= s.len() {
        s
    } else if is_scheme_end(s, from) {
        s.skip(from + 3)
    } else {
        after_scheme(s, from + 1)
    }
}

/// Where a peer is dialled.
pub open spec fn endpoint_of(address: Seq<char>, tls: bool) -> Seq<char> {
    (if tls {
        "https://"@
    } else {
        "http://"@
    }) + after_scheme(address, 0)
}

/// `https://` when the mesh is encrypted, `http://` when it is not. An address
/// that carries a scheme already has it replaced rather than doubled.
pub fn endpoint(address: &str, tls: bool) -> (out: String)
    ensures
        out@ == endpoint_of(address@, tls),
        out@ == (if tls {
            "https"@
        } else {
            "http"@
        }) + "://"@ + after_scheme(address@, 0),
{
    let chars = chars_of(address);
    let size: usize = chars.len();
    let mut from: usize = 0;
    let mut found: Option<usize> = None;
    while from < size
        invariant_except_break
            found is None,
            after_scheme(chars@, from as int) == after_scheme(chars@, 0),
        invariant
            from <= size,
            size == chars@.len(),
        ensures
            match found {
                Some(at) => at + 3 <= size && after_scheme(chars@, 0) == chars@.skip(at + 3),
                None => after_scheme(chars@, 0) == chars@,
            },
        decreases size - from,
    {
        if size - from >= 3 && chars[from] == ':' && chars[from + 1] == '/' && chars[from + 2] == '/' {
            found = Some(from);
            break;
        }
        from += 1;
    }
    let mut out = String::from_str(
        if tls {
            "https"
        } else {
            "http"
        },
    );
    out.append("://");
    match found {
        Some(at) => {
            let rest = copy_range(&chars, at + 3, size);
            assert(rest@ =~= chars@.skip(at + 3));
            out.append(string_of(&rest).as_str());
        },
        None => {
            out.append(address);
        },
    }
    proof {
        reveal_strlit("https");
        reveal_strlit("http");
        reveal_strlit("://");
        reveal_strlit("https://");
        reveal_strlit("http://");
        assert("https"@ + "://"@ =~= "https://"@);
        assert("http"@ + "://"@ =~= "http://"@);
    }
    out
}

/// An address loses the scheme that it carries, all up to the first `://` and that,
/// and keeps the rest; one that carries none keeps all of itself.
pub proof fn law_only_the_scheme_is_replaced(s: Seq<char>, from: int, at: int)
    requires
        0 <= from <= at <= s.len(),
        forall|k: int|
            from <= k < at && k + 3 <= s.len() ==> #[trigger] s.subrange(k, k + 3) != seq![
                ':',
                '/',
                '/',
            ],
        at + 3 <= s.len() ==> s.subrange(at, at + 3) == seq![':', '/', '/'],
        at + 3 > s.len() ==> at == s.len(),
    ensures
        at + 3 <= s.len() ==> after_scheme(s, from) == s.skip(at + 3),
        at == s.len() ==> after_scheme(s, from) == s,
    decreases at - from,
{
    let mark = seq![':', '/', '/'];
    if from + 3 <= s.len() {
        let here = s.subrange(from, from + 3);
        assert(here[0] == s[from] && here[1] == s[from + 1] && here[2] == s[from + 2]);
        assert(here =~= mark <==> is_scheme_end(s, from));
    }
    if from < at {
        law_only_the_scheme_is_replaced(s, from + 1, at);
    }
}

/// A half-configured mesh is told what is missing, and a file that cannot be read is
/// told with its path and the reason, in full.
pub proof fn law_what_is_missing_is_named(error: TlsError)
    ensures
        error matches TlsError::Partial(missing) ==> crate::text::holds_part(
            error.spec_message(),
            missing@,
        ),
        error matches TlsError::Io(path, why) ==> error.spec_message() == "reading "@ + path@
            + ": "@ + why@,
{
    if let TlsError::Partial(missing) = error {
        crate::text::lemma_holds_part(
            "mesh TLS is half configured: "@,
            missing@,
            " is not set. Set NEBULA_TLS_CA, NEBULA_TLS_CERT and NEBULA_TLS_KEY together, or none of them"@,
        );
    }
}

/// A peer is dialled under the scheme of the mesh and at all of its address; one
/// without a scheme of its own keeps every character.
#[verifier::rlimit(40)]
pub proof fn law_a_peer_is_dialled_at_all_of_its_address(address: Seq<char>, tls: bool)
    requires
        forall|k: int|
            0 <= k && k + 3 <= address.len() ==> #[trigger] address.subrange(k, k + 3) != seq![
                ':',
                '/',
                '/',
            ],
    ensures
        endpoint_of(address, tls) == (if tls {
            "https://"@
        } else {
            "http://"@
        }) + address,
        endpoint_of("http://"@ + address, tls) == endpoint_of(address, tls),
        endpoint_of("https://"@ + address, tls) == endpoint_of(address, tls),
{
    reveal_strlit("http://");
    reveal_strlit("https://");
    law_only_the_scheme_is_replaced(address, 0, address.len() as int);
    let plain = "http://"@ + address;
    assert forall|k: int| 0 <= k < 4 && k + 3 <= plain.len() implies #[trigger] plain.subrange(
        k,
        k + 3,
    ) != seq![':', '/', '/'] by {
        assert(plain.subrange(k, k + 3)[0] == plain[k]);
        assert(seq![':', '/', '/'][0] == ':');
    }
    assert(plain.subrange(4, 7) =~= seq![':', '/', '/']);
    law_only_the_scheme_is_replaced(plain, 0, 4);
    assert(plain.skip(7) =~= address);
    let safe = "https://"@ + address;
    assert forall|k: int| 0 <= k < 5 && k + 3 <= safe.len() implies #[trigger] safe.subrange(
        k,
        k + 3,
    ) != seq![':', '/', '/'] by {
        assert(safe.subrange(k, k + 3)[0] == safe[k]);
        assert(seq![':', '/', '/'][0] == ':');
    }
    assert(safe.subrange(5, 8) =~= seq![':', '/', '/']);
    law_only_the_scheme_is_replaced(safe, 0, 5);
    assert(safe.skip(8) =~= address);
}

} // verus!

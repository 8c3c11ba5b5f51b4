//! Outbound HTTP, on a leash.
//!
//! Off by default: with no allowlist configured, every call is refused.
//!
//! 1. An allowlist, never a denylist.
//! 2. Resolve first, then check the resolved address: a hostname proves
//!    nothing.
//! 3. Connect to the address that was checked, never to the name again.
//! 4. Every resolved address must pass.
//! 5. No redirects. The response is handed back as it is.
//! 6. Time comes out of the request budget, never on top of it.
use crate::table::Table;
use crate::text::chars_of;
use crate::text::copy_range;
use crate::text::first_of;
use crate::text::has_char;
use crate::text::is_listed;
use crate::text::is_white_space;
use crate::text::is_white_space_char;
use crate::text::last_of;
use crate::text::lemma_first_of;
use crate::text::lower_chars;
use crate::text::names;
use crate::text::parse_number;
use crate::text::parse_unsigned;
use crate::text::rfind;
use crate::text::split;
use crate::text::split_chars;
use crate::text::starts_with;
use crate::text::string_of;
use crate::text::texts;
use crate::text::to_lower;
use crate::text::trim;
use crate::text::trim_chars;
use crate::text::views;
use vstd::prelude::*;
use vstd::string::StringExecFns;
use vstd::utf8::encode_utf8;

verus! {

/// Cap on a fetched response: 1 MiB, as for a request body.
pub const MAX_RESPONSE_BYTES: usize = 0x10_0000;

/// Cap on a url.
pub const MAX_URL_BYTES: usize = 2048;

/// The environment variable that holds the shared allowlist.
pub const ALLOW_ENV: &'static str = "NEBULA_EGRESS_ALLOW";

/// Hosts an operator has decided guests may reach. Empty means egress is off.
///
/// A tenant with a list of its own is held to that list; every other tenant is
/// held to the shared one.
pub struct Policy {
    hosts: Vec<String>,
    tenants: Table<Vec<String>>,
    allow_private: bool,
}

#[verifier::ext_equal]
pub struct PolicyView {
    pub hosts: Seq<Seq<char>>,
    /// By the bytes of the tenant's name.
    pub tenants: Map<Seq<u8>, Seq<Seq<char>>>,
    pub allow_private: bool,
}

/// One entry of an allowlist as it is compared: trimmed, in lower case.
pub open spec fn entry(host: Seq<char>) -> Seq<char> {
    to_lower(trim(host))
}

/// The entries that are not blank.
pub open spec fn listed(hosts: Seq<Seq<char>>) -> Seq<Seq<char>>
    decreases hosts.len(),
{
    if hosts.len() == 0 {
        Seq::empty()
    } else {
        let rest = listed(hosts.drop_last());
        let last = entry(hosts.last());
        if last.len() > 0 {
            rest.push(last)
        } else {
            rest
        }
    }
}

impl PolicyView {
    /// The list that `tenant` is held to.
    pub open spec fn list(self, tenant: Seq<char>) -> Seq<Seq<char>> {
        if self.tenants.contains_key(encode_utf8(tenant)) {
            self.tenants[encode_utf8(tenant)]
        } else {
            self.hosts
        }
    }

    pub open spec fn allows_for(self, tenant: Seq<char>, host: Seq<char>) -> bool {
        self.list(tenant).contains(entry(host))
    }

    pub open spec fn closed() -> PolicyView {
        PolicyView { hosts: Seq::empty(), tenants: Map::empty(), allow_private: false }
    }
}

impl View for Policy {
    type V = PolicyView;

    closed spec fn view(&self) -> PolicyView {
        PolicyView {
            hosts: texts(self.hosts@),
            tenants: self.tenants@.map_values(|list: Vec<String>| texts(list@)),
            allow_private: self.allow_private,
        }
    }
}

impl Default for Policy {
    /// Egress is off until an operator turns it on.
    fn default() -> (out: Self)
        ensures
            out.wf(),
            out@ == PolicyView::closed(),
    {
        let out = Policy { hosts: Vec::new(), tenants: Table::new(), allow_private: false };
        assert(out@ =~= PolicyView::closed());
        out
    }
}

fn list_of(hosts: &[&str]) -> (out: Vec<String>)
    ensures
        texts(out@) == listed(names(hosts@)),
{
    let mut out: Vec<String> = Vec::new();
    let mut i: usize = 0;
    assert(texts(out@) =~= listed(names(hosts@).take(0)));
    while i < hosts.len()
        invariant
            i <= hosts@.len(),
            texts(out@) == listed(names(hosts@).take(i as int)),
        decreases hosts@.len() - i,
    {
        let ghost done = texts(out@);
        proof {
            let now = names(hosts@).take(i as int + 1);
            assert(now.drop_last() =~= names(hosts@).take(i as int));
            assert(now.last() == hosts@[i as int]@);
        }
        let chars = chars_of(hosts[i]);
        let trimmed = trim_chars(&chars);
        let host = lower_chars(&trimmed);
        if host.len() > 0 {
            out.push(string_of(&host));
            assert(texts(out@) =~= done.push(host@));
        }
        i += 1;
    }
    assert(names(hosts@).take(i as int) =~= names(hosts@));
    out
}

impl Policy {
    pub closed spec fn wf(&self) -> bool {
        self.tenants.wf()
    }

    /// Case-insensitive, and no wildcards: `*.example.com` would be a decision
    /// about subdomains that nobody has made.
    pub fn new(hosts: &[&str]) -> (out: Self)
        ensures
            out.wf(),
            out@ == (PolicyView { hosts: listed(names(hosts@)), ..PolicyView::closed() }),
    {
        let out = Policy { hosts: list_of(hosts), tenants: Table::new(), allow_private: false };
        assert(out@ =~= (PolicyView { hosts: listed(names(hosts@)), ..PolicyView::closed() }));
        out
    }

    /// Reads a comma-separated host list. An absent or blank one leaves egress
    /// off.
    pub fn from_setting(setting: Option<&str>) -> (out: Self)
        ensures
            out.wf(),
            match setting {
                Some(raw) => out@ == (PolicyView {
                    hosts: listed(split(raw@, ',')),
                    ..PolicyView::closed()
                }),
                None => out@ == PolicyView::closed(),
            },
    {
        let raw = match setting {
            Some(raw) => raw,
            None => {
                return Policy::default();
            },
        };
        let chars = chars_of(raw);
        let fields = split_chars(&chars, ',');
        let ghost hosts = split(raw@, ',');
        let mut out: Vec<String> = Vec::new();
        let mut i: usize = 0;
        assert(texts(out@) =~= listed(hosts.take(0)));
        assert(views(fields@).len() == fields@.len());
        while i < fields.len()
            invariant
                i <= fields@.len(),
                hosts == views(fields@),
                hosts.len() == fields@.len(),
                texts(out@) == listed(hosts.take(i as int)),
            decreases fields@.len() - i,
        {
            let ghost done = texts(out@);
            proof {
                let now = hosts.take(i as int + 1);
                assert(now.drop_last() =~= hosts.take(i as int));
                assert(now.last() == fields@[i as int]@);
            }
            let trimmed = trim_chars(&fields[i]);
            let host = lower_chars(&trimmed);
            if host.len() > 0 {
                out.push(string_of(&host));
                assert(texts(out@) =~= done.push(host@));
            }
            i += 1;
        }
        assert(hosts.take(i as int) =~= hosts);
        let out = Policy { hosts: out, tenants: Table::new(), allow_private: false };
        assert(out@ =~= (PolicyView { hosts: listed(hosts), ..PolicyView::closed() }));
        out
    }

    /// Gives `tenant` a list of its own, in place of any it had.
    pub fn for_tenant(self, tenant: &str, hosts: &[&str]) -> (out: Self)
        requires
            self.wf(),
        ensures
            out.wf(),
            out@ == (PolicyView {
                tenants: self@.tenants.insert(encode_utf8(tenant@), listed(names(hosts@))),
                ..self@
            }),
    {
        let Policy { hosts: shared, mut tenants, allow_private } = self;
        let key = vstd::slice::slice_to_vec(tenant.as_bytes());
        let list = list_of(hosts);
        tenants.put(key, list);
        let out = Policy { hosts: shared, tenants, allow_private };
        assert(out@ =~= (PolicyView {
            tenants: self@.tenants.insert(encode_utf8(tenant@), listed(names(hosts@))),
            ..self@
        }));
        out
    }

    /// Permits allowlisted hosts that resolve inside the network.
    ///
    /// This relaxes where an allowed host may resolve to, and nothing else.
    pub fn allow_private_addresses(self) -> (out: Self)
        requires
            self.wf(),
        ensures
            out.wf(),
            out@ == (PolicyView { allow_private: true, ..self@ }),
    {
        Policy { hosts: self.hosts, tenants: self.tenants, allow_private: true }
    }

    fn list(&self, tenant: &str) -> (out: &Vec<String>)
        requires
            self.wf(),
        ensures
            texts(out@) == self@.list(tenant@),
    {
        match self.tenants.get(tenant.as_bytes()) {
            Some(own) => own,
            None => &self.hosts,
        }
    }

    /// Whether the shared list holds anything.
    pub fn is_enabled(&self) -> (out: bool)
        ensures
            out == (self@.hosts.len() > 0),
    {
        self.hosts.len() > 0
    }

    /// Whether `tenant` may reach anything at all.
    pub fn is_enabled_for(&self, tenant: &str) -> (out: bool)
        requires
            self.wf(),
        ensures
            out == (self@.list(tenant@).len() > 0),
    {
        self.list(tenant).len() > 0
    }

    /// Whether the shared list holds `host`. A suffix is not a match.
    pub fn allows(&self, host: &str) -> (out: bool)
        ensures
            out == self@.hosts.contains(entry(host@)),
    {
        let chars = chars_of(host);
        let trimmed = trim_chars(&chars);
        let host = string_of(&lower_chars(&trimmed));
        is_listed(&self.hosts, host.as_str())
    }

    /// Whether the list that `tenant` is held to holds `host`.
    pub fn allows_for(&self, tenant: &str, host: &str) -> (out: bool)
        requires
            self.wf(),
        ensures
            out == self@.allows_for(tenant@, host@),
    {
        let chars = chars_of(host);
        let trimmed = trim_chars(&chars);
        let host = string_of(&lower_chars(&trimmed));
        is_listed(self.list(tenant), host.as_str())
    }
}

/// Why a fetch did not happen, or did not finish.
#[derive(Clone, Copy, PartialEq, Eq, Structural, Debug)]
pub enum Refusal {
    /// No allowlist configured. The default.
    Disabled,
    /// Not `http://…`, or unparseable.
    BadUrl,
    /// `https://`. Named separately because it is the one refusal a caller is
    /// most likely to hit and least likely to guess.
    Tls,
    /// The host is not on the allowlist.
    HostNotAllowed,
    /// DNS returned nothing.
    Unresolvable,
    /// DNS returned an address inside the infrastructure.
    PrivateAddress,
    /// The request budget ran out.
    Timeout,
    /// Connection failed, or the peer went away.
    Io,
    /// The response exceeded [`MAX_RESPONSE_BYTES`].
    TooLarge,
}

impl Refusal {
    pub open spec fn spec_message(self) -> Seq<char> {
        match self {
            Refusal::Disabled => "outbound HTTP is disabled on this cluster"@,
            Refusal::BadUrl => "not a valid http:// url"@,
            Refusal::Tls => "https is not supported; only plain http"@,
            Refusal::HostNotAllowed => "host is not on the egress allowlist"@,
            Refusal::Unresolvable => "host did not resolve"@,
            Refusal::PrivateAddress => "host resolved to a non-public address"@,
            Refusal::Timeout => "the request budget ran out"@,
            Refusal::Io => "the connection failed"@,
            Refusal::TooLarge => "the response exceeded the size cap"@,
        }
    }

    pub fn message(self) -> (out: &'static str)
        ensures
            out@ == self.spec_message(),
    {
        match self {
            Refusal::Disabled => "outbound HTTP is disabled on this cluster",
            Refusal::BadUrl => "not a valid http:// url",
            Refusal::Tls => "https is not supported; only plain http",
            Refusal::HostNotAllowed => "host is not on the egress allowlist",
            Refusal::Unresolvable => "host did not resolve",
            Refusal::PrivateAddress => "host resolved to a non-public address",
            Refusal::Timeout => "the request budget ran out",
            Refusal::Io => "the connection failed",
            Refusal::TooLarge => "the response exceeded the size cap",
        }
    }
}

/// A parsed `http://host[:port]/path`.
pub struct Target {
    pub host: String,
    pub port: u16,
    pub path: String,
}

pub struct TargetView {
    pub host: Seq<char>,
    pub port: u16,
    pub path: Seq<char>,
}

impl View for Target {
    type V = TargetView;

    open spec fn view(&self) -> TargetView {
        TargetView { host: self.host@, port: self.port, path: self.path@ }
    }
}

/// What follows the scheme, if the url has the one that is supported.
pub open spec fn after_scheme(url: Seq<char>) -> Option<Seq<char>> {
    if "http://"@.is_prefix_of(url) || "HTTP://"@.is_prefix_of(url) {
        Some(url.skip(7))
    } else {
        None
    }
}

/// A name to resolve: something, and no white space in it.
pub open spec fn is_host(host: Seq<char>) -> bool {
    &&& host.len() > 0
    &&& forall|i: int| 0 <= i < host.len() ==> !is_white_space(#[trigger] host[i])
}

/// The host and the port of an authority: the part after the last colon is the
/// port, and 80 is the default.
pub open spec fn host_and_port(authority: Seq<char>) -> Option<(Seq<char>, u16)> {
    let colon = last_of(authority, ':');
    let host = if colon < 0 {
        authority
    } else {
        authority.take(colon)
    };
    let port = if colon < 0 {
        Some(80nat)
    } else {
        parse_unsigned(authority.skip(colon + 1), 65535)
    };
    if port is Some && is_host(host) {
        Some((host, port->0 as u16))
    } else {
        None
    }
}

/// What a url asks for.
pub open spec fn parsed(raw: Seq<char>) -> Result<TargetView, Refusal> {
    let url = trim(raw);
    if encode_utf8(url).len() > MAX_URL_BYTES {
        Err(Refusal::BadUrl)
    } else if "https://"@.is_prefix_of(to_lower(url)) {
        Err(Refusal::Tls)
    } else {
        match after_scheme(url) {
            None => Err(Refusal::BadUrl),
            Some(rest) => {
                let slash = first_of(rest, '/');
                let authority = rest.take(slash);
                // A name before an `@` is what a reader sees and not what a
                // resolver would be asked, so there is none.
                if authority.contains('@') || authority.len() == 0 {
                    Err(Refusal::BadUrl)
                } else {
                    match host_and_port(authority) {
                        None => Err(Refusal::BadUrl),
                        Some(place) => Ok(
                            TargetView {
                                host: place.0,
                                port: place.1,
                                path: if slash < rest.len() {
                                    rest.skip(slash)
                                } else {
                                    "/"@
                                },
                            },
                        ),
                    }
                }
            },
        }
    }
}

fn is_host_name(chars: &[char]) -> (out: bool)
    ensures
        out == is_host(chars@),
{
    if chars.len() == 0 {
        return false;
    }
    let mut i: usize = 0;
    while i < chars.len()
        invariant
            i <= chars@.len(),
            forall|k: int| 0 <= k < i ==> !is_white_space(#[trigger] chars@[k]),
        decreases chars@.len() - i,
    {
        if is_white_space_char(chars[i]) {
            return false;
        }
        i += 1;
    }
    true
}

fn place_of(authority: &[char]) -> (out: Option<(String, u16)>)
    ensures
        match out {
            Some(place) => host_and_port(authority@) == Some((place.0@, place.1)),
            None => host_and_port(authority@) is None,
        },
{
    let (host, port) = match rfind(authority, ':') {
        Some(colon) => {
            let len: usize = authority.len();
            let digits = copy_range(authority, colon + 1, len);
            let host = copy_range(authority, 0, colon);
            assert(digits@ =~= authority@.skip(colon + 1));
            assert(host@ =~= authority@.take(colon as int));
            match parse_number(&digits, 65535) {
                Some(port) => (host, port as u16),
                None => {
                    return None;
                },
            }
        },
        None => {
            let len: usize = authority.len();
            let host = copy_range(authority, 0, len);
            assert(host@ =~= authority@);
            (host, 80u16)
        },
    };
    if !is_host_name(&host) {
        return None;
    }
    Some((string_of(&host), port))
}

/// Reads a url.
pub fn parse(url: &str) -> (out: Result<Target, Refusal>)
    ensures
        match out {
            Ok(target) => parsed(url@) == Ok::<TargetView, Refusal>(target@),
            Err(why) => parsed(url@) == Err::<TargetView, Refusal>(why),
        },
{
    proof {
        reveal_strlit("http://");
        reveal_strlit("HTTP://");
    }
    let chars = chars_of(url);
    let chars = trim_chars(&chars);
    let text = string_of(&chars);
    if text.as_str().as_bytes().len() > MAX_URL_BYTES {
        return Err(Refusal::BadUrl);
    }
    let folded = lower_chars(&chars);
    if starts_with(&folded, "https://") {
        return Err(Refusal::Tls);
    }
    if !starts_with(&chars, "http://") && !starts_with(&chars, "HTTP://") {
        return Err(Refusal::BadUrl);
    }
    let len: usize = chars.len();
    let rest = copy_range(&chars, 7, len);
    assert(rest@ =~= trim(url@).skip(7));
    let slash: usize = crate::text::find(&rest, '/');
    proof {
        lemma_first_of(rest@, '/');
    }
    let authority = copy_range(&rest, 0, slash);
    assert(authority@ =~= rest@.take(slash as int));
    if has_char(&authority, '@') || authority.len() == 0 {
        return Err(Refusal::BadUrl);
    }
    let (host, port) = match place_of(&authority) {
        Some(place) => place,
        None => {
            return Err(Refusal::BadUrl);
        },
    };
    let size: usize = rest.len();
    let path = if slash < size {
        let path = copy_range(&rest, slash, size);
        assert(path@ =~= rest@.skip(slash as int));
        string_of(&path)
    } else {
        String::from_str("/")
    };
    Ok(Target { host, port, path })
}

/// An address, as its numbers.
#[derive(Clone, Copy, PartialEq, Eq, Structural, Debug)]
pub enum Ip {
    V4(u8, u8, u8, u8),
    V6(u16, u16, u16, u16, u16, u16, u16, u16),
}

/// Whether a version 4 address is out on the public internet.
pub open spec fn public_v4(a: u8, b: u8, c: u8, d: u8) -> bool {
    // Loopback.
    &&& a != 127
    // Private use.
    &&& a != 10
    &&& !(a == 172 && 16 <= b < 32)
    &&& !(a == 192 && b == 168)
    // Link local, which is where cloud metadata is served.
    &&& !(a == 169 && b == 254)
    // Documentation.
    &&& !(a == 192 && b == 0 && c == 2)
    &&& !(a == 198 && b == 51 && c == 100)
    &&& !(a == 203 && b == 0 && c == 113)
    // Carrier-grade translation.
    &&& !(a == 100 && 64 <= b < 128)
    // "This network".
    &&& a != 0
    // Protocol assignments.
    &&& !(a == 192 && b == 0 && c == 0)
    // Multicast, reserved, broadcast.
    &&& a < 224
}

impl Ip {
    /// Whether the address is out on the public internet.
    pub open spec fn spec_is_public(self) -> bool {
        match self {
            Ip::V4(a, b, c, d) => public_v4(a, b, c, d),
            Ip::V6(a, b, c, d, e, f, g, h) => {
                if a == 0 && b == 0 && c == 0 && d == 0 && e == 0 && f == 0xffff {
                    // A version 4 address in another notation.
                    public_v4((g / 256) as u8, (g % 256) as u8, (h / 256) as u8, (h % 256) as u8)
                } else {
                    // Unspecified and loopback.
                    &&& !(a == 0 && b == 0 && c == 0 && d == 0 && e == 0 && f == 0 && g == 0 && h <= 1)
                    // Unique local.
                    &&& !(0xfc00 <= a <= 0xfdff)
                    // Link local.
                    &&& !(0xfe80 <= a <= 0xfebf)
                    // Multicast.
                    &&& a < 0xff00
                }
            },
        }
    }
}

fn is_public_v4(a: u8, b: u8, c: u8, d: u8) -> (out: bool)
    ensures
        out == public_v4(a, b, c, d),
{
    !(a == 127 || a == 10 || (a == 172 && 16 <= b && b < 32) || (a == 192 && b == 168) || (a == 169
        && b == 254) || (a == 192 && b == 0 && c == 2) || (a == 198 && b == 51 && c == 100) || (a
        == 203 && b == 0 && c == 113) || (a == 100 && 64 <= b && b < 128) || a == 0 || (a == 192
        && b == 0 && c == 0) || a >= 224)
}

/// Whether an address is out on the public internet.
pub fn is_public(ip: Ip) -> (out: bool)
    ensures
        out == ip.spec_is_public(),
{
    match ip {
        Ip::V4(a, b, c, d) => is_public_v4(a, b, c, d),
        Ip::V6(a, b, c, d, e, f, g, h) => {
            if a == 0 && b == 0 && c == 0 && d == 0 && e == 0 && f == 0xffff {
                is_public_v4((g / 256) as u8, (g % 256) as u8, (h / 256) as u8, (h % 256) as u8)
            } else {
                !((a == 0 && b == 0 && c == 0 && d == 0 && e == 0 && f == 0 && g == 0 && h <= 1)
                    || (0xfc00 <= a && a <= 0xfdff) || (0xfe80 <= a && a <= 0xfebf) || a >= 0xff00)
            }
        },
    }
}

/// Every address, not the first that passes.
pub open spec fn all_public(addresses: Seq<Ip>) -> bool {
    forall|i: int| 0 <= i < addresses.len() ==> (#[trigger] addresses[i]).spec_is_public()
}

fn are_public(addresses: &[Ip]) -> (out: bool)
    ensures
        out == all_public(addresses@),
{
    let mut i: usize = 0;
    while i < addresses.len()
        invariant
            i <= addresses@.len(),
            forall|k: int| 0 <= k < i ==> (#[trigger] addresses@[k]).spec_is_public(),
        decreases addresses@.len() - i,
    {
        if !is_public(addresses[i]) {
            return false;
        }
        i += 1;
    }
    true
}

/// What kind of trouble a socket reported.
#[derive(Clone, Copy, PartialEq, Eq, Structural, Debug)]
pub enum Trouble {
    TimedOut,
    WouldBlock,
    Interrupted,
    Other,
}

pub open spec fn spec_classify(trouble: Trouble) -> Refusal {
    match trouble {
        Trouble::TimedOut | Trouble::WouldBlock => Refusal::Timeout,
        Trouble::Interrupted | Trouble::Other => Refusal::Io,
    }
}

pub fn classify(trouble: Trouble) -> (out: Refusal)
    ensures
        out == spec_classify(trouble),
{
    match trouble {
        Trouble::TimedOut | Trouble::WouldBlock => Refusal::Timeout,
        Trouble::Interrupted | Trouble::Other => Refusal::Io,
    }
}

/// The request that goes out.
pub open spec fn request_text(target: TargetView, version: Seq<char>) -> Seq<char> {
    "GET "@ + target.path + " HTTP/1.1\r\nHost: "@ + target.host
        + "\r\nConnection: close\r\nAccept: */*\r\nUser-Agent: nebula/"@ + version + "\r\n\r\n"@
}

/// Where a fetch stands.
#[derive(Clone, Copy, PartialEq, Eq, Structural, Debug)]
pub enum Stage {
    Resolving,
    Connecting,
    Sending,
    Reading,
    Over,
}

/// What the outside reports to a fetch.
pub enum Event {
    /// What the resolver answered, if it answered.
    Resolved(Option<Vec<Ip>>),
    Connected(Option<Trouble>),
    /// How many bytes of the request the socket took.
    Sent(Result<usize, Trouble>),
    /// Bytes of the response; none of them means that it has ended.
    Arrived(Vec<u8>),
    Broken(Trouble),
}

pub enum EventView {
    Resolved(Option<Seq<Ip>>),
    Connected(Option<Trouble>),
    Sent(Result<usize, Trouble>),
    Arrived(Seq<u8>),
    Broken(Trouble),
}

impl View for Event {
    type V = EventView;

    open spec fn view(&self) -> EventView {
        match self {
            Event::Resolved(Some(list)) => EventView::Resolved(Some(list@)),
            Event::Resolved(None) => EventView::Resolved(None),
            Event::Connected(trouble) => EventView::Connected(*trouble),
            Event::Sent(taken) => EventView::Sent(*taken),
            Event::Arrived(bytes) => EventView::Arrived(bytes@),
            Event::Broken(trouble) => EventView::Broken(*trouble),
        }
    }
}

/// What a fetch asks the outside to do, each within so many nanoseconds: what
/// the budget has left.
pub enum Action {
    /// Connect to this address.
    Connect { address: Ip, port: u16, timeout: u64 },
    /// Write as much of this as the socket takes at once.
    Send { bytes: Vec<u8>, timeout: u64 },
    /// Read what is there, once.
    Read { timeout: u64 },
    /// The raw response: status line, headers, blank line, body.
    Finish(Vec<u8>),
    Refuse(Refusal),
}

pub enum ActionView {
    Connect { address: Ip, port: u16, timeout: u64 },
    Send { bytes: Seq<u8>, timeout: u64 },
    Read { timeout: u64 },
    Finish(Seq<u8>),
    Refuse(Refusal),
}

impl View for Action {
    type V = ActionView;

    open spec fn view(&self) -> ActionView {
        match self {
            Action::Connect { address, port, timeout } => ActionView::Connect {
                address: *address,
                port: *port,
                timeout: *timeout,
            },
            Action::Send { bytes, timeout } => ActionView::Send {
                bytes: bytes@,
                timeout: *timeout,
            },
            Action::Read { timeout } => ActionView::Read { timeout: *timeout },
            Action::Finish(bytes) => ActionView::Finish(bytes@),
            Action::Refuse(why) => ActionView::Refuse(*why),
        }
    }
}

pub struct FetchView {
    pub target: TargetView,
    pub version: Seq<char>,
    pub allow_private: bool,
    pub budget: u64,
    pub stage: Stage,
    /// What of the request is still to be sent.
    pub unsent: Seq<u8>,
    pub response: Seq<u8>,
}

/// What a fetch begins with, or why it does not begin.
pub open spec fn opened(
    policy: PolicyView,
    tenant: Seq<char>,
    url: Seq<char>,
    budget: u64,
    version: Seq<char>,
) -> Result<FetchView, Refusal> {
    if policy.list(tenant).len() == 0 {
        Err(Refusal::Disabled)
    } else if budget == 0 {
        Err(Refusal::Timeout)
    } else {
        match parsed(url) {
            Err(why) => Err(why),
            Ok(target) => if !policy.allows_for(tenant, target.host) {
                Err(Refusal::HostNotAllowed)
            } else {
                Ok(
                    FetchView {
                        target,
                        version,
                        allow_private: policy.allow_private,
                        budget,
                        stage: Stage::Resolving,
                        unsent: Seq::empty(),
                        response: Seq::empty(),
                    },
                )
            },
        }
    }
}

impl FetchView {
    pub open spec fn wf(self) -> bool {
        self.response.len() <= MAX_RESPONSE_BYTES
    }

    pub open spec fn at(self, stage: Stage) -> FetchView {
        FetchView { stage, ..self }
    }

    pub open spec fn refused(self, why: Refusal) -> (FetchView, ActionView) {
        (self.at(Stage::Over), ActionView::Refuse(why))
    }

    /// Sends `bytes`, and reads once there are none left.
    pub open spec fn sending(self, bytes: Seq<u8>, elapsed: u64) -> (FetchView, ActionView) {
        if bytes.len() == 0 {
            FetchView { unsent: bytes, ..self }.reading(elapsed)
        } else {
            (
                FetchView { stage: Stage::Sending, unsent: bytes, ..self },
                ActionView::Send { bytes, timeout: (self.budget - elapsed) as u64 },
            )
        }
    }

    pub open spec fn reading(self, elapsed: u64) -> (FetchView, ActionView) {
        (
            self.at(Stage::Reading),
            ActionView::Read { timeout: (self.budget - elapsed) as u64 },
        )
    }

    /// What follows `event`, `elapsed` nanoseconds into the fetch. The budget
    /// bounds all of it: what comes too late is not looked at.
    pub open spec fn next(self, event: EventView, elapsed: u64) -> (FetchView, ActionView) {
        if elapsed > self.budget {
            self.refused(Refusal::Timeout)
        } else {
            self.in_time(event, elapsed)
        }
    }

    /// What follows an `event` that came within the budget.
    pub open spec fn in_time(self, event: EventView, elapsed: u64) -> (FetchView, ActionView) {
        match (self.stage, event) {
            (Stage::Resolving, EventView::Resolved(None)) => self.refused(Refusal::Unresolvable),
            (Stage::Resolving, EventView::Resolved(Some(addresses))) => {
                if addresses.len() == 0 {
                    self.refused(Refusal::Unresolvable)
                } else if !self.allow_private && !all_public(addresses) {
                    self.refused(Refusal::PrivateAddress)
                } else {
                    (
                        self.at(Stage::Connecting),
                        ActionView::Connect {
                            address: addresses[0],
                            port: self.target.port,
                            timeout: (self.budget - elapsed) as u64,
                        },
                    )
                }
            },
            (Stage::Connecting, EventView::Connected(Some(trouble))) => self.refused(
                spec_classify(trouble),
            ),
            (Stage::Connecting, EventView::Connected(None)) => self.sending(
                encode_utf8(request_text(self.target, self.version)),
                elapsed,
            ),
            // A write that was interrupted is made again.
            (Stage::Sending, EventView::Sent(Err(trouble))) => {
                if trouble == Trouble::Interrupted {
                    self.sending(self.unsent, elapsed)
                } else {
                    self.refused(spec_classify(trouble))
                }
            },
            (Stage::Sending, EventView::Sent(Ok(taken))) => {
                if 0 < taken <= self.unsent.len() {
                    self.sending(self.unsent.skip(taken as int), elapsed)
                } else {
                    self.refused(Refusal::Io)
                }
            },
            (Stage::Reading, EventView::Broken(trouble)) => self.refused(spec_classify(trouble)),
            (Stage::Reading, EventView::Arrived(bytes)) => {
                if bytes.len() == 0 {
                    (self.at(Stage::Over), ActionView::Finish(self.response))
                } else if self.response.len() + bytes.len() > MAX_RESPONSE_BYTES {
                    self.refused(Refusal::TooLarge)
                } else {
                    FetchView { response: self.response + bytes, ..self }.reading(elapsed)
                }
            },
            // Nothing that was asked for.
            _ => self.refused(Refusal::Io),
        }
    }
}

/// One fetch, from its url to its response.
pub struct Fetch {
    target: Target,
    version: String,
    allow_private: bool,
    budget: u64,
    stage: Stage,
    unsent: Vec<u8>,
    response: Vec<u8>,
}

impl View for Fetch {
    type V = FetchView;

    closed spec fn view(&self) -> FetchView {
        FetchView {
            target: self.target@,
            version: self.version@,
            allow_private: self.allow_private,
            budget: self.budget,
            stage: self.stage,
            unsent: self.unsent@,
            response: self.response@,
        }
    }
}

impl Fetch {
    /// Decides whether `tenant` may fetch `url` at all. `budget` is what
    /// remains of the request's deadline, in nanoseconds, and bounds the whole
    /// operation; `version` names this software to the peer.
    ///
    /// A disallowed host is refused before a resolver is asked about it.
    pub fn open(policy: &Policy, tenant: &str, url: &str, budget: u64, version: &str) -> (out: Result<
        Fetch,
        Refusal,
    >)
        requires
            policy.wf(),
        ensures
            match out {
                Ok(fetch) => fetch@.wf() && opened(policy@, tenant@, url@, budget, version@) == Ok::<
                    FetchView,
                    Refusal,
                >(fetch@),
                Err(why) => opened(policy@, tenant@, url@, budget, version@) == Err::<
                    FetchView,
                    Refusal,
                >(why),
            },
    {
        if !policy.is_enabled_for(tenant) {
            return Err(Refusal::Disabled);
        }
        if budget == 0 {
            return Err(Refusal::Timeout);
        }
        let target = match parse(url) {
            Ok(target) => target,
            Err(why) => {
                return Err(why);
            },
        };
        if !policy.allows_for(tenant, target.host.as_str()) {
            return Err(Refusal::HostNotAllowed);
        }
        let unsent: Vec<u8> = Vec::new();
        let response: Vec<u8> = Vec::new();
        assert(unsent@ =~= Seq::<u8>::empty());
        assert(response@ =~= Seq::<u8>::empty());
        Ok(
            Fetch {
                target,
                version: version.to_owned(),
                allow_private: policy.allow_private,
                budget,
                stage: Stage::Resolving,
                unsent,
                response,
            },
        )
    }

    /// What the resolver is to be asked.
    pub fn target(&self) -> (out: &Target)
        ensures
            out@ == self@.target,
    {
        &self.target
    }

    fn refuse(&mut self, why: Refusal) -> (out: Action)
        ensures
            (final(self)@, out@) == old(self)@.refused(why),
    {
        self.stage = Stage::Over;
        Action::Refuse(why)
    }

    /// What the whole fetch may take, in nanoseconds.
    pub fn budget(&self) -> (out: u64)
        ensures
            out == self@.budget,
    {
        self.budget
    }

    fn keep_sending(&mut self, bytes: Vec<u8>, elapsed: u64) -> (out: Action)
        requires
            elapsed <= old(self)@.budget,
        ensures
            (final(self)@, out@) == old(self)@.sending(bytes@, elapsed),
    {
        if bytes.len() == 0 {
            self.unsent = bytes;
            return self.keep_reading(elapsed);
        }
        self.stage = Stage::Sending;
        self.unsent = vstd::slice::slice_to_vec(&bytes);
        Action::Send { bytes, timeout: self.budget - elapsed }
    }

    fn keep_reading(&mut self, elapsed: u64) -> (out: Action)
        requires
            elapsed <= old(self)@.budget,
        ensures
            (final(self)@, out@) == old(self)@.reading(elapsed),
    {
        self.stage = Stage::Reading;
        Action::Read { timeout: self.budget - elapsed }
    }

    /// Takes what happened, `elapsed` nanoseconds into the fetch, and says what
    /// to do next.
    pub fn step(&mut self, event: Event, elapsed: u64) -> (out: Action)
        requires
            old(self)@.wf(),
        ensures
            final(self)@.wf(),
            (final(self)@, out@) == old(self)@.next(event@, elapsed),
    {
        if elapsed > self.budget {
            return self.refuse(Refusal::Timeout);
        }
        match (self.stage, event) {
            (Stage::Resolving, Event::Resolved(None)) => self.refuse(Refusal::Unresolvable),
            (Stage::Resolving, Event::Resolved(Some(addresses))) => {
                if addresses.len() == 0 {
                    self.refuse(Refusal::Unresolvable)
                } else if !self.allow_private && !are_public(&addresses) {
                    self.refuse(Refusal::PrivateAddress)
                } else {
                    self.stage = Stage::Connecting;
                    Action::Connect {
                        address: addresses[0],
                        port: self.target.port,
                        timeout: self.budget - elapsed,
                    }
                }
            },
            (Stage::Connecting, Event::Connected(Some(trouble))) => self.refuse(classify(trouble)),
            (Stage::Connecting, Event::Connected(None)) => {
                let mut text = String::from_str("GET ");
                text.append(self.target.path.as_str());
                text.append(" HTTP/1.1\r\nHost: ");
                text.append(self.target.host.as_str());
                text.append("\r\nConnection: close\r\nAccept: */*\r\nUser-Agent: nebula/");
                text.append(self.version.as_str());
                text.append("\r\n\r\n");
                let bytes = vstd::slice::slice_to_vec(text.as_str().as_bytes());
                self.keep_sending(bytes, elapsed)
            },
            (Stage::Sending, Event::Sent(Err(trouble))) => {
                if trouble == Trouble::Interrupted {
                    let bytes = vstd::slice::slice_to_vec(&self.unsent);
                    self.keep_sending(bytes, elapsed)
                } else {
                    self.refuse(classify(trouble))
                }
            },
            (Stage::Sending, Event::Sent(Ok(taken))) => {
                let size: usize = self.unsent.len();
                if 0 < taken && taken <= size {
                    let rest = vstd::slice::slice_subrange(self.unsent.as_slice(), taken, size);
                    assert(rest@ =~= self.unsent@.skip(taken as int));
                    let bytes = vstd::slice::slice_to_vec(rest);
                    self.keep_sending(bytes, elapsed)
                } else {
                    self.refuse(Refusal::Io)
                }
            },
            (Stage::Reading, Event::Broken(trouble)) => self.refuse(classify(trouble)),
            (Stage::Reading, Event::Arrived(bytes)) => {
                if bytes.len() == 0 {
                    self.stage = Stage::Over;
                    Action::Finish(vstd::slice::slice_to_vec(&self.response))
                } else if bytes.len() > MAX_RESPONSE_BYTES - self.response.len() {
                    self.refuse(Refusal::TooLarge)
                } else {
                    let mut bytes = bytes;
                    self.response.append(&mut bytes);
                    self.keep_reading(elapsed)
                }
            },
            (_, _) => self.refuse(Refusal::Io),
        }
    }
}

/// Nothing is ever connected to but an address that was checked: where private
/// addresses are not permitted, every address the name resolved to is public.
pub proof fn law_only_checked_addresses_are_connected_to(
    fetch: FetchView,
    event: EventView,
    elapsed: u64,
)
    ensures
        fetch.next(event, elapsed).1 matches ActionView::Connect { address, port, timeout } ==> {
            &&& event matches EventView::Resolved(Some(addresses))
            &&& addresses.contains(address)
            &&& fetch.allow_private || all_public(addresses)
            &&& port == fetch.target.port
            &&& elapsed + timeout == fetch.budget
        },
{
    if let EventView::Resolved(Some(addresses)) = event {
        if addresses.len() > 0 {
            assert(addresses.contains(addresses[0]));
        }
    }
}

/// A fetch only begins for a host on the list that its tenant is held to.
pub proof fn law_only_listed_hosts_are_fetched(
    policy: PolicyView,
    tenant: Seq<char>,
    url: Seq<char>,
    budget: u64,
    version: Seq<char>,
)
    ensures
        opened(policy, tenant, url, budget, version) matches Ok(fetch) ==> policy.allows_for(
            tenant,
            fetch.target.host,
        ) && fetch.allow_private == policy.allow_private && fetch.budget == budget,
{
}

/// Permitting private addresses does not widen any list.
pub proof fn law_the_escape_hatch_does_not_widen_the_allowlist(
    policy: PolicyView,
    tenant: Seq<char>,
    host: Seq<char>,
)
    ensures
        (PolicyView { allow_private: true, ..policy }).allows_for(tenant, host)
            == policy.allows_for(tenant, host),
{
}

/// A response is handed back whole or not at all, and never past the cap.
pub proof fn law_a_response_is_whole_and_bounded(fetch: FetchView, event: EventView, elapsed: u64)
    requires
        fetch.wf(),
    ensures
        fetch.next(event, elapsed).0.wf(),
        fetch.next(event, elapsed).1 matches ActionView::Finish(bytes) ==> bytes == fetch.response
            && event == EventView::Arrived(Seq::<u8>::empty()) && bytes.len()
            <= MAX_RESPONSE_BYTES,
{
    if let EventView::Arrived(bytes) = event {
        if bytes.len() == 0 {
            assert(bytes =~= Seq::<u8>::empty());
        }
    }
}

/// The budget bounds the whole fetch, resolution, connect, write and every read
/// together: once it has run out the fetch is refused, whatever came in, and
/// nothing that is asked of the outside may take longer than what is left.
pub proof fn law_the_budget_bounds_the_fetch(fetch: FetchView, event: EventView, elapsed: u64)
    ensures
        elapsed > fetch.budget ==> fetch.next(event, elapsed) == fetch.refused(Refusal::Timeout),
        match fetch.next(event, elapsed).1 {
            ActionView::Connect { timeout, .. } => elapsed + timeout == fetch.budget,
            ActionView::Send { timeout, .. } => elapsed + timeout == fetch.budget,
            ActionView::Read { timeout } => elapsed + timeout == fetch.budget,
            ActionView::Finish(_) => elapsed <= fetch.budget,
            ActionView::Refuse(_) => true,
        },
        fetch.next(event, elapsed).0.budget == fetch.budget,
{
}

/// The request is sent whole and in order: what the socket has not taken is
/// what is sent next, and nothing is read before all of it is gone.
pub proof fn law_the_request_is_sent_whole(fetch: FetchView, event: EventView, elapsed: u64)
    requires
        fetch.stage == Stage::Sending,
    ensures
        fetch.next(event, elapsed).1 matches ActionView::Send { bytes, .. } ==> {
            &&& bytes == fetch.next(event, elapsed).0.unsent
            &&& event matches EventView::Sent(Ok(taken)) ==> fetch.unsent == fetch.unsent.take(
                taken as int,
            ) + bytes
        },
        fetch.next(event, elapsed).1 is Read && fetch.unsent.len() > 0 ==> event
            == EventView::Sent(Ok::<usize, Trouble>(fetch.unsent.len() as usize)),
{
    if let EventView::Sent(Ok(taken)) = event {
        if 0 < taken <= fetch.unsent.len() {
            assert(fetch.unsent =~= fetch.unsent.take(taken as int) + fetch.unsent.skip(
                taken as int,
            ));
        }
    }
}

/// A tenant with a list of its own is held to it, and to nothing else; every
/// other tenant keeps the list it had.
pub proof fn law_the_tenant_selects_the_allowlist(
    policy: PolicyView,
    tenant: Seq<char>,
    hosts: Seq<Seq<char>>,
    other: Seq<char>,
)
    ensures
        ({
            let own = PolicyView {
                tenants: policy.tenants.insert(encode_utf8(tenant), listed(hosts)),
                ..policy
            };
            &&& own.list(tenant) == listed(hosts)
            &&& other != tenant ==> own.list(other) == policy.list(other)
        }),
{
    if encode_utf8(tenant) == encode_utf8(other) {
        crate::text::lemma_utf8_injective(tenant, other);
    }
}

/// Nothing of a url is lost: its scheme, its authority and its path make up the
/// url, and the authority spells the host and, behind a colon, the port. Without a
/// slash the path is the root, and without a colon the port is eighty.
#[verifier::rlimit(40)]
pub proof fn law_nothing_of_a_url_is_lost(raw: Seq<char>)
    ensures
        parsed(raw) matches Ok(target) ==> {
            let url = trim(raw);
            &&& encode_utf8(url).len() <= 2048
            &&& url.take(7) == "http://"@ || url.take(7) == "HTTP://"@
            &&& target.host.len() > 0
            &&& forall|i: int| 0 <= i < target.host.len() ==> !is_white_space(#[trigger] target.host[i])
            &&& exists|authority: Seq<char>| #[trigger] spells(authority, target) && {
                ||| url == url.take(7) + authority + target.path && target.path[0] == '/'
                ||| url == url.take(7) + authority && target.path == seq!['/']
            }
        },
{
    if let Ok(target) = parsed(raw) {
        reveal_strlit("http://");
        reveal_strlit("HTTP://");
        reveal_strlit("/");
        let url = trim(raw);
        let rest = url.skip(7);
        lemma_first_of(rest, '/');
        let slash = first_of(rest, '/');
        let authority = rest.take(slash);
        assert(url =~= url.take(7) + rest);
        assert(rest =~= authority + rest.skip(slash));
        if slash < rest.len() {
            assert(url =~= url.take(7) + authority + target.path);
            assert(target.path[0] == rest[slash]);
        } else {
            assert(authority =~= rest);
            assert(target.path =~= seq!['/']);
        }
        crate::text::lemma_last_of(authority, ':');
        let colon = last_of(authority, ':');
        assert forall|i: int| 0 <= i < authority.len() implies authority[i] != '/' by {
            assert(authority[i] == rest[i]);
        }
        if colon >= 0 {
            let digits = authority.skip(colon + 1);
            assert(authority =~= target.host + seq![':'] + digits);
            assert forall|i: int| 0 <= i < digits.len() implies digits[i] != ':' by {
                assert(digits[i] == authority[colon + 1 + i]);
            }
            assert(is_port(digits, target.port));
        }
        assert(spells(authority, target));
    }
}

/// Whether `digits` give the port: a whole number, and no colon in it.
pub open spec fn is_port(digits: Seq<char>, port: u16) -> bool {
    parse_unsigned(digits, 65535) == Some(port as nat) && !digits.contains(':')
}

/// Whether an authority is a target's host with its port, if it names one: no
/// user and no path.
pub open spec fn spells(authority: Seq<char>, target: TargetView) -> bool {
    &&& !authority.contains('/')
    &&& !authority.contains('@')
    &&& {
        ||| authority == target.host && !target.host.contains(':') && target.port == 80
        ||| exists|digits: Seq<char>| #[trigger] is_port(digits, target.port) && authority
            == target.host + seq![':'] + digits
    }
}

/// A url put together from a host, a port and a path is read back as these.
#[verifier::rlimit(40)]
pub proof fn law_a_url_is_read_back(
    upper: bool,
    host: Seq<char>,
    port: u16,
    named: bool,
    path: Seq<char>,
)
    requires
        is_host(host),
        !host.contains('/') && !host.contains('@'),
        !named ==> port == 80 && !host.contains(':'),
        path.len() > 0 ==> path[0] == '/' && !is_white_space(path.last()),
        encode_utf8(url_of(upper, host, port, named, path)).len() <= 2048,
    ensures
        parsed(url_of(upper, host, port, named, path)) == Ok::<TargetView, Refusal>(
            TargetView {
                host,
                port,
                path: if path.len() == 0 {
                    seq!['/']
                } else {
                    path
                },
            },
        ),
{
    reveal_strlit("/");
    let authority = authority_of(host, port, named);
    let url = url_of(upper, host, port, named, path);
    lemma_place_is_read_back(host, port, named);
    lemma_url_is_trimmed(upper, authority, path);
    assert("/"@ =~= seq!['/']);
    let rest = url.skip(7);
    assert(rest =~= authority + path);
    assert forall|i: int| 0 <= i < authority.len() implies rest[i] != '/' by {
        assert(rest[i] == authority[i]);
        assert(authority.contains(authority[i]));
    }
    if path.len() > 0 {
        assert(rest[authority.len() as int] == '/');
    }
    crate::text::lemma_first_of_unique(rest, '/', authority.len() as int);
    assert(rest.take(authority.len() as int) =~= authority);
    assert(rest.skip(authority.len() as int) =~= path);
}

proof fn lemma_place_is_read_back(host: Seq<char>, port: u16, named: bool)
    requires
        is_host(host),
        !host.contains('/') && !host.contains('@'),
        !named ==> port == 80 && !host.contains(':'),
    ensures
        ({
            let authority = authority_of(host, port, named);
            &&& host_and_port(authority) == Some((host, port))
            &&& authority.len() > 0
            &&& !is_white_space(authority.last())
            &&& !authority.contains('@')
            &&& !authority.contains('/')
        }),
{
    let digits = crate::text::decimal(port as nat);
    let authority = authority_of(host, port, named);
    crate::text::law_decimal_spells_the_number(port as nat);
    crate::text::law_a_number_is_read_from_its_digits(digits, 65535);
    assert forall|i: int| 0 <= i < authority.len() implies authority[i] != '/' && authority[i]
        != '@' by {
        if i < host.len() {
            assert(authority[i] == host[i]);
            assert(host.contains(host[i]));
        } else if i > host.len() {
            assert(authority[i] == digits[i - host.len() - 1]);
        }
    }
    if named {
        assert(authority[host.len() as int] == ':');
        assert forall|i: int| host.len() < i < authority.len() implies authority[i] != ':' by {
            assert(authority[i] == digits[i - host.len() - 1]);
        }
        crate::text::lemma_last_of_unique(authority, ':', host.len() as int);
        assert(authority.take(host.len() as int) =~= host);
        assert(authority.skip(host.len() as int + 1) =~= digits);
        assert(authority.last() == digits[digits.len() - 1]);
    } else {
        crate::text::lemma_last_of(authority, ':');
        assert(authority.last() == host[host.len() - 1]);
    }
}

proof fn lemma_url_is_trimmed(upper: bool, authority: Seq<char>, path: Seq<char>)
    requires
        authority.len() > 0,
        !is_white_space(authority.last()),
        path.len() > 0 ==> !is_white_space(path.last()),
    ensures
        ({
            let url = (if upper {
                "HTTP://"@
            } else {
                "http://"@
            }) + authority + path;
            &&& trim(url) == url
            &&& !"https://"@.is_prefix_of(to_lower(url))
            &&& "http://"@.is_prefix_of(url) || "HTTP://"@.is_prefix_of(url)
            &&& url.skip(7) == authority + path
        }),
{
    reveal_strlit("http://");
    reveal_strlit("HTTP://");
    reveal_strlit("https://");
    let scheme = if upper {
        "HTTP://"@
    } else {
        "http://"@
    };
    let url = scheme + authority + path;
    assert(url[0] == scheme[0]);
    if path.len() > 0 {
        assert(url.last() == path.last());
    } else {
        assert(url.last() == authority.last());
    }
    crate::text::lemma_trim_none(url);
    assert(to_lower(url)[4] == ':') by {
        assert(url[4] == scheme[4]);
    }
    assert("https://"@[4] == 's');
    assert(url.take(7) =~= scheme);
    assert(url.skip(7) =~= authority + path);
}

/// A url, written out.
pub open spec fn url_of(
    upper: bool,
    host: Seq<char>,
    port: u16,
    named: bool,
    path: Seq<char>,
) -> Seq<char> {
    (if upper {
        "HTTP://"@
    } else {
        "http://"@
    }) + authority_of(host, port, named) + path
}

/// A host and its port, written out.
pub open spec fn authority_of(host: Seq<char>, port: u16, named: bool) -> Seq<char> {
    if named {
        host + seq![':'] + crate::text::decimal(port as nat)
    } else {
        host
    }
}

/// A url that is too long is refused as such, then one that asks for an encrypted
/// connection in any case, and then one with another scheme or with a user in its
/// authority.
pub proof fn law_other_urls_are_refused(raw: Seq<char>)
    ensures
        ({
            let url = trim(raw);
            &&& encode_utf8(url).len() > 2048 ==> parsed(raw) == Err::<TargetView, Refusal>(
                Refusal::BadUrl,
            )
            &&& parsed(raw) == Err::<TargetView, Refusal>(Refusal::Tls) <==> encode_utf8(url).len()
                <= 2048 && url.len() >= 8 && to_lower(url.take(8)) == "https://"@
            &&& url.take(7) != "http://"@ && url.take(7) != "HTTP://"@ ==> parsed(raw) is Err
            &&& (forall|why: Refusal|
                parsed(raw) == Err::<TargetView, Refusal>(why) ==> why == Refusal::BadUrl || why
                    == Refusal::Tls)
        }),
{
    reveal_strlit("https://");
    reveal_strlit("http://");
    reveal_strlit("HTTP://");
    let url = trim(raw);
    if url.len() >= 8 {
        assert(to_lower(url).take(8) =~= to_lower(url.take(8)));
    }
    if "https://"@.is_prefix_of(to_lower(url)) {
        assert(to_lower(url).take(8) =~= "https://"@);
    }
    if "http://"@.is_prefix_of(url) {
        assert(url.take(7) =~= "http://"@);
    }
    if "HTTP://"@.is_prefix_of(url) {
        assert(url.take(7) =~= "HTTP://"@);
    }
}

/// A version 4 address as one number.
pub open spec fn number_of(a: u8, b: u8, c: u8, d: u8) -> int {
    0x100_0000 * a + 0x1_0000 * b + 0x100 * c + d
}

/// A version 4 address is public unless it lies in one of the blocks that are set
/// aside; the numbers are the first and the last of each.
pub proof fn law_public_addresses_lie_outside_the_blocks(a: u8, b: u8, c: u8, d: u8)
    ensures
        Ip::V4(a, b, c, d).spec_is_public() <==> {
            let n = number_of(a, b, c, d);
            // 0.0.0.0/8, 10.0.0.0/8 and 127.0.0.0/8.
            &&& !(0 <= n <= 0x00ff_ffff)
            &&& !(0x0a00_0000 <= n <= 0x0aff_ffff)
            &&& !(0x7f00_0000 <= n <= 0x7fff_ffff)
            // 100.64.0.0/10 and 169.254.0.0/16.
            &&& !(0x6440_0000 <= n <= 0x647f_ffff)
            &&& !(0xa9fe_0000 <= n <= 0xa9fe_ffff)
            // 172.16.0.0/12 and 192.168.0.0/16.
            &&& !(0xac10_0000 <= n <= 0xac1f_ffff)
            &&& !(0xc0a8_0000 <= n <= 0xc0a8_ffff)
            // 192.0.0.0/24, 192.0.2.0/24, 198.51.100.0/24 and 203.0.113.0/24.
            &&& !(0xc000_0000 <= n <= 0xc000_00ff)
            &&& !(0xc000_0200 <= n <= 0xc000_02ff)
            &&& !(0xc633_6400 <= n <= 0xc633_64ff)
            &&& !(0xcb00_7100 <= n <= 0xcb00_71ff)
            // 224.0.0.0/3.
            &&& n < 0xe000_0000
        },
{
}

/// A version 6 address that stands for one of version 4 is public exactly when
/// that one is; any other is unless it is unspecified or loopback, or lies in the
/// unique local, link local or multicast range.
pub proof fn law_public_addresses_of_version_six(
    a: u16,
    b: u16,
    c: u16,
    d: u16,
    e: u16,
    f: u16,
    g: u16,
    h: u16,
    v4: (u8, u8, u8, u8),
)
    ensures
        Ip::V6(
            0,
            0,
            0,
            0,
            0,
            0xffff,
            (256 * v4.0 + v4.1) as u16,
            (256 * v4.2 + v4.3) as u16,
        ).spec_is_public() == Ip::V4(v4.0, v4.1, v4.2, v4.3).spec_is_public(),
        (a != 0 || b != 0 || c != 0 || d != 0 || e != 0 || f != 0xffff) ==> (Ip::V6(
            a,
            b,
            c,
            d,
            e,
            f,
            g,
            h,
        ).spec_is_public() <==> {
            &&& a != 0 || b != 0 || c != 0 || d != 0 || e != 0 || f != 0 || g != 0 || h > 1
            &&& a < 0xfc00 || (a >= 0xfe00 && a < 0xfe80) || (a >= 0xfec0 && a < 0xff00)
        }),
{
}

/// An entry is on a list exactly when it is not blank and is one of the hosts the
/// list was made from, without the blanks around it and in lower case.
pub proof fn law_a_list_holds_its_hosts(hosts: Seq<Seq<char>>, host: Seq<char>)
    ensures
        listed(hosts).contains(host) <==> host.len() > 0 && exists|i: int|
            0 <= i < hosts.len() && to_lower(trim(#[trigger] hosts[i])) == host,
    decreases hosts.len(),
{
    if hosts.len() > 0 {
        let init = hosts.drop_last();
        law_a_list_holds_its_hosts(init, host);
        let rest = listed(init);
        let last = entry(hosts.last());
        assert forall|i: int| 0 <= i < init.len() implies hosts[i] == #[trigger] init[i] by {}
        if exists|i: int| 0 <= i < init.len() && to_lower(trim(#[trigger] init[i])) == host {
            let i = choose|i: int|
                0 <= i < init.len() && to_lower(trim(#[trigger] init[i])) == host;
            assert(to_lower(trim(hosts[i])) == host);
        }
        if exists|i: int| 0 <= i < hosts.len() && to_lower(trim(#[trigger] hosts[i])) == host {
            let i = choose|i: int|
                0 <= i < hosts.len() && to_lower(trim(#[trigger] hosts[i])) == host;
            if i < init.len() {
                assert(to_lower(trim(init[i])) == host);
            }
        }
        if last == host {
            assert(to_lower(trim(hosts[hosts.len() - 1])) == host);
        }
        if last.len() > 0 {
            assert(rest.push(last)[rest.len() as int] == last);
            if rest.contains(host) {
                let k = rest.index_of(host);
                assert(rest.push(last)[k] == host);
            }
            if rest.push(last).contains(host) {
                let k = rest.push(last).index_of(host);
                if k < rest.len() {
                    assert(rest[k] == host);
                }
            }
        }
    }
}

/// A tenant may reach exactly the hosts on its own list, if it has one, and else
/// those on the shared one; case and the blanks around a name do not matter, and
/// nothing but the whole name does.
pub proof fn law_a_host_is_allowed_by_its_whole_name(
    policy: PolicyView,
    tenant: Seq<char>,
    host: Seq<char>,
)
    ensures
        ({
            let list = if policy.tenants.contains_key(encode_utf8(tenant)) {
                policy.tenants[encode_utf8(tenant)]
            } else {
                policy.hosts
            };
            &&& policy.list(tenant) == list
            &&& policy.allows_for(tenant, host) <==> list.contains(to_lower(trim(host)))
        }),
{
}

/// A fetch does not begin for a tenant with nothing to reach, without time, for a
/// url that cannot be read, or for a host that is not listed, the first of these
/// being told; else it begins with the whole target and with nothing sent or
/// received.
pub proof fn law_a_fetch_begins_for_these(
    policy: PolicyView,
    tenant: Seq<char>,
    url: Seq<char>,
    budget: u64,
    version: Seq<char>,
)
    ensures
        ({
            let out = opened(policy, tenant, url, budget, version);
            let off = policy.list(tenant).len() == 0;
            &&& off ==> out == Err::<FetchView, Refusal>(Refusal::Disabled)
            &&& !off && budget == 0 ==> out == Err::<FetchView, Refusal>(Refusal::Timeout)
            &&& !off && budget > 0 && parsed(url) is Err ==> out == Err::<FetchView, Refusal>(
                parsed(url)->Err_0,
            )
            &&& !off && budget > 0 && parsed(url) is Ok && !policy.allows_for(
                tenant,
                parsed(url)->Ok_0.host,
            ) ==> out == Err::<FetchView, Refusal>(Refusal::HostNotAllowed)
            &&& !off && budget > 0 && parsed(url) is Ok && policy.allows_for(
                tenant,
                parsed(url)->Ok_0.host,
            ) ==> out is Ok && out->Ok_0.target == parsed(url)->Ok_0 && out->Ok_0.version == version
                && out->Ok_0.budget == budget && out->Ok_0.stage == Stage::Resolving
                && out->Ok_0.unsent.len() == 0 && out->Ok_0.response.len() == 0
                && out->Ok_0.allow_private == policy.allow_private
        }),
{
}

/// What a resolver answered in time leads to a connection to the first address, at
/// the port of the url, unless there is none or one of them all may not be reached.
pub proof fn law_the_first_address_is_connected_to(
    fetch: FetchView,
    addresses: Seq<Ip>,
    elapsed: u64,
)
    requires
        fetch.stage == Stage::Resolving,
        elapsed <= fetch.budget,
    ensures
        ({
            let after = fetch.next(EventView::Resolved(Some(addresses)), elapsed);
            let barred = !fetch.allow_private && exists|i: int|
                0 <= i < addresses.len() && !(#[trigger] addresses[i]).spec_is_public();
            &&& addresses.len() == 0 ==> after.1 == ActionView::Refuse(Refusal::Unresolvable)
            &&& addresses.len() > 0 && barred ==> after.1 == ActionView::Refuse(
                Refusal::PrivateAddress,
            )
            &&& addresses.len() > 0 && !barred ==> after.1 == (ActionView::Connect {
                address: addresses[0],
                port: fetch.target.port,
                timeout: (fetch.budget - elapsed) as u64,
            }) && after.0.stage == Stage::Connecting
            &&& fetch.next(EventView::Resolved(None), elapsed).1 == ActionView::Refuse(
                Refusal::Unresolvable,
            )
            &&& after.0.target == fetch.target
        }),
{
}

/// Once connected, the request goes out: the whole path, the whole host and the
/// version, each in its place, and a blank line at the end.
#[verifier::rlimit(40)]
pub proof fn law_the_request_asks_for_the_whole_path(fetch: FetchView, elapsed: u64)
    requires
        fetch.stage == Stage::Connecting,
        elapsed <= fetch.budget,
    ensures
        ({
            let crlf = seq!['\r', '\n'];
            let lines = "GET "@ + fetch.target.path + " HTTP/1.1"@ + crlf + ("Host: "@
                + fetch.target.host + crlf) + ("Connection: close"@ + crlf) + ("Accept: */*"@ + crlf)
                + ("User-Agent: nebula/"@ + fetch.version + crlf) + crlf;
            let after = fetch.next(EventView::Connected(None), elapsed);
            &&& after.1 == (ActionView::Send {
                bytes: encode_utf8(lines),
                timeout: (fetch.budget - elapsed) as u64,
            })
            &&& after.0.unsent == encode_utf8(lines)
            &&& after.0.stage == Stage::Sending
        }),
{
    reveal_strlit("GET ");
    reveal_strlit(" HTTP/1.1");
    reveal_strlit(" HTTP/1.1\r\nHost: ");
    reveal_strlit("Host: ");
    reveal_strlit("\r\nConnection: close\r\nAccept: */*\r\nUser-Agent: nebula/");
    reveal_strlit("Connection: close");
    reveal_strlit("Accept: */*");
    reveal_strlit("User-Agent: nebula/");
    reveal_strlit("\r\n\r\n");
    let crlf = seq!['\r', '\n'];
    let lines = "GET "@ + fetch.target.path + " HTTP/1.1"@ + crlf + ("Host: "@ + fetch.target.host
        + crlf) + ("Connection: close"@ + crlf) + ("Accept: */*"@ + crlf) + ("User-Agent: nebula/"@
        + fetch.version + crlf) + crlf;
    assert(" HTTP/1.1\r\nHost: "@ =~= " HTTP/1.1"@ + crlf + "Host: "@);
    assert("\r\nConnection: close\r\nAccept: */*\r\nUser-Agent: nebula/"@ =~= crlf
        + ("Connection: close"@ + crlf) + ("Accept: */*"@ + crlf) + "User-Agent: nebula/"@);
    assert("\r\n\r\n"@ =~= crlf + crlf);
    assert(request_text(fetch.target, fetch.version) =~= lines);
    assert(lines.len() > 0);
    if encode_utf8(lines).len() == 0 {
        assert(encode_utf8(lines) =~= encode_utf8(Seq::empty())) by {
            vstd::utf8::encode_utf8_valid_utf8(Seq::empty());
            lemma_empty_encoding();
        }
        crate::text::lemma_utf8_injective(lines, Seq::empty());
    }
}

proof fn lemma_empty_encoding()
    ensures
        encode_utf8(Seq::<char>::empty()).len() == 0,
{
    crate::text::lemma_ascii_len(Seq::empty());
}

/// What arrives in time is kept whole and in order: the response is all that
/// arrived, up to the cap of one mebibyte, and is handed back when the peer is done.
pub proof fn law_what_arrives_is_kept_whole(fetch: FetchView, bytes: Seq<u8>, elapsed: u64)
    requires
        fetch.stage == Stage::Reading,
        elapsed <= fetch.budget,
    ensures
        ({
            let after = fetch.next(EventView::Arrived(bytes), elapsed);
            let all = fetch.response + bytes;
            &&& bytes.len() == 0 ==> after.1 == ActionView::Finish(fetch.response)
            &&& bytes.len() > 0 && all.len() <= 1_048_576 ==> after.1 is Read && after.0.stage
                == Stage::Reading && after.0.response == all
            &&& bytes.len() > 0 && all.len() > 1_048_576 ==> after.1 == ActionView::Refuse(
                Refusal::TooLarge,
            )
        }),
{
}

/// A socket that ran out of time is told as such and any other trouble as a failed
/// connection; only a write that was interrupted is made again.
pub proof fn law_trouble_ends_a_fetch(fetch: FetchView, trouble: Trouble, elapsed: u64)
    requires
        elapsed <= fetch.budget,
    ensures
        ({
            let late = trouble == Trouble::TimedOut || trouble == Trouble::WouldBlock;
            let told = ActionView::Refuse(
                if late {
                    Refusal::Timeout
                } else {
                    Refusal::Io
                },
            );
            &&& fetch.stage == Stage::Connecting ==> fetch.next(
                EventView::Connected(Some(trouble)),
                elapsed,
            ).1 == told
            &&& fetch.stage == Stage::Reading ==> fetch.next(EventView::Broken(trouble), elapsed).1
                == told
            &&& fetch.stage == Stage::Sending && trouble != Trouble::Interrupted ==> fetch.next(
                EventView::Sent(Err(trouble)),
                elapsed,
            ).1 == told
            &&& fetch.stage == Stage::Sending && trouble == Trouble::Interrupted
                && fetch.unsent.len() > 0 ==> fetch.next(EventView::Sent(Err(trouble)), elapsed)
                == (
                fetch,
                ActionView::Send {
                    bytes: fetch.unsent,
                    timeout: (fetch.budget - elapsed) as u64,
                },
            )
        }),
{
}

/// A target is seen whole.
pub proof fn law_a_target_is_seen_whole(target: Target)
    ensures
        target@.host == target.host@ && target@.port == target.port && target@.path == target.path@,
{
}

} // verus!

//! What the server does with a `GET` request to the GraphQL endpoint: send a
//! browser to the sandbox, or decode the query and run it.

use vstd::prelude::*;
use crate::text::{split, split_text, texts};

verus! {

/// Whether `http::Uri` reads a text as a URI.
pub uninterp spec fn is_uri(text: Seq<char>) -> bool;

/// What `urlencoding::decode_binary` decodes bytes to.
pub uninterp spec fn percent_decoded(data: Seq<u8>) -> Seq<u8>;

/// What `str::trim` leaves of a text.
pub uninterp spec fn trimmed(text: Seq<char>) -> Seq<char>;

/// Asks `http::Uri::from_str`, through `str::parse`, whether it reads `text`
/// as a URI. Nothing is proved of the answer; it is taken to depend on the
/// text alone, and [`is_uri`] is its name.
#[verifier::external_body]
fn parses_as_uri(text: &str) -> (r: bool)
    ensures
        r == is_uri(text@),
{
    text.parse::<http::Uri>().is_ok()
}

/// Has `urlencoding::decode_binary` decode `data`. Nothing is proved of the
/// bytes that come back; they are taken to depend on `data` alone, and
/// [`percent_decoded`] is their name.
#[verifier::external_body]
fn percent_decode(data: &[u8]) -> (r: Vec<u8>)
    ensures
        r@ == percent_decoded(data@),
{
    urlencoding::decode_binary(data).into_owned()
}

/// Has `str::trim` take the whitespace off both ends of `text`. Nothing is
/// proved of what is left; it is taken to depend on `text` alone, and
/// [`trimmed`] is its name.
#[verifier::external_body]
fn trim(text: &str) -> (r: &str)
    ensures
        r@ == trimmed(text@),
{
    text.trim()
}

/// Whether an `Accept` header asks for HTML: whether one of its entries
/// between commas, the whitespace around it taken off, is `text/html`.
pub open spec fn accepts_html(header: Seq<char>) -> bool {
    exists|i: int|
        0 <= i < split(header, ',').len() && trimmed(#[trigger] split(header, ',')[i])
            == "text/html"@
}

/// The address of the sandbox for the endpoint at `host`.
pub open spec fn studio_address(host: Seq<char>) -> Seq<char> {
    "https://studio.apollographql.com/sandbox?endpoint=http://"@ + host
}

/// Whether there is a host whose sandbox address is a URI.
pub open spec fn can_redirect(host: Option<&str>) -> bool {
    host matches Some(h) && is_uri(studio_address(h@))
}

/// Whether a request with this `Accept` header, if it has one, came from a
/// browser.
pub open spec fn from_browser(accept: Option<&str>) -> bool {
    accept matches Some(header) && accepts_html(header@)
}

/// The bytes with a space in the place of each plus sign.
pub open spec fn plus_as_space(data: Seq<u8>) -> Seq<u8> {
    Seq::new(
        data.len(),
        |i: int|
            if data[i] == 0x2b {
                0x20u8
            } else {
                data[i]
            },
    )
}

/// What to do with a `GET` request.
#[derive(Debug, PartialEq, Eq)]
pub enum GetAction {
    /// Send the browser to the sandbox, at this address.
    Redirect(String),
    /// Refuse: there is no host to name to the sandbox.
    InvalidHost,
    /// Read these bytes, the decoded query, as a GraphQL request and run it.
    Run(Vec<u8>),
}

/// Whether `media` is the media type of HTML, `text/html`.
pub fn is_html(media: &str) -> (r: bool)
    ensures
        r == (media@ == "text/html"@),
{
    String::from_str(media) == String::from_str("text/html")
}

/// Whether a browser sent the request: whether its `Accept` header asks for
/// HTML (see [`accepts_html`]).
pub fn prefers_html(accept_header: &str) -> (r: bool)
    ensures
        r == accepts_html(accept_header@),
{
    let entries = split_text(accept_header, ',');
    let mut i: usize = 0;
    while i < entries.len()
        invariant
            i <= entries@.len(),
            texts(entries@) == split(accept_header@, ','),
            forall|k: int|
                0 <= k < i ==> trimmed(#[trigger] split(accept_header@, ',')[k]) != "text/html"@,
        decreases entries.len() - i,
    {
        assert(texts(entries@)[i as int] == entries@[i as int]@);
        if is_html(trim(entries[i])) {
            return true;
        }
        i += 1;
    }
    assert(texts(entries@).len() == entries@.len());
    false
}

/// The address of the sandbox for the endpoint at `host` (see
/// [`studio_address`]).
pub fn studio_address_of(host: &str) -> (r: String)
    ensures
        r@ == studio_address(host@),
{
    let mut address = String::from_str("https://studio.apollographql.com/sandbox?endpoint=http://");
    address.append(host);
    address
}

/// The redirection to `address` if it is a valid one, else the refusal.
pub fn redirect_if_valid(address: String, valid: bool) -> (r: GetAction)
    ensures
        valid ==> r == GetAction::Redirect(address),
        !valid ==> r == GetAction::InvalidHost,
{
    if valid {
        GetAction::Redirect(address)
    } else {
        GetAction::InvalidHost
    }
}

/// The redirection of a browser to the sandbox for the endpoint at `host`,
/// or the refusal where there is no host or the address is no URI.
pub fn redirect_to_studio(host: Option<&str>) -> (r: GetAction)
    ensures
        match r {
            GetAction::Redirect(address) => can_redirect(host) && address@ == studio_address(
                host->0@,
            ),
            GetAction::InvalidHost => !can_redirect(host),
            GetAction::Run(_) => false,
        },
{
    match host {
        Some(host) => {
            let address = studio_address_of(host);
            let valid = parses_as_uri(address.as_str());
            redirect_if_valid(address, valid)
        },
        None => GetAction::InvalidHost,
    }
}

/// The query of a request, decoded: each plus sign read as a space, then
/// each percent escape as the byte it stands for.
pub fn decode_query(query: &[u8]) -> (r: Vec<u8>)
    ensures
        r@ == percent_decoded(plus_as_space(query@)),
{
    let mut spaced: Vec<u8> = Vec::new();
    let mut i: usize = 0;
    while i < query.len()
        invariant
            i <= query@.len(),
            spaced@ == plus_as_space(query@).take(i as int),
        decreases query.len() - i,
    {
        let byte = query[i];
        spaced.push(if byte == 0x2b { 0x20 } else { byte });
        assert(spaced@ =~= plus_as_space(query@).take(i + 1));
        i += 1;
    }
    assert(plus_as_space(query@).take(query@.len() as int) =~= plus_as_space(query@));
    percent_decode(spaced.as_slice())
}

/// What to do with a `GET` request that came with this `Accept` header,
/// for this host, with this query.
///
/// A browser, which asks for HTML, is sent to the sandbox. Anything else
/// sent a GraphQL request in its query, which is decoded to be run.
pub fn get_action(accept: Option<&str>, host: Option<&str>, query: &[u8]) -> (r: GetAction)
    ensures
        match r {
            GetAction::Redirect(address) => from_browser(accept) && can_redirect(host) && address@
                == studio_address(host->0@),
            GetAction::InvalidHost => from_browser(accept) && !can_redirect(host),
            GetAction::Run(bytes) => !from_browser(accept) && bytes@ == percent_decoded(
                plus_as_space(query@),
            ),
        },
{
    let browser = match accept {
        Some(accept) => prefers_html(accept),
        None => false,
    };
    if browser {
        redirect_to_studio(host)
    } else {
        GetAction::Run(decode_query(query))
    }
}

} // verus!

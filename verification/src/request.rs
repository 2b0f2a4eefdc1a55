//! Requests: the target address and the page that asks for it, reduced to
//! what the rules look at.

use vstd::prelude::*;
use crate::shield::ResourceType;
use crate::text::{
    append_text, chars_of, copy_range, fold, fold_text, matches_at, reads_as, same_text,
    starts_with, string_of,
};

verus! {

/// An address taken apart: its full text, its scheme, its host name, the
/// registrable domain of that host, and where in the full text the host name
/// is said to stand.
#[derive(Debug)]
pub struct UrlParts {
    pub url: String,
    pub scheme: String,
    pub hostname: String,
    pub domain: String,
    pub host_start: usize,
    pub host_end: usize,
}

pub struct UrlPartsView {
    pub url: Seq<char>,
    pub scheme: Seq<char>,
    pub hostname: Seq<char>,
    pub domain: Seq<char>,
    pub host_start: int,
    pub host_end: int,
}

impl View for UrlParts {
    type V = UrlPartsView;

    open spec fn view(&self) -> UrlPartsView {
        UrlPartsView {
            url: self.url@,
            scheme: self.scheme@,
            hostname: self.hostname@,
            domain: self.domain@,
            host_start: self.host_start as int,
            host_end: self.host_end as int,
        }
    }
}

/// What `adblock::url_parser::parse_url` makes of an address: its parts, or
/// nothing where it finds no scheme or no host.
pub uninterp spec fn address_parts(raw: Seq<char>) -> Option<UrlPartsView>;

/// Takes an address apart with `adblock::url_parser::parse_url`, which also
/// finds the registrable domain of the host in the public suffix list it is
/// built with. The parts are handed on as they come: the serialised address,
/// its scheme, host name and domain, and the two offsets between which the
/// parser places the host name. Nothing is claimed of them here; what is
/// taken from them is tested first.
#[verifier::external_body]
fn split_address(raw: &str) -> (parts: Option<UrlParts>)
    ensures
        match parts {
            Some(p) => address_parts(raw@) == Some(p@),
            None => address_parts(raw@) is None,
        },
{
    match adblock::url_parser::parse_url(raw) {
        Some(p) => Some(
            UrlParts {
                scheme: p.schema().to_string(),
                hostname: p.hostname().to_string(),
                domain: p.domain().to_string(),
                host_start: p.hostname_pos.0,
                host_end: p.hostname_pos.1,
                url: p.url,
            },
        ),
        None => None,
    }
}

/// Which of the two addresses of a request could not be read.
#[derive(Debug, Clone, Copy, PartialEq, Eq, Structural)]
pub enum RequestError {
    Target,
    Source,
}

/// A request as the rules see it.
pub struct RequestView {
    /// The target address in lower case, without the port where it is the
    /// scheme's own.
    pub url: Seq<char>,
    /// Where the host name begins in `url`.
    pub host_start: int,
    /// Where the host name ends in `url`.
    pub host_end: int,
    /// The host name of the page that asks, in lower case.
    pub source_host: Seq<char>,
    /// The target's registrable domain is not the page's.
    pub third_party: bool,
    pub resource_type: ResourceType,
}

impl RequestView {
    pub open spec fn wf(self) -> bool {
        0 <= self.host_start < self.host_end <= self.url.len()
    }

    pub open spec fn host(self) -> Seq<char> {
        self.url.subrange(self.host_start, self.host_end)
    }
}

/// The port that a scheme implies.
pub open spec fn default_port(scheme: Seq<char>) -> Option<Seq<char>> {
    if scheme == "http"@ || scheme == "ws"@ {
        Some("80"@)
    } else if scheme == "https"@ || scheme == "wss"@ {
        Some("443"@)
    } else if scheme == "ftp"@ {
        Some("21"@)
    } else {
        None
    }
}

pub open spec fn is_digit(c: char) -> bool {
    '0' <= c && c <= '9'
}

/// What follows the host name, without the port where it is the scheme's own.
pub open spec fn without_default_port(scheme: Seq<char>, rest: Seq<char>) -> Seq<char> {
    match default_port(scheme) {
        Some(port) => {
            let marker = seq![':'] + port;
            if starts_with(rest, marker) && !(rest.len() > marker.len() && is_digit(
                rest[marker.len() as int],
            )) {
                rest.skip(marker.len() as int)
            } else {
                rest
            }
        },
        None => rest,
    }
}

/// The host name stands in the address where the offsets say.
pub open spec fn usable(p: UrlPartsView) -> bool {
    &&& 0 <= p.host_start < p.host_end <= p.url.len()
    &&& p.url.subrange(p.host_start, p.host_end) == p.hostname
}

pub open spec fn normalized(p: UrlPartsView) -> Seq<char> {
    fold(p.url).take(p.host_end) + without_default_port(
        fold(p.scheme),
        fold(p.url).skip(p.host_end),
    )
}

/// The request that the parts of its two addresses make: none where the
/// target has no usable parts, none where the source has no parts.
pub open spec fn request_of(
    target: Option<UrlPartsView>,
    source: Option<UrlPartsView>,
    resource_type: ResourceType,
) -> Result<RequestView, RequestError> {
    if target is None || !usable(target->0) {
        Err(RequestError::Target)
    } else if source is None {
        Err(RequestError::Source)
    } else {
        Ok(
            RequestView {
                url: normalized(target->0),
                host_start: target->0.host_start,
                host_end: target->0.host_end,
                source_host: fold(source->0.hostname),
                third_party: fold(source->0.domain) != fold(target->0.domain),
                resource_type,
            },
        )
    }
}

pub open spec fn parts_view(parts: Option<UrlParts>) -> Option<UrlPartsView> {
    match parts {
        Some(p) => Some(p@),
        None => None,
    }
}

/// One outgoing request, normalised.
#[derive(Debug)]
pub struct Request {
    url: Vec<char>,
    host_start: usize,
    host_end: usize,
    source_host: Vec<char>,
    third_party: bool,
    resource_type: ResourceType,
}

impl View for Request {
    type V = RequestView;

    closed spec fn view(&self) -> RequestView {
        RequestView {
            url: self.url@,
            host_start: self.host_start as int,
            host_end: self.host_end as int,
            source_host: self.source_host@,
            third_party: self.third_party,
            resource_type: self.resource_type,
        }
    }
}

fn port_of(scheme: &Vec<char>) -> (port: Option<Vec<char>>)
    ensures
        match port {
            Some(p) => default_port(scheme@) == Some(p@),
            None => default_port(scheme@) is None,
        },
{
    if reads_as(scheme, "http") || reads_as(scheme, "ws") {
        Some(chars_of("80"))
    } else if reads_as(scheme, "https") || reads_as(scheme, "wss") {
        Some(chars_of("443"))
    } else if reads_as(scheme, "ftp") {
        Some(chars_of("21"))
    } else {
        None
    }
}

fn drop_default_port(scheme: &Vec<char>, rest: Vec<char>) -> (kept: Vec<char>)
    ensures
        kept@ == without_default_port(scheme@, rest@),
{
    match port_of(scheme) {
        Some(port) => {
            let mut marker: Vec<char> = Vec::new();
            marker.push(':');
            append_text(&mut marker, &port);
            assert(marker@ =~= seq![':'] + port@);
            if matches_at(&rest, &marker, 0) && !(rest.len() > marker.len() && '0'
                <= rest[marker.len()] && rest[marker.len()] <= '9') {
                let kept = copy_range(&rest, marker.len(), rest.len());
                assert(kept@ =~= rest@.skip(marker.len() as int));
                kept
            } else {
                rest
            }
        },
        None => rest,
    }
}

impl Request {
    #[verifier::type_invariant]
    closed spec fn valid(&self) -> bool {
        self@.wf()
    }

    /// Reads the two addresses of a request and normalises them.
    pub fn new(url: &str, source_url: &str, resource_type: ResourceType) -> (request: Result<
        Request,
        RequestError,
    >)
        ensures
            match request {
                Ok(r) => request_of(address_parts(url@), address_parts(source_url@), resource_type)
                    == Ok::<RequestView, RequestError>(r@) && r@.wf(),
                Err(e) => request_of(address_parts(url@), address_parts(source_url@), resource_type)
                    == Err::<RequestView, RequestError>(e),
            },
    {
        let target = split_address(url);
        let source = split_address(source_url);
        Self::from_parts(target, source, resource_type)
    }

    /// Normalises a request whose two addresses have been taken apart.
    pub fn from_parts(
        target: Option<UrlParts>,
        source: Option<UrlParts>,
        resource_type: ResourceType,
    ) -> (request: Result<Request, RequestError>)
        ensures
            match request {
                Ok(r) => request_of(parts_view(target), parts_view(source), resource_type) == Ok::<
                    RequestView,
                    RequestError,
                >(r@) && r@.wf(),
                Err(e) => request_of(parts_view(target), parts_view(source), resource_type) == Err::<
                    RequestView,
                    RequestError,
                >(e),
            },
    {
        let t = match target {
            Some(t) => t,
            None => {
                return Err(RequestError::Target);
            },
        };
        let url = chars_of(t.url.as_str());
        let hostname = chars_of(t.hostname.as_str());
        if !(t.host_start < t.host_end && t.host_end <= url.len()) {
            return Err(RequestError::Target);
        }
        if hostname.len() != t.host_end - t.host_start || !matches_at(
            &url,
            &hostname,
            t.host_start,
        ) {
            return Err(RequestError::Target);
        }
        let s = match source {
            Some(s) => s,
            None => {
                return Err(RequestError::Source);
            },
        };
        let folded = fold_text(&url);
        let mut full = copy_range(&folded, 0, t.host_end);
        let rest = copy_range(&folded, t.host_end, folded.len());
        let scheme = fold_text(&chars_of(t.scheme.as_str()));
        let kept = drop_default_port(&scheme, rest);
        append_text(&mut full, &kept);
        let source_host = fold_text(&chars_of(s.hostname.as_str()));
        let source_domain = fold_text(&chars_of(s.domain.as_str()));
        let target_domain = fold_text(&chars_of(t.domain.as_str()));
        let third_party = !same_text(&source_domain, &target_domain);
        proof {
            assert(folded@.take(t.host_end as int) =~= folded@.subrange(0, t.host_end as int));
            assert(folded@.skip(t.host_end as int) =~= folded@.subrange(
                t.host_end as int,
                folded@.len() as int,
            ));
        }
        Ok(
            Request {
                url: full,
                host_start: t.host_start,
                host_end: t.host_end,
                source_host,
                third_party,
                resource_type,
            },
        )
    }

    /// The target address as patterns are matched against it.
    pub fn url(&self) -> (url: &Vec<char>)
        ensures
            url@ == self@.url,
            self@.wf(),
    {
        proof {
            use_type_invariant(self);
        }
        &self.url
    }

    /// The target address, normalised, as a string.
    pub fn address(&self) -> (text: String)
        ensures
            text@ == self@.url,
    {
        string_of(&self.url)
    }

    /// The target's host name.
    pub fn host(&self) -> (text: String)
        ensures
            text@ == self@.host(),
    {
        proof {
            use_type_invariant(self);
        }
        string_of(&copy_range(&self.url, self.host_start, self.host_end))
    }

    /// The host name of the page that asks.
    pub fn source(&self) -> (text: String)
        ensures
            text@ == self@.source_host,
    {
        string_of(&self.source_host)
    }

    pub fn host_start(&self) -> (at: usize)
        ensures
            at == self@.host_start,
    {
        self.host_start
    }

    pub fn host_end(&self) -> (at: usize)
        ensures
            at == self@.host_end,
    {
        self.host_end
    }

    pub fn source_host(&self) -> (host: &Vec<char>)
        ensures
            host@ == self@.source_host,
    {
        &self.source_host
    }

    pub fn third_party(&self) -> (b: bool)
        ensures
            b == self@.third_party,
    {
        self.third_party
    }

    pub fn resource_type(&self) -> (t: ResourceType)
        ensures
            t == self@.resource_type,
    {
        self.resource_type
    }
}

} // verus!

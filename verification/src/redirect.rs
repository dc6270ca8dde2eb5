//! The machine that follows redirections.

use crate::head::{check_text, is_text};
use crate::message::{
    copy_bytes, copy_part, field_value, fields, find_header, location_name,
    location_name_bytes, names_match, part_view, same_name, wire, Request, Uri, UriView,
};
use crate::send::{
    resumed as send_resumed, Phase, SendHttp, SendHttpError, SendHttpOk, SendHttpResult,
};
use crate::stream::accurate;
use io_stream::io::StreamIo;
use vstd::prelude::*;

verus! {

/// Why the machine stopped.
#[derive(Debug)]
pub enum FollowHttpRedirectsError {
    /// A redirection came without a `Location` header.
    MissingLocationHeader,
    /// The `Location` header, given here, is no text. With it comes the error
    /// of `http`, where `http` takes the bytes for a header value at all.
    InvalidLocationHeader(Option<http::header::ToStrError>, Vec<u8>),
    /// The `Location` header, given here, is no URI, for the reason that comes
    /// with it, or is one that cannot take the place of the request's.
    InvalidLocationUri(Option<http::uri::InvalidUri>, Vec<u8>),
    /// The machine was redirected too many times.
    TooManyRedirects,
    /// The exchange stopped on an error.
    SendHttp(SendHttpError),
}

/// What a call of [`FollowHttpRedirects::resume`] came to.
#[derive(Debug)]
pub enum FollowHttpRedirectsResult {
    /// The last exchange is complete, and its response is no redirection.
    Done(SendHttpOk),
    /// The machine stopped on an error.
    Failed(FollowHttpRedirectsError),
    /// The machine wants this I/O done.
    Io(StreamIo),
    /// The machine wants a new stream, to this URI, in place of the current
    /// one. This is no error: the machine expects to be resumed.
    Reset(Uri),
}

/// `http::header::ToStrError`: a header value is no text.
#[verifier::external_type_specification]
#[verifier::external_body]
pub struct ExToStrError(http::header::ToStrError);

/// Every byte may stand in a header value: none is a control character but the
/// tab.
pub open spec fn is_header_value(value: Seq<u8>) -> bool {
    forall|i: int| 0 <= i < value.len() ==> (#[trigger] value[i] >= 32 && value[i] != 127)
        || value[i] == 9
}

/// `http::HeaderValue::from_bytes` and `HeaderValue::to_str`: the error with
/// which `http` refuses to read a header value as text. There is one where the
/// bytes are a header value and not all of them visible ASCII or tabs.
#[verifier::external_body]
pub(crate) fn text_error(value: &[u8]) -> (r: Option<http::header::ToStrError>)
    ensures
        match r {
            Some(_) => is_header_value(value@) && !is_text(value@),
            None => !is_header_value(value@) || is_text(value@),
        },
{
    match http::HeaderValue::from_bytes(value) {
        Ok(header) => header.to_str().err(),
        Err(_) => None,
    }
}

/// `http::uri::InvalidUri`: why a text is no URI.
#[verifier::external_type_specification]
#[verifier::external_body]
pub struct ExInvalidUri(http::uri::InvalidUri);

/// The URI that `http` reads in a text.
pub uninterp spec fn parsed_uri(text: Seq<u8>) -> Option<UriView>;

/// `http::Uri::try_from` on bytes, which is what parsing a string as a
/// `http::Uri` does, and `http::Uri::into_parts`: a URI in its parts, each as
/// `as_str` gives it; the error of `http` where the text is no URI.
#[verifier::external_body]
pub(crate) fn parse_uri(text: &[u8]) -> (r: Result<Uri, http::uri::InvalidUri>)
    ensures
        match r {
            Ok(uri) => parsed_uri(text@) == Some(uri@),
            Err(_) => parsed_uri(text@) is None,
        },
{
    match http::Uri::try_from(text) {
        Ok(uri) => {
            let parts = uri.into_parts();
            Ok(Uri {
                scheme: parts.scheme.map(|s| s.as_str().as_bytes().to_vec()),
                authority: parts.authority.map(|a| a.as_str().as_bytes().to_vec()),
                path_and_query: parts.path_and_query.map(|p| p.as_str().as_bytes().to_vec()),
            })
        },
        Err(err) => Err(err),
    }
}

/// A status of the class 3xx.
pub open spec fn is_redirection(status: u16) -> bool {
    300 <= status < 400
}

/// The URI of the next request: scheme and authority of the location where it
/// has them, else those of the current URI; path and query of the location.
pub open spec fn merged(current: UriView, location: UriView) -> UriView {
    UriView {
        scheme: if location.scheme is Some {
            location.scheme
        } else {
            current.scheme
        },
        authority: if location.authority is Some {
            location.authority
        } else {
            current.authority
        },
        path_and_query: location.path_and_query,
    }
}

/// The parts make a URI: with a scheme come an authority and a path; without
/// one, not both.
pub open spec fn consistent(uri: UriView) -> bool {
    if uri.scheme is Some {
        uri.authority is Some && uri.path_and_query is Some
    } else {
        !(uri.authority is Some && uri.path_and_query is Some)
    }
}

/// Two optional parts are the same, but for the case of letters.
pub open spec fn same_part(a: Option<Seq<u8>>, b: Option<Seq<u8>>) -> bool {
    match (a, b) {
        (Some(a), Some(b)) => same_name(a, b),
        (None, None) => true,
        _ => false,
    }
}

/// The stream cannot carry the next request: it closes, or the location names
/// another scheme or authority than the request did.
pub open spec fn needs_reset(keep_alive: bool, current: UriView, location: UriView) -> bool {
    !keep_alive || !same_part(current.scheme, location.scheme) || !same_part(
        current.authority,
        location.authority,
    )
}

/// What the `Location` of a redirection comes to.
pub enum Located {
    /// There is no `Location` header.
    Missing,
    /// The header is no text.
    NotText(Seq<u8>),
    /// The header is no URI, or none that can take the place of the request's.
    NotUri(Seq<u8>),
    /// The header names this URI.
    Target(UriView),
}

/// Reads the first `Location` header of a response to the request of the given
/// URI.
pub open spec fn located(ok: SendHttpOk) -> Located {
    match field_value(fields(ok.response.headers@), location_name()) {
        None => Located::Missing,
        Some(value) => if !is_text(value) {
            Located::NotText(value)
        } else {
            match parsed_uri(value) {
                None => Located::NotUri(value),
                Some(location) => if consistent(merged(ok.request.uri@, location)) {
                    Located::Target(location)
                } else {
                    Located::NotUri(value)
                },
            }
        },
    }
}

/// `next` is the request of `ok` again, to the URI that `location` makes of its
/// own.
pub open spec fn is_next(ok: SendHttpOk, location: UriView, next: Request) -> bool {
    &&& next.method == ok.request.method
    &&& next.version == ok.request.version
    &&& next.headers == ok.request.headers
    &&& next.body == ok.request.body
    &&& next.uri@ == merged(ok.request.uri@, location)
}

/// The next step after a redirection.
#[derive(Debug)]
pub struct Hop {
    /// The request to send next.
    pub request: Request,
    /// Its URI.
    pub target: Uri,
    /// Whether it needs a new stream.
    pub reset: bool,
}

fn parts_match(a: &Option<Vec<u8>>, b: &Option<Vec<u8>>) -> (r: bool)
    ensures
        r == same_part(part_view(*a), part_view(*b)),
{
    match a {
        Some(a) => match b {
            Some(b) => names_match(a.as_slice(), b.as_slice()),
            None => false,
        },
        None => b.is_none(),
    }
}

/// Makes the request that follows a redirection to `location`, which was read
/// in `value`: the request of the exchange again, with the location merged
/// into its URI. Fails where the parts do not make a URI.
pub fn merge(ok: SendHttpOk, location: Uri, value: Vec<u8>) -> (r: Result<
    Hop,
    FollowHttpRedirectsError,
>)
    ensures
        if consistent(merged(ok.request.uri@, location@)) {
            r matches Ok(hop) && is_next(ok, location@, hop.request) && hop.target@
                == hop.request.uri@ && hop.reset == needs_reset(
                ok.keep_alive,
                ok.request.uri@,
                location@,
            )
        } else {
            r matches Err(FollowHttpRedirectsError::InvalidLocationUri(why, shown)) && why is None
                && shown == value
        },
{
    let same_scheme = parts_match(&ok.request.uri.scheme, &location.scheme);
    let same_authority = parts_match(&ok.request.uri.authority, &location.authority);
    let reset = !ok.keep_alive || !same_scheme || !same_authority;
    let Request { method, uri, version, headers, body } = ok.request;
    let Uri { scheme: new_scheme, authority: new_authority, path_and_query } = location;
    let scheme = match new_scheme {
        Some(scheme) => Some(scheme),
        None => uri.scheme,
    };
    let authority = match new_authority {
        Some(authority) => Some(authority),
        None => uri.authority,
    };
    let valid = if scheme.is_some() {
        authority.is_some() && path_and_query.is_some()
    } else {
        !(authority.is_some() && path_and_query.is_some())
    };
    if !valid {
        return Err(FollowHttpRedirectsError::InvalidLocationUri(None, value));
    }
    let target = Uri {
        scheme: copy_part(&scheme),
        authority: copy_part(&authority),
        path_and_query: copy_part(&path_and_query),
    };
    let request = Request {
        method,
        uri: Uri { scheme, authority, path_and_query },
        version,
        headers,
        body,
    };
    Ok(Hop { request, target, reset })
}

/// Works out the request that follows a redirection: reads the first
/// `Location` header of the response, and merges it into the URI of the
/// request.
pub fn redirect(ok: SendHttpOk) -> (r: Result<Hop, FollowHttpRedirectsError>)
    ensures
        match located(ok) {
            Located::Missing => r matches Err(FollowHttpRedirectsError::MissingLocationHeader),
            Located::NotText(value) => r matches Err(
                FollowHttpRedirectsError::InvalidLocationHeader(why, shown),
            ) && shown@ == value && (why is Some <==> is_header_value(value)),
            Located::NotUri(value) => r matches Err(
                FollowHttpRedirectsError::InvalidLocationUri(why, shown),
            ) && shown@ == value && (why is Some <==> parsed_uri(value) is None),
            Located::Target(location) => r matches Ok(hop) && is_next(ok, location, hop.request)
                && hop.target@ == hop.request.uri@ && hop.reset == needs_reset(
                ok.keep_alive,
                ok.request.uri@,
                location,
            ),
        },
{
    let name = location_name_bytes();
    let value: Vec<u8> = match find_header(&ok.response.headers, name.as_slice()) {
        Some(value) => copy_bytes(value),
        None => {
            return Err(FollowHttpRedirectsError::MissingLocationHeader);
        },
    };
    if !check_text(value.as_slice()) {
        let why = text_error(value.as_slice());
        return Err(FollowHttpRedirectsError::InvalidLocationHeader(why, value));
    }
    match parse_uri(value.as_slice()) {
        Ok(location) => merge(ok, location, value),
        Err(err) => Err(FollowHttpRedirectsError::InvalidLocationUri(Some(err), value)),
    }
}

/// The machine that follows redirections.
pub struct FollowHttpRedirects {
    send: SendHttp,
    /// The number of redirections that the machine may still follow.
    pub remaining: u8,
}

/// The number of redirections that a new machine may follow.
pub const MAX_REDIRECTS: u8 = 4;

/// The machine as a value: where its exchange stands, the request of that
/// exchange, and the redirections left.
pub struct FollowView {
    pub phase: Phase,
    pub request: Request,
    pub remaining: nat,
}

/// What the machine makes of the result `inner` of its exchange, which then
/// stands at `mid`.
///
/// I/O and errors are handed on. A complete exchange is the result unless its
/// status is a redirection. For a redirection the machine makes the next
/// request and a fresh exchange for it, which costs one of the redirections
/// left. Then it asks for a new stream where the old one cannot be used; else
/// it stops where no redirection is left; else the fresh exchange starts at
/// once, and asks for its request to be written.
pub open spec fn lifted(
    before: FollowView,
    inner: SendHttpResult,
    mid: Phase,
    r: FollowHttpRedirectsResult,
    after: FollowView,
) -> bool {
    match inner {
        SendHttpResult::Failed(err) => r == FollowHttpRedirectsResult::Failed(
            FollowHttpRedirectsError::SendHttp(err),
        ) && after.remaining == before.remaining,
        SendHttpResult::Io(io) => r == FollowHttpRedirectsResult::Io(io) && after == (FollowView {
            phase: mid,
            request: before.request,
            remaining: before.remaining,
        }),
        SendHttpResult::Done(ok) => if !is_redirection(ok.response.status) {
            r == FollowHttpRedirectsResult::Done(ok) && after.remaining == before.remaining
        } else {
            match located(ok) {
                Located::Missing => r matches FollowHttpRedirectsResult::Failed(
                    FollowHttpRedirectsError::MissingLocationHeader,
                ) && after.remaining == before.remaining,
                Located::NotText(value) => (r matches FollowHttpRedirectsResult::Failed(
                    FollowHttpRedirectsError::InvalidLocationHeader(why, shown),
                ) && shown@ == value && (why is Some <==> is_header_value(value)))
                    && after.remaining == before.remaining,
                Located::NotUri(value) => (r matches FollowHttpRedirectsResult::Failed(
                    FollowHttpRedirectsError::InvalidLocationUri(why, shown),
                ) && shown@ == value && (why is Some <==> parsed_uri(value) is None))
                    && after.remaining == before.remaining,
                Located::Target(location) => {
                    &&& is_next(ok, location, after.request)
                    &&& after.remaining == before.remaining - 1
                    &&& if needs_reset(ok.keep_alive, ok.request.uri@, location) {
                        (r matches FollowHttpRedirectsResult::Reset(uri) && uri@
                            == after.request.uri@) && after.phase == Phase::Serialize
                    } else if before.remaining == 1 {
                        r matches FollowHttpRedirectsResult::Failed(
                            FollowHttpRedirectsError::TooManyRedirects,
                        ) && after.phase == Phase::Serialize
                    } else {
                        (r matches FollowHttpRedirectsResult::Io(StreamIo::Write(Err(bytes)))
                            && bytes@ == wire(after.request)) && after.phase == Phase::Send(
                            Seq::empty(),
                        )
                    }
                },
            }
        },
    }
}

/// What a call of `resume` returns and where it leaves the machine, for a
/// machine that stood at `before` and a driver that answered `arg`.
///
/// With no redirection left the machine fails. Else it resumes its exchange
/// with the driver's answer, and goes by the result.
pub open spec fn followed(
    before: FollowView,
    arg: Option<StreamIo>,
    r: FollowHttpRedirectsResult,
    after: FollowView,
) -> bool {
    if before.remaining == 0 {
        r matches FollowHttpRedirectsResult::Failed(FollowHttpRedirectsError::TooManyRedirects)
            && after == before
    } else {
        exists|inner: SendHttpResult, mid: Phase|
            #![auto]
            send_resumed(before.phase, before.request, arg, inner, mid) && lifted(
                before,
                inner,
                mid,
                r,
                after,
            )
    }
}

impl FollowHttpRedirects {
    /// The machine as a value.
    pub closed spec fn view(&self) -> FollowView {
        FollowView {
            phase: self.send@,
            request: self.send.request(),
            remaining: self.remaining as nat,
        }
    }

    /// The exchange inside is well formed.
    pub closed spec fn wf(&self) -> bool {
        self.send.wf()
    }

    /// A machine that follows the redirections of the given exchange, four at
    /// most.
    pub fn new(send: SendHttp) -> (machine: Self)
        requires
            send.wf(),
        ensures
            machine.wf(),
            machine@ == (FollowView {
                phase: send@,
                request: send.request(),
                remaining: MAX_REDIRECTS as nat,
            }),
    {
        FollowHttpRedirects { send, remaining: MAX_REDIRECTS }
    }

    /// A machine that follows the redirections of the given exchange, `limit`
    /// at most.
    pub fn with_limit(send: SendHttp, limit: u8) -> (machine: Self)
        requires
            send.wf(),
        ensures
            machine.wf(),
            machine@ == (FollowView {
                phase: send@,
                request: send.request(),
                remaining: limit as nat,
            }),
    {
        FollowHttpRedirects { send, remaining: limit }
    }

    /// The number of redirections that the machine may still follow.
    pub fn redirects_left(&self) -> (left: u8)
        ensures
            left == self@.remaining,
    {
        self.remaining
    }

    /// Makes the machine progress.
    pub fn resume(&mut self, arg: Option<StreamIo>) -> (r: FollowHttpRedirectsResult)
        requires
            old(self).wf(),
            accurate(arg),
        ensures
            final(self).wf(),
            followed(old(self)@, arg, r, final(self)@),
    {
        let mut pending = arg;
        loop
            invariant
                self.wf(),
                accurate(pending),
                forall|r: FollowHttpRedirectsResult, after: FollowView| #[trigger]
                    followed(self@, pending, r, after) ==> followed(old(self)@, arg, r, after),
            decreases self.remaining,
        {
            let ghost here = self@;
            let ghost given = pending;
            if self.remaining == 0 {
                let r = FollowHttpRedirectsResult::Failed(
                    FollowHttpRedirectsError::TooManyRedirects,
                );
                assert(followed(here, given, r, self@));
                return r;
            }
            let inner = self.send.resume(pending.take());
            let ghost witness = inner;
            let ghost mid = self.send@;
            assert(send_resumed(here.phase, here.request, given, witness, mid));
            let ok = match inner {
                SendHttpResult::Done(ok) => ok,
                SendHttpResult::Failed(err) => {
                    let r = FollowHttpRedirectsResult::Failed(
                        FollowHttpRedirectsError::SendHttp(err),
                    );
                    assert(lifted(here, witness, mid, r, self@));
                    assert(followed(here, given, r, self@));
                    return r;
                },
                SendHttpResult::Io(io) => {
                    let r = FollowHttpRedirectsResult::Io(io);
                    assert(lifted(here, witness, mid, r, self@));
                    assert(followed(here, given, r, self@));
                    return r;
                },
            };
            if !(300 <= ok.response.status && ok.response.status < 400) {
                let r = FollowHttpRedirectsResult::Done(ok);
                assert(lifted(here, witness, mid, r, self@));
                assert(followed(here, given, r, self@));
                return r;
            }
            match redirect(ok) {
                Err(err) => {
                    let r = FollowHttpRedirectsResult::Failed(err);
                    assert(lifted(here, witness, mid, r, self@));
                    assert(followed(here, given, r, self@));
                    return r;
                },
                Ok(hop) => {
                    self.send = SendHttp::new(hop.request);
                    self.remaining -= 1;
                    if hop.reset {
                        let r = FollowHttpRedirectsResult::Reset(hop.target);
                        assert(lifted(here, witness, mid, r, self@));
                        assert(followed(here, given, r, self@));
                        return r;
                    }
                    assert forall|r: FollowHttpRedirectsResult, after: FollowView| #[trigger]
                        followed(self@, pending, r, after) implies followed(
                        here,
                        given,
                        r,
                        after,
                    ) by {
                        assert(lifted(here, witness, mid, r, after));
                    }
                },
            }
        }
    }
}

/// A call of `resume` never raises the number of redirections left, and lowers
/// it by one at most. It lowers it exactly where it makes a fresh exchange,
/// which has then not sent anything yet or has just asked for its request to
/// be written.
pub proof fn lemma_resume_spends_one_redirect_at_most(
    before: FollowView,
    arg: Option<StreamIo>,
    r: FollowHttpRedirectsResult,
    after: FollowView,
)
    requires
        followed(before, arg, r, after),
    ensures
        after.remaining <= before.remaining <= after.remaining + 1,
        after.remaining < before.remaining ==> after.phase == Phase::Serialize || after.phase
            == Phase::Send(Seq::empty()),
{
}

/// Some call of `resume` takes the machine from `before` to `after`.
pub open spec fn follows(before: FollowView, after: FollowView) -> bool {
    exists|arg: Option<StreamIo>, r: FollowHttpRedirectsResult|
        #![auto]
        followed(before, arg, r, after)
}

/// Some call of `resume` takes the machine from `states[i]` to the next state.
pub open spec fn resumed_at(states: Seq<FollowView>, i: int) -> bool {
    follows(states[i], states[i + 1])
}

/// A machine made by `new` makes four fresh exchanges at most, however often it
/// is resumed and whatever the driver answers: with the exchange that it was
/// given, five exchanges at most. `states` holds the machine after each call.
pub proof fn lemma_at_most_four_redirects(states: Seq<FollowView>, upto: int)
    requires
        states.len() > 0,
        states[0].remaining == MAX_REDIRECTS,
        forall|i: int| 0 <= i < states.len() - 1 ==> #[trigger] resumed_at(states, i),
        0 <= upto < states.len(),
    ensures
        states[upto].remaining <= MAX_REDIRECTS,
        spent(states, upto) == MAX_REDIRECTS - states[upto].remaining,
        spent(states, upto) <= 4,
    decreases upto,
{
    if upto > 0 {
        lemma_at_most_four_redirects(states, upto - 1);
        assert(resumed_at(states, upto - 1));
        let before = states[upto - 1];
        let after = states[upto];
        assert(follows(before, after));
        let (arg, r) = choose|arg: Option<StreamIo>, r: FollowHttpRedirectsResult|
            #![auto]
            followed(before, arg, r, after);
        lemma_resume_spends_one_redirect_at_most(before, arg, r, after);
    }
}

/// The number of fresh exchanges made in the first `upto` calls: one for each
/// call that lowered the number of redirections left.
pub open spec fn spent(states: Seq<FollowView>, upto: int) -> nat
    decreases upto,
{
    if upto <= 0 {
        0
    } else {
        spent(states, upto - 1) + if states[upto].remaining < states[upto - 1].remaining {
            1nat
        } else {
            0nat
        }
    }
}

} // verus!

//! The exchanges with the provider's portal: logging in, fetching the
//! channel list and a channel's programmes. Each is a sequence of requests
//! whose next step depends on what came back; the functions here decide
//! that next step, the caller makes the requests.
use vstd::prelude::*;

use crate::cache::{Channel, Program};
use crate::config::{ChannelNumberOverrides, ProviderConfig};
use crate::ctc::{
    assign_channel_numbers, authenticator_spec, build_authenticator, build_prevue_url,
    cookie_value_spec, document_location_spec, encode_query_component, encry_token_spec,
    epg_base_from_url, epg_base_spec, hidden_entries, mapped_numbers, mixno_mapping_spec,
    numbers_view, override_numbers, parse_channels, parse_cookie_value, parse_document_location,
    parse_encry_token, parse_hidden_inputs, parse_mixno_mapping, parse_programs,
    parse_programs_spec, parse_set_config, prevue_url_spec, program_views, query_encode,
    raw_views, set_config_entries, user_channel_numbers, user_numbers, channel_entries,
    RawChannel,
};
use crate::numbering::{all_distinct, numbers_assigned};
use crate::pairs::{assoc_from, assoc_get, lookup, pairs_view};
use crate::stream::{
    missing_udpxy_message, opt_view, resolve_spec, resolve_stream_url, StreamProxyConfig,
};
use crate::text::{
    chars_of, ends_with, extend_chars, has_suffix, lit, slice_vec, string_of, strip_trailing,
    strip_trailing_chars,
};
use vstd::utf8::encode_utf8;

verus! {

/// A logged-in portal session.
#[derive(Debug, PartialEq, Eq)]
pub struct LoginSession {
    pub epg_lb_base: String,
    pub jsession_id: String,
    pub user_token: String,
    pub user_id: String,
}

impl Clone for LoginSession {
    fn clone(&self) -> (r: Self)
        ensures
            r == *self,
    {
        LoginSession {
            epg_lb_base: self.epg_lb_base.clone(),
            jsession_id: self.jsession_id.clone(),
            user_token: self.user_token.clone(),
            user_id: self.user_id.clone(),
        }
    }
}

/// A request to the portal.
#[derive(Debug)]
pub enum PortalRequest {
    Get { url: String, cookie: Option<String> },
    PostForm { url: String, fields: Vec<(String, String)>, cookie: Option<String> },
}

/// What the portal answered: the URL reached after redirects, the values of
/// its `Set-Cookie` headers, and the body or why it could not be read.
#[derive(Debug)]
pub struct PortalReply {
    pub final_url: String,
    pub set_cookies: Vec<String>,
    pub body: Result<String, String>,
}

pub open spec fn is_get(r: PortalRequest, url: Seq<char>, cookie: Option<Seq<char>>) -> bool {
    r matches PortalRequest::Get { url: u, cookie: c } && u@ == url && opt_view(c) == cookie
}

pub open spec fn is_post(
    r: PortalRequest,
    url: Seq<char>,
    fields: Seq<(Seq<char>, Seq<char>)>,
    cookie: Option<Seq<char>>,
) -> bool {
    r matches PortalRequest::PostForm { url: u, fields: f, cookie: c } && u@ == url && pairs_view(
        f@,
    ) == fields && opt_view(c) == cookie
}

/// The value of the first `JSESSIONID` cookie that the headers set.
pub open spec fn session_cookie_spec(headers: Seq<String>) -> Option<Seq<char>>
    decreases headers.len(),
{
    if headers.len() == 0 {
        None
    } else {
        match cookie_value_spec(headers[0]@, "JSESSIONID"@) {
            Some(v) => Some(v),
            None => session_cookie_spec(headers.drop_first()),
        }
    }
}

pub fn session_cookie(headers: &Vec<String>) -> (r: Option<String>)
    ensures
        match session_cookie_spec(headers@) {
            Some(v) => r matches Some(x) && x@ == v,
            None => r is None,
        },
{
    let mut i: usize = 0;
    assert(headers@.skip(0) =~= headers@);
    while i < headers.len()
        invariant
            i <= headers@.len(),
            session_cookie_spec(headers@) == session_cookie_spec(headers@.skip(i as int)),
        decreases headers@.len() - i,
    {
        assert(headers@.skip(i as int).drop_first() =~= headers@.skip(i + 1));
        match parse_cookie_value(headers[i].as_str(), "JSESSIONID") {
            Some(v) => return Some(v),
            None => {},
        }
        i = i + 1;
    }
    None
}

fn concat(a: &str, b: &str) -> (r: String)
    ensures
        r@ == a@ + b@,
{
    let mut out = chars_of(a);
    extend_chars(&mut out, chars_of(b).as_slice());
    string_of(out.as_slice())
}

fn pair(a: &str, b: &str) -> (r: (String, String))
    ensures
        r.0@ == a@,
        r.1@ == b@,
{
    (String::from_str(a), String::from_str(b))
}

// ---------------------------------------------------------------------------
// Logging in
// ---------------------------------------------------------------------------

/// Where the login exchange stands, with what it has learnt so far.
#[derive(Debug)]
pub enum LoginState {
    AwaitLoginPage,
    AwaitUpload,
    AwaitServiceList { user_token: String },
    AwaitRedirect { user_token: String },
    AwaitPortal { user_token: String },
    AwaitPortalAuth { user_token: String, epg_lb_base: String, jsession_id: String },
}

/// A login in progress.
#[derive(Debug)]
pub struct LoginFlow {
    pub provider: ProviderConfig,
    pub auth_base: String,
    pub rand: u64,
    pub state: LoginState,
}

/// What a login does next.
#[derive(Debug)]
pub enum LoginStep {
    Continue { flow: LoginFlow, request: PortalRequest },
    Done(LoginSession),
    Failed(String),
}

pub open spec fn fails_with(r: LoginStep, m: Seq<char>) -> bool {
    r matches LoginStep::Failed(x) && x@ == m
}

/// The flow goes on with the same provider, base and random number.
pub open spec fn goes_on(r: LoginStep, f: LoginFlow) -> bool {
    r matches LoginStep::Continue { flow: g, request: _ } && g.provider == f.provider && g.auth_base
        == f.auth_base && g.rand == f.rand
}

/// The authentication server's base URL, without trailing slashes.
pub open spec fn auth_base_spec(p: ProviderConfig) -> Seq<char> {
    strip_trailing(p.auth_server_url@, '/')
}

pub open spec fn login_page_url(p: ProviderConfig) -> Seq<char> {
    auth_base_spec(p) + "/auth?UserID="@ + query_encode(encode_utf8(p.user_id@)) + "&Action=Login"@
}

pub open spec fn upload_fields(user: Seq<char>, authenticator: Seq<char>) -> Seq<(Seq<char>, Seq<char>)> {
    seq![
        ("UserID"@, user),
        ("Authenticator"@, authenticator),
        ("AccessMethod"@, "dhcp"@),
        ("AccessUserName"@, user),
    ]
}

/// The body of a reply, or why there is none.
pub open spec fn reply_body(reply: Result<PortalReply, String>) -> Result<Seq<char>, Seq<char>> {
    match reply {
        Err(e) => Err(e@),
        Ok(r) => match r.body {
            Err(e) => Err(e@),
            Ok(b) => Ok(b@),
        },
    }
}

/// What the next step of a login is, given the reply to its last request.
pub open spec fn login_step_ok(f: LoginFlow, reply: Result<PortalReply, String>, r: LoginStep) -> bool {
    let p = f.provider;
    match f.state {
        LoginState::AwaitLoginPage => match reply_body(reply) {
            Err(e) => fails_with(r, e),
            Ok(page) => match encry_token_spec(page) {
                None => fails_with(r, "EncryToken not found"@),
                Some(tok) => match authenticator_spec(
                    p.user_id@,
                    p.password@,
                    p.stb_id@,
                    p.local_ip@,
                    p.local_mac@,
                    tok,
                    f.rand,
                ) {
                    Err(m) => fails_with(r, m),
                    Ok(a) => goes_on(r, f) && r->flow.state is AwaitUpload && is_post(
                        r->request,
                        f.auth_base@ + "/uploadAuthInfo"@,
                        upload_fields(p.user_id@, a),
                        None,
                    ),
                },
            },
        },
        LoginState::AwaitUpload => match reply_body(reply) {
            Err(e) => fails_with(r, e),
            Ok(body) => {
                let config = assoc_from(set_config_entries(body));
                if config.len() == 0 {
                    fails_with(r, "uploadAuthInfo response had no CTCSetConfig entries"@)
                } else {
                    match assoc_get(config, "UserToken"@) {
                        None => fails_with(r, "UserToken missing"@),
                        Some(t) => goes_on(r, f) && (r->flow.state matches LoginState::AwaitServiceList {
                            user_token,
                        } && user_token@ == t) && is_get(
                            r->request,
                            f.auth_base@ + "/getServiceList"@,
                            Some("UserToken="@ + t),
                        ),
                    }
                }
            },
        },
        LoginState::AwaitServiceList { user_token } => match reply_body(reply) {
            Err(e) => fails_with(r, e),
            Ok(body) => match document_location_spec(body) {
                None => fails_with(r, "getServiceList redirect missing"@),
                Some(u) => goes_on(r, f) && (r->flow.state matches LoginState::AwaitRedirect {
                    user_token: t,
                } && t@ == user_token@) && is_get(r->request, u, None),
            },
        },
        LoginState::AwaitRedirect { user_token } => match reply_body(reply) {
            Err(e) => fails_with(r, e),
            Ok(body) => match document_location_spec(body) {
                None => fails_with(r, "EPG load-balanced redirect missing"@),
                Some(u) => goes_on(r, f) && (r->flow.state matches LoginState::AwaitPortal {
                    user_token: t,
                } && t@ == user_token@) && is_get(r->request, u, None),
            },
        },
        LoginState::AwaitPortal { user_token } => match reply {
            Err(e) => fails_with(r, e@),
            Ok(rep) => match session_cookie_spec(rep.set_cookies@) {
                None => fails_with(r, "JSESSIONID cookie missing"@),
                Some(js) => match rep.body {
                    Err(e) => fails_with(r, e@),
                    Ok(html) => {
                        let base = epg_base_spec(rep.final_url@);
                        goes_on(r, f) && (r->flow.state matches LoginState::AwaitPortalAuth {
                            user_token: t,
                            epg_lb_base: b,
                            jsession_id: j,
                        } && t@ == user_token@ && b@ == base && j@ == js) && is_post(
                            r->request,
                            base + "funcportalauth.jsp"@,
                            assoc_from(hidden_entries(html@, 0)),
                            Some("JSESSIONID="@ + js),
                        )
                    },
                },
            },
        },
        LoginState::AwaitPortalAuth { user_token, epg_lb_base, jsession_id } => r matches LoginStep::Done(
            s,
        ) && s.epg_lb_base@ == epg_lb_base@ && s.jsession_id@ == jsession_id@ && s.user_token@
            == user_token@ && s.user_id@ == p.user_id@,
    }
}

/// How far a login has come: the number of replies it has had.
pub open spec fn login_stage(s: LoginState) -> nat {
    match s {
        LoginState::AwaitLoginPage => 0,
        LoginState::AwaitUpload => 1,
        LoginState::AwaitServiceList { .. } => 2,
        LoginState::AwaitRedirect { .. } => 3,
        LoginState::AwaitPortal { .. } => 4,
        LoginState::AwaitPortalAuth { .. } => 5,
    }
}

/// Every reply either ends a login or moves it one stage on, and the last
/// stage always ends it; so a login sends at most six requests, and only
/// the reply to the last one, whatever it is, completes it.
pub proof fn law_login_progresses(f: LoginFlow, reply: Result<PortalReply, String>, r: LoginStep)
    requires
        login_step_ok(f, reply, r),
    ensures
        r matches LoginStep::Continue { flow: g, request: _ } ==> login_stage(g.state) == login_stage(
            f.state,
        ) + 1 && login_stage(g.state) <= 5,
        r is Done <==> f.state is AwaitPortalAuth,
{
}

fn body_of(reply: &Result<PortalReply, String>) -> (r: Result<String, String>)
    ensures
        match reply_body(*reply) {
            Ok(b) => r matches Ok(x) && x@ == b,
            Err(e) => r matches Err(x) && x@ == e,
        },
{
    match reply {
        Err(e) => Err(e.clone()),
        Ok(rep) => match &rep.body {
            Err(e) => Err(e.clone()),
            Ok(b) => Ok(b.clone()),
        },
    }
}

impl LoginFlow {
    /// Starts a login: the first request asks for the login page.
    pub fn start(provider: &ProviderConfig, rand: u64) -> (r: (LoginFlow, PortalRequest))
        ensures
            r.0.provider == *provider,
            r.0.auth_base@ == auth_base_spec(*provider),
            r.0.rand == rand,
            r.0.state is AwaitLoginPage,
            is_get(r.1, login_page_url(*provider), None),
    {
        let base = strip_trailing_chars(chars_of(provider.auth_server_url.as_str()).as_slice(), '/');
        let mut url = base.clone();
        extend_chars(&mut url, lit("/auth?UserID=").as_slice());
        extend_chars(&mut url, encode_query_component(provider.user_id.as_str()).as_slice());
        extend_chars(&mut url, lit("&Action=Login").as_slice());
        let flow = LoginFlow {
            provider: provider.clone(),
            auth_base: string_of(base.as_slice()),
            rand,
            state: LoginState::AwaitLoginPage,
        };
        (flow, PortalRequest::Get { url: string_of(url.as_slice()), cookie: None })
    }

    /// The next step of the login, given the reply to its last request.
    pub fn advance(self, reply: Result<PortalReply, String>) -> (r: LoginStep)
        ensures
            login_step_ok(self, reply, r),
    {
        let ghost f = self;
        let LoginFlow { provider, auth_base, rand, state } = self;
        match state {
            LoginState::AwaitLoginPage => {
                let page = match body_of(&reply) {
                    Ok(b) => b,
                    Err(e) => return LoginStep::Failed(e),
                };
                let token = match parse_encry_token(page.as_str()) {
                    Some(t) => t,
                    None => return LoginStep::Failed(String::from_str("EncryToken not found")),
                };
                let authenticator = match build_authenticator(
                    provider.user_id.as_str(),
                    provider.password.as_str(),
                    provider.stb_id.as_str(),
                    provider.local_ip.as_str(),
                    provider.local_mac.as_str(),
                    token.as_str(),
                    rand,
                ) {
                    Ok(a) => a,
                    Err(m) => return LoginStep::Failed(m),
                };
                let url = concat(auth_base.as_str(), "/uploadAuthInfo");
                let mut fields: Vec<(String, String)> = Vec::new();
                fields.push(pair("UserID", provider.user_id.as_str()));
                fields.push(pair("Authenticator", authenticator.as_str()));
                fields.push(pair("AccessMethod", "dhcp"));
                fields.push(pair("AccessUserName", provider.user_id.as_str()));
                assert(pairs_view(fields@) =~= upload_fields(provider.user_id@, authenticator@));
                LoginStep::Continue {
                    flow: LoginFlow { provider, auth_base, rand, state: LoginState::AwaitUpload },
                    request: PortalRequest::PostForm { url, fields, cookie: None },
                }
            },
            LoginState::AwaitUpload => {
                let body = match body_of(&reply) {
                    Ok(b) => b,
                    Err(e) => return LoginStep::Failed(e),
                };
                let config = parse_set_config(body.as_str());
                if config.len() == 0 {
                    return LoginStep::Failed(
                        String::from_str("uploadAuthInfo response had no CTCSetConfig entries"),
                    );
                }
                let token = match lookup(&config, "UserToken") {
                    Some(t) => t,
                    None => return LoginStep::Failed(String::from_str("UserToken missing")),
                };
                let url = concat(auth_base.as_str(), "/getServiceList");
                let cookie = concat("UserToken=", token.as_str());
                LoginStep::Continue {
                    flow: LoginFlow {
                        provider,
                        auth_base,
                        rand,
                        state: LoginState::AwaitServiceList { user_token: token },
                    },
                    request: PortalRequest::Get { url, cookie: Some(cookie) },
                }
            },
            LoginState::AwaitServiceList { user_token } => {
                let body = match body_of(&reply) {
                    Ok(b) => b,
                    Err(e) => return LoginStep::Failed(e),
                };
                let url = match parse_document_location(body.as_str()) {
                    Some(u) => u,
                    None => return LoginStep::Failed(
                        String::from_str("getServiceList redirect missing"),
                    ),
                };
                LoginStep::Continue {
                    flow: LoginFlow {
                        provider,
                        auth_base,
                        rand,
                        state: LoginState::AwaitRedirect { user_token },
                    },
                    request: PortalRequest::Get { url, cookie: None },
                }
            },
            LoginState::AwaitRedirect { user_token } => {
                let body = match body_of(&reply) {
                    Ok(b) => b,
                    Err(e) => return LoginStep::Failed(e),
                };
                let url = match parse_document_location(body.as_str()) {
                    Some(u) => u,
                    None => return LoginStep::Failed(
                        String::from_str("EPG load-balanced redirect missing"),
                    ),
                };
                LoginStep::Continue {
                    flow: LoginFlow {
                        provider,
                        auth_base,
                        rand,
                        state: LoginState::AwaitPortal { user_token },
                    },
                    request: PortalRequest::Get { url, cookie: None },
                }
            },
            LoginState::AwaitPortal { user_token } => {
                let rep = match reply {
                    Ok(rep) => rep,
                    Err(e) => return LoginStep::Failed(e),
                };
                let jsession_id = match session_cookie(&rep.set_cookies) {
                    Some(j) => j,
                    None => return LoginStep::Failed(String::from_str("JSESSIONID cookie missing")),
                };
                let html = match rep.body {
                    Ok(b) => b,
                    Err(e) => return LoginStep::Failed(e),
                };
                let base = epg_base_from_url(rep.final_url.as_str());
                let hidden = parse_hidden_inputs(html.as_str());
                let url = concat(base.as_str(), "funcportalauth.jsp");
                let cookie = concat("JSESSIONID=", jsession_id.as_str());
                LoginStep::Continue {
                    flow: LoginFlow {
                        provider,
                        auth_base,
                        rand,
                        state: LoginState::AwaitPortalAuth {
                            user_token,
                            epg_lb_base: base,
                            jsession_id,
                        },
                    },
                    request: PortalRequest::PostForm { url, fields: hidden, cookie: Some(cookie) },
                }
            },
            LoginState::AwaitPortalAuth { user_token, epg_lb_base, jsession_id } => {
                LoginStep::Done(
                    LoginSession {
                        epg_lb_base,
                        jsession_id,
                        user_token,
                        user_id: provider.user_id,
                    },
                )
            },
        }
    }
}

// ---------------------------------------------------------------------------
// The channel list
// ---------------------------------------------------------------------------

/// The portal's root: the session base without a trailing `function/`.
pub open spec fn portal_root(base: Seq<char>) -> Seq<char> {
    if ends_with(base, "function/"@) {
        base.take(base.len() - "function/"@.len())
    } else {
        base
    }
}

fn root_of(base: &str) -> (r: Vec<char>)
    ensures
        r@ == portal_root(base@),
{
    let b = chars_of(base);
    let suffix = lit("function/");
    proof {
        reveal_strlit("function/");
    }
    if has_suffix(b.as_slice(), suffix.as_slice()) {
        slice_vec(b.as_slice(), 0, b.len() - 9)
    } else {
        b
    }
}

pub open spec fn frameset_fields() -> Seq<(Seq<char>, Seq<char>)> {
    seq![
        ("BUILD_ACTION"@, "FRAMESET_BUILDER"@),
        ("MAIN_WIN_SRC"@, "/iptvepg/frame310/first_channel_play.jsp?tempno=777"@),
        ("NEED_UPDATE_STB"@, "1"@),
    ]
}

/// The request for the frameset that declares the channels.
pub fn frameset_request(session: &LoginSession) -> (r: PortalRequest)
    ensures
        is_post(
            r,
            session.epg_lb_base@ + "frameset_builder.jsp"@,
            frameset_fields(),
            Some("JSESSIONID="@ + session.jsession_id@),
        ),
{
    let mut fields: Vec<(String, String)> = Vec::new();
    fields.push(pair("BUILD_ACTION", "FRAMESET_BUILDER"));
    fields.push(pair("MAIN_WIN_SRC", "/iptvepg/frame310/first_channel_play.jsp?tempno=777"));
    fields.push(pair("NEED_UPDATE_STB", "1"));
    assert(pairs_view(fields@) =~= frameset_fields());
    PortalRequest::PostForm {
        url: concat(session.epg_lb_base.as_str(), "frameset_builder.jsp"),
        fields,
        cookie: Some(concat("JSESSIONID=", session.jsession_id.as_str())),
    }
}

/// The channels of the frameset, or why there are none.
pub open spec fn frameset_channels_spec(reply: Result<PortalReply, String>) -> Result<
    Seq<(Seq<char>, Seq<char>, Seq<char>, Seq<char>)>,
    Seq<char>,
> {
    match reply_body(reply) {
        Err(e) => Err(e),
        Ok(html) => if channel_entries(html).len() == 0 {
            Err("frameset_builder returned no channels"@)
        } else {
            Ok(channel_entries(html))
        },
    }
}

pub fn channels_from_frameset(reply: Result<PortalReply, String>) -> (r: Result<Vec<RawChannel>, String>)
    ensures
        match frameset_channels_spec(reply) {
            Ok(cs) => r matches Ok(v) && raw_views(v@) == cs,
            Err(e) => r matches Err(x) && x@ == e,
        },
{
    let html = match body_of(&reply) {
        Ok(b) => b,
        Err(e) => return Err(e),
    };
    let raw = parse_channels(html.as_str());
    if raw.len() == 0 {
        return Err(String::from_str("frameset_builder returned no channels"));
    }
    Ok(raw)
}

/// The request for the display-number mapping.
pub fn mapping_request(session: &LoginSession) -> (r: PortalRequest)
    ensures
        is_get(
            r,
            portal_root(session.epg_lb_base@) + "frame224/datas/get_channel_info_mapping.jsp"@,
            Some("JSESSIONID="@ + session.jsession_id@),
        ),
{
    let mut url = root_of(session.epg_lb_base.as_str());
    extend_chars(&mut url, lit("frame224/datas/get_channel_info_mapping.jsp").as_slice());
    PortalRequest::Get {
        url: string_of(url.as_slice()),
        cookie: Some(concat("JSESSIONID=", session.jsession_id.as_str())),
    }
}

/// The mapping an answer gives; none when the request failed.
pub open spec fn mapping_spec(reply: Result<PortalReply, String>) -> Seq<(Seq<char>, Seq<char>)> {
    match reply_body(reply) {
        Err(_) => seq![],
        Ok(body) => mixno_mapping_spec(body),
    }
}

pub fn mapping_from_reply(reply: Result<PortalReply, String>) -> (r: Vec<(String, String)>)
    ensures
        pairs_view(r@) == mapping_spec(reply),
{
    match body_of(&reply) {
        Ok(b) => parse_mixno_mapping(b.as_str()),
        Err(_) => Vec::new(),
    }
}

/// The index of the first channel whose stream URL cannot be made playable.
pub open spec fn first_unplayable(raw: Seq<RawChannel>, udpxy: Option<Seq<char>>, from: int) -> Option<int>
    decreases raw.len() - from,
{
    if from < 0 || from >= raw.len() {
        None
    } else if resolve_spec(raw[from].channel_url@, udpxy) is Err {
        Some(from)
    } else {
        first_unplayable(raw, udpxy, from + 1)
    }
}

/// The channel list built from the frameset's channels: numbered, with
/// playable stream URLs and the channel id as channel code; it fails with
/// the message of the first channel whose URL cannot be made playable.
pub open spec fn channels_built(
    raw: Seq<RawChannel>,
    mapping: Seq<(Seq<char>, Seq<char>)>,
    udpxy: Option<Seq<char>>,
    overrides: ChannelNumberOverrides,
    r: Result<Vec<Channel>, String>,
) -> bool {
    match first_unplayable(raw, udpxy, 0) {
        Some(i) => r matches Err(m) && m@ == missing_udpxy_message(
            resolve_spec(raw[i].channel_url@, udpxy)->Err_0,
        ),
        None => r matches Ok(v) && v@.len() == raw.len() && numbers_assigned(
            override_numbers(raw, overrides@),
            mapped_numbers(raw, user_numbers(mapping)),
            v@.map_values(|c: Channel| c.number),
        ) && forall|i: int|
            0 <= i < raw.len() ==> {
                &&& (#[trigger] v@[i]).name@ == raw[i].channel_name@
                &&& v@[i].stream_url@ == resolve_spec(raw[i].channel_url@, udpxy)->Ok_0
                &&& opt_view(v@[i].channel_code) == Some(raw[i].channel_id@)
            },
    }
}

proof fn lemma_first_unplayable(raw: Seq<RawChannel>, udpxy: Option<Seq<char>>, from: int)
    requires
        0 <= from,
    ensures
        first_unplayable(raw, udpxy, from) matches Some(i) ==> from <= i < raw.len() && resolve_spec(
            raw[i].channel_url@,
            udpxy,
        ) is Err,
        first_unplayable(raw, udpxy, from) is None ==> forall|j: int|
            from <= j < raw.len() ==> resolve_spec(raw[j].channel_url@, udpxy) is Ok,
    decreases raw.len() - from,
{
    if from < raw.len() && resolve_spec(raw[from].channel_url@, udpxy) is Ok {
        lemma_first_unplayable(raw, udpxy, from + 1);
    }
}

pub fn channels_from_raw(
    raw: Vec<RawChannel>,
    mapping: &Vec<(String, String)>,
    stream: &StreamProxyConfig,
    overrides: &ChannelNumberOverrides,
) -> (r: Result<Vec<Channel>, String>)
    requires
        raw@.len() <= u32::MAX,
    ensures
        channels_built(raw@, pairs_view(mapping@), opt_view(stream.udpxy_base_url), *overrides, r),
{
    let ghost udpxy = opt_view(stream.udpxy_base_url);
    let by_user = user_channel_numbers(mapping);
    let numbers = match assign_channel_numbers(raw.as_slice(), &by_user, overrides) {
        Ok(n) => n,
        Err(e) => return Err(e),
    };
    let mut out: Vec<Channel> = Vec::new();
    let mut i: usize = 0;
    while i < raw.len()
        invariant
            i <= raw@.len(),
            numbers@.len() == raw@.len(),
            out@.len() == i,
            first_unplayable(raw@, udpxy, 0) == first_unplayable(raw@, udpxy, i as int),
            udpxy == opt_view(stream.udpxy_base_url),
            forall|j: int| 0 <= j < i ==> (#[trigger] out@[j]).number == numbers@[j],
            forall|j: int|
                0 <= j < i ==> {
                    &&& (#[trigger] out@[j]).name@ == raw@[j].channel_name@
                    &&& out@[j].stream_url@ == resolve_spec(raw@[j].channel_url@, udpxy)->Ok_0
                    &&& opt_view(out@[j].channel_code) == Some(raw@[j].channel_id@)
                },
        decreases raw@.len() - i,
    {
        let ch = &raw[i];
        match resolve_stream_url(ch.channel_url.as_str(), stream) {
            Ok(url) => {
                out.push(
                    Channel {
                        number: numbers[i],
                        name: ch.channel_name.clone(),
                        stream_url: url,
                        channel_code: Some(ch.channel_id.clone()),
                    },
                );
            },
            Err(e) => {
                return Err(e.message());
            },
        }
        i = i + 1;
    }
    proof {
        lemma_first_unplayable(raw@, udpxy, raw@.len() as int);
        assert(out@.map_values(|c: Channel| c.number) =~= numbers@);
    }
    Ok(out)
}

// ---------------------------------------------------------------------------
// A channel's programmes
// ---------------------------------------------------------------------------

/// The request for a channel's programmes on one day.
pub fn programs_request(session: &LoginSession, channel_code: &str, date_offset: i32) -> (r: PortalRequest)
    ensures
        is_get(
            r,
            prevue_url_spec(
                portal_root(session.epg_lb_base@),
                channel_code@,
                date_offset,
                session.user_id@,
            ),
            Some("JSESSIONID="@ + session.jsession_id@),
        ),
{
    let root = string_of(root_of(session.epg_lb_base.as_str()).as_slice());
    PortalRequest::Get {
        url: build_prevue_url(root.as_str(), channel_code, date_offset, session.user_id.as_str()),
        cookie: Some(concat("JSESSIONID=", session.jsession_id.as_str())),
    }
}

/// The programmes an answer lists.
pub open spec fn programs_reply_spec(reply: Result<PortalReply, String>) -> Result<
    Seq<(Seq<char>, Seq<char>, Seq<char>, Seq<char>, bool, bool)>,
    Seq<char>,
> {
    match reply_body(reply) {
        Err(e) => Err(e),
        Ok(body) => parse_programs_spec(body),
    }
}

pub fn programs_from_reply(reply: Result<PortalReply, String>) -> (r: Result<Vec<Program>, String>)
    ensures
        match programs_reply_spec(reply) {
            Ok(ps) => r matches Ok(v) && program_views(v@) == ps,
            Err(e) => r matches Err(x) && x@ == e,
        },
{
    match body_of(&reply) {
        Ok(b) => parse_programs(b.as_str()),
        Err(e) => Err(e),
    }
}

} // verus!

//! Account regions, the saved login session and the account service's replies.
//!
//! After signing in, the browser lands on the region's portal
//! (`<domain>/main/<language>`) or on the account settings
//! (`.../account/<language>/setting/...`). The session cookies are then kept,
//! together with the region, as INI text:
//!
//! ```text
//! [account]
//! region = ww
//!
//! [cookies]
//! name = value
//! ```
use vstd::prelude::*;
use vstd::string::*;
use crate::numerals;
use crate::outside;
use crate::text;

verus! {

// ---------------------------------------------------------------------------
// Region
// ---------------------------------------------------------------------------

/// An account region.
#[derive(Clone, Copy, Debug, PartialEq, Eq, Structural)]
pub enum Region {
    /// Global / worldwide account.
    Global,
    /// Taiwan account.
    Taiwan,
    /// South-East Asia account.
    Sea,
    /// Thailand account.
    Thailand,
}

/// The region that an argument names, in any case and with white space around
/// it.
pub open spec fn region_named(raw: Seq<char>) -> Option<Region> {
    let name = text::lower(text::trimmed(raw));
    if name == "ww"@ || name == "gl"@ || name == "worldwide"@ || name == "global"@ {
        Some(Region::Global)
    } else if name == "tw"@ || name == "taiwan"@ {
        Some(Region::Taiwan)
    } else if name == "sea"@ || name == "southeastasia"@ {
        Some(Region::Sea)
    } else if name == "th"@ || name == "thailand"@ {
        Some(Region::Thailand)
    } else {
        None
    }
}

impl Region {
    /// The short code of a region.
    pub open spec fn code_text(self) -> Seq<char> {
        match self {
            Region::Global => "ww"@,
            Region::Taiwan => "tw"@,
            Region::Sea => "sea"@,
            Region::Thailand => "th"@,
        }
    }

    /// The domain of a region.
    pub open spec fn domain_text(self) -> Seq<char> {
        match self {
            Region::Global => "www.nexon.com"@,
            Region::Taiwan => "tw.nexon.com"@,
            Region::Sea => "sea.nexon.com"@,
            Region::Thailand => "th.nexon.com"@,
        }
    }

    /// The language of a region's pages.
    pub open spec fn language_text(self) -> Seq<char> {
        match self {
            Region::Global => "en"@,
            Region::Sea => "en"@,
            Region::Taiwan => "zh"@,
            Region::Thailand => "th"@,
        }
    }

    /// The beginnings of the addresses that follow a login: the portal, the
    /// settings on the central portal and, where the region has a domain of
    /// its own, the settings there.
    pub open spec fn landing_pages(self) -> Seq<Seq<char>> {
        let common = seq![
            "https://"@ + self.domain_text() + "/main/"@ + self.language_text(),
            "https://www.nexon.com/account/"@ + self.language_text() + "/setting"@,
        ];
        if self is Global {
            common
        } else {
            common.push(
                "https://"@ + self.domain_text() + "/account/"@ + self.language_text()
                    + "/setting"@,
            )
        }
    }

    /// Parses a region argument (case-insensitive). Returns `None` for unknown
    /// values.
    pub fn parse(raw: &str) -> (region: Option<Region>)
        ensures
            region == region_named(raw@),
    {
        let chars = text::to_chars(raw);
        let name = text::to_lower(text::trim(chars.as_slice()));
        let s = name.as_slice();
        if text::spells(s, "ww") || text::spells(s, "gl") || text::spells(s, "worldwide")
            || text::spells(s, "global") {
            Some(Region::Global)
        } else if text::spells(s, "tw") || text::spells(s, "taiwan") {
            Some(Region::Taiwan)
        } else if text::spells(s, "sea") || text::spells(s, "southeastasia") {
            Some(Region::Sea)
        } else if text::spells(s, "th") || text::spells(s, "thailand") {
            Some(Region::Thailand)
        } else {
            None
        }
    }

    /// Short canonical code stored with the session.
    pub fn code(self) -> (s: &'static str)
        ensures
            s@ == self.code_text(),
    {
        match self {
            Region::Global => "ww",
            Region::Taiwan => "tw",
            Region::Sea => "sea",
            Region::Thailand => "th",
        }
    }

    /// The domain of this region.
    pub fn domain(self) -> (s: &'static str)
        ensures
            s@ == self.domain_text(),
    {
        match self {
            Region::Global => "www.nexon.com",
            Region::Taiwan => "tw.nexon.com",
            Region::Sea => "sea.nexon.com",
            Region::Thailand => "th.nexon.com",
        }
    }

    /// The login page of this region.
    pub fn login_url(self) -> (url: String)
        ensures
            url@ == "https://"@ + self.domain_text() + "/account/login"@,
    {
        let mut url = String::new();
        url.append("https://");
        url.append(self.domain());
        url.append("/account/login");
        url
    }

    /// The language used by this region's pages, as it stands in the addresses
    /// that follow a login.
    pub fn language(self) -> (s: &'static str)
        ensures
            s@ == self.language_text(),
    {
        match self {
            Region::Global => "en",
            Region::Sea => "en",
            Region::Taiwan => "zh",
            Region::Thailand => "th",
        }
    }

    /// The beginnings of the addresses that tell of a login in this region.
    pub fn completion_prefixes(self) -> (prefixes: Vec<String>)
        ensures
            text::texts(prefixes@) == self.landing_pages(),
    {
        let mut portal = String::new();
        portal.append("https://");
        portal.append(self.domain());
        portal.append("/main/");
        portal.append(self.language());
        let mut central = String::new();
        central.append("https://www.nexon.com/account/");
        central.append(self.language());
        central.append("/setting");
        let mut prefixes: Vec<String> = Vec::new();
        prefixes.push(portal);
        prefixes.push(central);
        match self {
            Region::Global => {},
            _ => {
                let mut own = String::new();
                own.append("https://");
                own.append(self.domain());
                own.append("/account/");
                own.append(self.language());
                own.append("/setting");
                prefixes.push(own);
            },
        }
        assert(text::texts(prefixes@) =~= self.landing_pages());
        prefixes
    }
}

// ---------------------------------------------------------------------------
// Landing pages
// ---------------------------------------------------------------------------

/// The length of an address without its query and fragment.
pub open spec fn path_len(url: Seq<char>) -> int
    decreases url.len(),
{
    if url.len() == 0 || url[0] == '?' || url[0] == '#' {
        0
    } else {
        1 + path_len(url.drop_first())
    }
}

/// Whether `url`, without its query and fragment, is `prefix` or lies beneath
/// it; slashes at the end of either do not count.
pub open spec fn lies_under(url: Seq<char>, prefix: Seq<char>) -> bool {
    let path = text::without_trailing(url.subrange(0, path_len(url)), '/');
    let stem = text::without_trailing(prefix, '/');
    path == stem || text::begins(path, stem + seq!['/'])
}

/// Whether `url` is a page that follows a login in `region`.
pub open spec fn login_complete(url: Seq<char>, region: Region) -> bool {
    exists|i: int|
        0 <= i < region.landing_pages().len() && lies_under(
            url,
            #[trigger] region.landing_pages()[i],
        )
}

/// Returns `true` if `url` (ignoring any query string / fragment) equals
/// `prefix` or is nested beneath it.
pub fn url_matches_prefix(url: &str, prefix: &str) -> (r: bool)
    ensures
        r == lies_under(url@, prefix@),
{
    let chars = text::to_chars(url);
    let s = chars.as_slice();
    let n = s.len();
    let mut i: usize = 0;
    assert(s@.subrange(0, n as int) =~= s@);
    while i < n && s[i] != '?' && s[i] != '#'
        invariant
            i <= n == s@.len(),
            path_len(s@) == i + path_len(s@.subrange(i as int, n as int)),
        decreases n - i,
    {
        assert(s@.subrange(i as int, n as int).drop_first() =~= s@.subrange(i + 1, n as int));
        i = i + 1;
    }
    let path = text::trim_trailing(vstd::slice::slice_subrange(s, 0, i), '/');
    let prefix_chars = text::to_chars(prefix);
    let stem = text::trim_trailing(prefix_chars.as_slice(), '/');
    if text::same_chars(path, stem) {
        return true;
    }
    let mut beneath = vstd::slice::slice_to_vec(stem);
    beneath.push('/');
    assert(beneath@ =~= stem@ + seq!['/']);
    text::starts_with(path, beneath.as_slice())
}

/// Returns `true` if `url` is a post-login landing page for `region`.
pub fn is_login_complete(url: &str, region: Region) -> (r: bool)
    ensures
        r == login_complete(url@, region),
{
    let prefixes = region.completion_prefixes();
    let mut i: usize = 0;
    while i < prefixes.len()
        invariant
            i <= prefixes@.len(),
            text::texts(prefixes@) == region.landing_pages(),
            forall|j: int|
                0 <= j < i ==> !lies_under(url@, #[trigger] region.landing_pages()[j]),
        decreases prefixes@.len() - i,
    {
        assert(text::texts(prefixes@)[i as int] == prefixes@[i as int]@);
        if url_matches_prefix(url, prefixes[i].as_str()) {
            assert(lies_under(url@, region.landing_pages()[i as int]));
            return true;
        }
        i = i + 1;
    }
    assert(prefixes@.len() == region.landing_pages().len());
    false
}

// ---------------------------------------------------------------------------
// Saved session
// ---------------------------------------------------------------------------

/// A login session as it is saved.
#[derive(Clone, Debug)]
pub struct SavedSession {
    pub region: Region,
    pub cookies: Vec<(String, String)>,
}

/// The names and values of a list of cookies.
pub open spec fn cookie_texts(cookies: Seq<(String, String)>) -> Seq<(Seq<char>, Seq<char>)> {
    Seq::new(cookies.len(), |i: int| (cookies[i].0@, cookies[i].1@))
}

/// The lines of the cookies, each with its line feed.
pub open spec fn cookie_lines(cookies: Seq<(Seq<char>, Seq<char>)>) -> Seq<char>
    decreases cookies.len(),
{
    if cookies.len() == 0 {
        Seq::empty()
    } else {
        cookie_lines(cookies.drop_last()) + cookies.last().0 + " = "@ + cookies.last().1 + "\n"@
    }
}

/// A session as INI text.
pub open spec fn ini_text(region: Region, cookies: Seq<(Seq<char>, Seq<char>)>) -> Seq<char> {
    "[account]\n"@ + "region = "@ + region.code_text() + "\n\n"@ + "[cookies]\n"@ + cookie_lines(
        cookies,
    )
}

/// Renders the selected region and captured cookies as INI text.
pub fn render_ini(region: Region, cookies: &[(String, String)]) -> (out: String)
    ensures
        out@ == ini_text(region, cookie_texts(cookies@)),
{
    let mut out = String::new();
    out.append("[account]\n");
    out.append("region = ");
    out.append(region.code());
    out.append("\n\n");
    out.append("[cookies]\n");
    let ghost head = out@;
    let ghost all = cookie_texts(cookies@);
    let mut i: usize = 0;
    assert(out@ =~= head + cookie_lines(all.take(0)));
    while i < cookies.len()
        invariant
            i <= cookies@.len(),
            all == cookie_texts(cookies@),
            out@ == head + cookie_lines(all.take(i as int)),
        decreases cookies@.len() - i,
    {
        out.append(cookies[i].0.as_str());
        out.append(" = ");
        out.append(cookies[i].1.as_str());
        out.append("\n");
        proof {
            assert(all.take(i + 1).drop_last() =~= all.take(i as int));
            assert(out@ =~= head + cookie_lines(all.take(i + 1)));
        }
        i = i + 1;
    }
    assert(all.take(i as int) =~= all);
    out
}

/// What has been read of a session so far.
pub struct IniState {
    pub section: Seq<char>,
    pub region: Option<Region>,
    pub cookies: Seq<(Seq<char>, Seq<char>)>,
}

/// Before the first line.
pub open spec fn ini_start() -> IniState {
    IniState { section: Seq::empty(), region: None, cookies: Seq::empty() }
}

/// Whether a line opens a section.
pub open spec fn section_line(line: Seq<char>) -> bool {
    line.len() >= 2 && line[0] == '[' && line.last() == ']'
}

/// Whether a line says nothing: it is empty or a comment.
pub open spec fn silent_line(line: Seq<char>) -> bool {
    line.len() == 0 || line[0] == '#' || line[0] == ';'
}

/// What a line adds.
pub open spec fn ini_step(state: IniState, raw_line: Seq<char>) -> IniState {
    let line = text::trimmed(raw_line);
    let eq = text::first_at(line, '=');
    if silent_line(line) {
        state
    } else if section_line(line) {
        IniState {
            section: text::lower(text::trimmed(line.subrange(1, line.len() - 1))),
            ..state
        }
    } else if eq >= line.len() {
        state
    } else {
        let key = text::trimmed(line.subrange(0, eq));
        let value = text::trimmed(line.subrange(eq + 1, line.len() as int));
        if state.section == "account"@ && text::lower(key) == text::lower("region"@) {
            IniState { region: region_named(value), ..state }
        } else if state.section == "cookies"@ && key.len() > 0 {
            IniState { cookies: state.cookies.push((key, value)), ..state }
        } else {
            state
        }
    }
}

/// What the lines add one after the other.
pub open spec fn ini_fold(state: IniState, lines: Seq<Seq<char>>) -> IniState
    decreases lines.len(),
{
    if lines.len() == 0 {
        state
    } else {
        ini_step(ini_fold(state, lines.drop_last()), lines.last())
    }
}

/// What a text says.
pub open spec fn ini_read(ini: Seq<char>) -> IniState {
    ini_fold(ini_start(), text::lines_of(ini))
}

/// Why a text is not a session.
#[derive(Clone, Copy, Debug, PartialEq, Eq, Structural)]
pub enum SessionError {
    /// It names no valid region.
    NoRegion,
    /// It has no cookies.
    NoCookies,
}

impl SessionError {
    /// The words for this error.
    pub open spec fn words(self) -> Seq<char> {
        match self {
            SessionError::NoRegion => "nxl.ini is missing a valid [account] region"@,
            SessionError::NoCookies => "nxl.ini has no [cookies]; re-run `nxdl nxl --login`"@,
        }
    }

    /// The message for this error.
    pub fn message(&self) -> (s: &'static str)
        ensures
            s@ == self.words(),
    {
        match self {
            SessionError::NoRegion => "nxl.ini is missing a valid [account] region",
            SessionError::NoCookies => "nxl.ini has no [cookies]; re-run `nxdl nxl --login`",
        }
    }
}

/// Takes one line into account.
fn read_line(
    raw_line: &str,
    section: &mut Vec<char>,
    region: &mut Option<Region>,
    cookies: &mut Vec<(String, String)>,
)
    ensures
        ({
            let before = IniState {
                section: old(section)@,
                region: *old(region),
                cookies: cookie_texts(old(cookies)@),
            };
            let after = ini_step(before, raw_line@);
            &&& final(section)@ == after.section
            &&& *final(region) == after.region
            &&& cookie_texts(final(cookies)@) == after.cookies
        }),
{
    let chars = text::to_chars(raw_line);
    let line = text::trim(chars.as_slice());
    let n = line.len();
    if n == 0 || line[0] == '#' || line[0] == ';' {
        return;
    }
    if n >= 2 && line[0] == '[' && line[n - 1] == ']' {
        let name = vstd::slice::slice_subrange(line, 1, n - 1);
        *section = text::to_lower(text::trim(name));
        return;
    }
    let eq = text::find_char(line, '=');
    if eq >= n {
        return;
    }
    let key = text::trim(vstd::slice::slice_subrange(line, 0, eq));
    let value = text::trim(vstd::slice::slice_subrange(line, eq + 1, n));
    if text::spells(section.as_slice(), "account") && text::same_ignoring_case(
        text::from_chars(key).as_str(),
        "region",
    ) {
        *region = Region::parse(text::from_chars(value).as_str());
    } else if text::spells(section.as_slice(), "cookies") && key.len() > 0 {
        let ghost before = cookies@;
        cookies.push((text::from_chars(key), text::from_chars(value)));
        assert(cookie_texts(cookies@) =~= cookie_texts(before).push((key@, value@)));
    }
}

/// Parses INI text into a [`SavedSession`].
pub fn parse_session(ini: &str) -> (result: Result<SavedSession, SessionError>)
    ensures
        ({
            let read = ini_read(ini@);
            match read.region {
                None => result == Err::<SavedSession, SessionError>(SessionError::NoRegion),
                Some(region) => if read.cookies.len() == 0 {
                    result == Err::<SavedSession, SessionError>(SessionError::NoCookies)
                } else {
                    &&& result matches Ok(session)
                    &&& session.region == region
                    &&& cookie_texts(session.cookies@) == read.cookies
                },
            }
        }),
{
    let chars = text::to_chars(ini);
    let lines = text::lines(chars.as_slice());
    let mut section: Vec<char> = Vec::new();
    let mut region: Option<Region> = None;
    let mut cookies: Vec<(String, String)> = Vec::new();
    let ghost all = text::texts(lines@);
    let mut i: usize = 0;
    assert(section@ =~= ini_start().section);
    assert(cookie_texts(cookies@) =~= ini_start().cookies);
    while i < lines.len()
        invariant
            i <= lines@.len(),
            all == text::texts(lines@),
            ini_fold(ini_start(), all.take(i as int)) == (IniState {
                section: section@,
                region,
                cookies: cookie_texts(cookies@),
            }),
        decreases lines@.len() - i,
    {
        read_line(lines[i].as_str(), &mut section, &mut region, &mut cookies);
        proof {
            assert(all.take(i + 1).drop_last() =~= all.take(i as int));
            assert(all.take(i + 1).last() == lines@[i as int]@);
        }
        i = i + 1;
    }
    assert(all.take(i as int) =~= all);
    match region {
        None => Err(SessionError::NoRegion),
        Some(region) => {
            if cookies.len() == 0 {
                return Err(SessionError::NoCookies);
            }
            Ok(SavedSession { region, cookies })
        },
    }
}

// ---------------------------------------------------------------------------
// Requests
// ---------------------------------------------------------------------------

/// The cookies as a request header: `name=value` pairs with `; ` between them.
pub open spec fn header_text(cookies: Seq<(Seq<char>, Seq<char>)>) -> Seq<char>
    decreases cookies.len(),
{
    if cookies.len() == 0 {
        Seq::empty()
    } else if cookies.len() == 1 {
        cookies[0].0 + "="@ + cookies[0].1
    } else {
        header_text(cookies.drop_last()) + "; "@ + cookies.last().0 + "="@ + cookies.last().1
    }
}

/// Builds a `Cookie` request-header value from the stored cookie pairs.
pub fn cookie_header(cookies: &[(String, String)]) -> (header: String)
    ensures
        header@ == header_text(cookie_texts(cookies@)),
{
    let mut header = String::new();
    let ghost all = cookie_texts(cookies@);
    let mut i: usize = 0;
    assert(all.take(0) =~= Seq::empty());
    while i < cookies.len()
        invariant
            i <= cookies@.len(),
            all == cookie_texts(cookies@),
            header@ == header_text(all.take(i as int)),
        decreases cookies@.len() - i,
    {
        if i > 0 {
            header.append("; ");
        }
        header.append(cookies[i].0.as_str());
        header.append("=");
        header.append(cookies[i].1.as_str());
        proof {
            assert(all.take(i + 1).drop_last() =~= all.take(i as int));
            assert(header@ =~= header_text(all.take(i + 1)));
        }
        i = i + 1;
    }
    assert(all.take(i as int) =~= all);
    header
}

/// The address that tells about the signed-in account.
pub fn account_url(region: Region) -> (url: String)
    ensures
        url@ == "https://"@ + region.domain_text() + "/api/account/v1/account"@,
{
    let mut url = String::new();
    url.append("https://");
    url.append(region.domain());
    url.append("/api/account/v1/account");
    url
}

/// The address that tells about the public branch of a game.
pub fn branch_url(region: Region, appid: &str) -> (url: String)
    ensures
        url@ == "https://"@ + region.domain_text() + "/api/game-build/v1/branch/games/"@ + appid@
            + "/public"@,
{
    let mut url = String::new();
    url.append("https://");
    url.append(region.domain());
    url.append("/api/game-build/v1/branch/games/");
    url.append(appid);
    url.append("/public");
    url
}

// ---------------------------------------------------------------------------
// Replies
// ---------------------------------------------------------------------------

/// The string member `key` of a JSON document, if it has one.
pub open spec fn member(doc: Map<Seq<char>, Seq<char>>, key: Seq<char>) -> Option<Seq<char>> {
    if doc.contains_key(key) {
        Some(doc[key])
    } else {
        None
    }
}

/// The message of an error reply, by the member names in use.
pub open spec fn api_message(doc: Map<Seq<char>, Seq<char>>) -> Option<Seq<char>> {
    text::first_filled_in(
        seq![
            member(doc, "message"@),
            member(doc, "error"@),
            member(doc, "errorMessage"@),
            member(doc, "msg"@),
            member(doc, "detail"@),
        ],
    )
}

/// Pulls a human-readable message out of a JSON error reply, trying the member
/// names in use.
pub fn extract_api_message(json: &serde_json::Value) -> (message: Option<String>)
    ensures
        text::text_in(message) == api_message(outside::json_strings(*json)),
{
    let mut candidates: Vec<Option<String>> = Vec::new();
    candidates.push(outside::json_string_member(json, "message"));
    candidates.push(outside::json_string_member(json, "error"));
    candidates.push(outside::json_string_member(json, "errorMessage"));
    candidates.push(outside::json_string_member(json, "msg"));
    candidates.push(outside::json_string_member(json, "detail"));
    proof {
        let doc = outside::json_strings(*json);
        assert(text::texts_in(candidates@) =~= seq![
            member(doc, "message"@),
            member(doc, "error"@),
            member(doc, "errorMessage"@),
            member(doc, "msg"@),
            member(doc, "detail"@),
        ]);
    }
    text::pick_filled_in(candidates.as_slice())
}

/// What the reply about a branch comes to.
pub enum BranchVerdict {
    /// The address of the manifest.
    Url(Seq<char>),
    /// There is no such product.
    NotFound,
    /// The account may not have the product.
    NoPermission,
    /// A reply that says nothing.
    Silent,
    /// Any other message.
    Message(Seq<char>),
}

/// What a failed reply with a status and a message comes to.
pub open spec fn failure_verdict(status: u16, message: Seq<char>) -> BranchVerdict {
    let lower = text::lower(message);
    if status == 404 || text::occurs(lower, "cannot be found"@) || text::occurs(
        lower,
        "not found"@,
    ) {
        BranchVerdict::NotFound
    } else if status == 401 || status == 403 || text::occurs(lower, "permission"@) || text::occurs(
        lower,
        "not authorized"@,
    ) || text::occurs(lower, "unauthorized"@) || text::occurs(lower, "forbidden"@) {
        BranchVerdict::NoPermission
    } else if message.len() == 0 {
        BranchVerdict::Silent
    } else {
        BranchVerdict::Message(message)
    }
}

/// What a reply comes to: the manifest address where it holds one, and
/// otherwise a failure with the message found or else the whole body.
pub open spec fn branch_verdict(
    status: u16,
    body: Seq<char>,
    manifest_url: Option<Seq<char>>,
    message: Option<Seq<char>>,
) -> BranchVerdict {
    match manifest_url {
        Some(url) if url.len() > 0 => BranchVerdict::Url(url),
        _ => match message {
            Some(message) => failure_verdict(status, message),
            None => failure_verdict(status, text::trimmed(body)),
        },
    }
}

/// What a reply with a body comes to.
pub open spec fn body_verdict(status: u16, body: Seq<char>) -> BranchVerdict {
    match outside::json_document(body) {
        Ok(doc) => branch_verdict(
            status,
            body,
            member(doc, "manifestUrl"@),
            api_message(doc),
        ),
        Err(_) => branch_verdict(status, body, None, None),
    }
}

/// Why a reply about a branch gives no manifest address.
#[derive(Clone, Debug)]
pub enum BranchError {
    NotFound { appid: String },
    NoPermission { appid: String },
    Silent { appid: String, status: u16 },
    Message { appid: String, status: u16, message: String },
}

impl BranchError {
    /// The words for this error.
    pub open spec fn words(self) -> Seq<char> {
        match self {
            BranchError::NotFound { appid } => "product '"@ + appid@
                + "' was not found. Double-check the appid — it may be wrong, retired, or not published in this account's region."@,
            BranchError::NoPermission { appid } =>
                "your account does not have permission for product '"@ + appid@
                + "'. It may require ownership/entitlement, or a different account region (try `nxdl nxl --login <region>`)."@,
            BranchError::Silent { appid, status } => "branch API returned HTTP "@
                + numerals::decimal(status as nat) + " with no manifestUrl for product '"@ + appid@
                + "'."@,
            BranchError::Message { appid, status, message } => "branch API error for product '"@
                + appid@ + "' (HTTP "@ + numerals::decimal(status as nat) + "): "@ + message@,
        }
    }

    /// The message for this error.
    pub fn message(&self) -> (s: String)
        ensures
            s@ == self.words(),
    {
        let mut s = String::new();
        match self {
            BranchError::NotFound { appid } => {
                s.append("product '");
                s.append(appid.as_str());
                s.append(
                    "' was not found. Double-check the appid — it may be wrong, retired, or not published in this account's region.",
                );
            },
            BranchError::NoPermission { appid } => {
                s.append("your account does not have permission for product '");
                s.append(appid.as_str());
                s.append(
                    "'. It may require ownership/entitlement, or a different account region (try `nxdl nxl --login <region>`).",
                );
            },
            BranchError::Silent { appid, status } => {
                s.append("branch API returned HTTP ");
                numerals::push_decimal(&mut s, *status as u128);
                s.append(" with no manifestUrl for product '");
                s.append(appid.as_str());
                s.append("'.");
            },
            BranchError::Message { appid, status, message } => {
                s.append("branch API error for product '");
                s.append(appid.as_str());
                s.append("' (HTTP ");
                numerals::push_decimal(&mut s, *status as u128);
                s.append("): ");
                s.append(message.as_str());
            },
        }
        s
    }
}

/// Whether `result` is what a verdict calls for.
pub open spec fn answers(
    result: Result<String, BranchError>,
    appid: Seq<char>,
    status: u16,
    verdict: BranchVerdict,
) -> bool {
    match verdict {
        BranchVerdict::Url(url) => result matches Ok(s) && s@ == url,
        BranchVerdict::NotFound => result matches Err(BranchError::NotFound { appid: a }) && a@
            == appid,
        BranchVerdict::NoPermission => result matches Err(BranchError::NoPermission { appid: a })
            && a@ == appid,
        BranchVerdict::Silent => result matches Err(BranchError::Silent { appid: a, status: n })
            && a@ == appid && n == status,
        BranchVerdict::Message(text) => result matches Err(
            BranchError::Message { appid: a, status: n, message },
        ) && a@ == appid && n == status && message@ == text,
    }
}

/// Whether `text` holds `phrase`.
fn mentions(text: &[char], phrase: &str) -> (r: bool)
    ensures
        r == text::occurs(text@, phrase@),
{
    text::contains(text, text::to_chars(phrase).as_slice())
}

/// The error for a reply without a manifest address.
pub fn explain_failure(appid: &str, status: u16, message: String) -> (error: BranchError)
    ensures
        answers(
            Err::<String, BranchError>(error),
            appid@,
            status,
            failure_verdict(status, message@),
        ),
{
    let chars = text::to_chars(message.as_str());
    let small = text::to_lower(chars.as_slice());
    let lower = small.as_slice();
    if status == 404 || mentions(lower, "cannot be found") || mentions(lower, "not found") {
        return BranchError::NotFound { appid: appid.to_owned() };
    }
    if status == 401 || status == 403 || mentions(lower, "permission") || mentions(
        lower,
        "not authorized",
    ) || mentions(lower, "unauthorized") || mentions(lower, "forbidden") {
        return BranchError::NoPermission { appid: appid.to_owned() };
    }
    if chars.len() == 0 {
        return BranchError::Silent { appid: appid.to_owned(), status };
    }
    BranchError::Message { appid: appid.to_owned(), status, message }
}

/// Judges a reply by what was found in it: the member `manifestUrl` and the
/// message, where the body is JSON that holds them.
pub fn judge_branch_reply(
    appid: &str,
    status: u16,
    body: &str,
    manifest_url: Option<String>,
    message: Option<String>,
) -> (result: Result<String, BranchError>)
    ensures
        answers(
            result,
            appid@,
            status,
            branch_verdict(status, body@, text::text_in(manifest_url), text::text_in(message)),
        ),
{
    if let Some(url) = manifest_url {
        if text::to_chars(url.as_str()).len() > 0 {
            return Ok(url);
        }
    }
    let message = match message {
        Some(message) => message,
        None => {
            let chars = text::to_chars(body);
            text::from_chars(text::trim(chars.as_slice()))
        },
    };
    Err(explain_failure(appid, status, message))
}

/// Interprets a reply about a branch: the `manifestUrl` on success, or an error
/// that tells "not found", "no permission" and other failures apart.
pub fn interpret_branch_response(appid: &str, status: u16, body: &str) -> (result: Result<
    String,
    BranchError,
>)
    ensures
        answers(result, appid@, status, body_verdict(status, body@)),
{
    match outside::json_parse(body) {
        Ok(json) => {
            let url = outside::json_string_member(&json, "manifestUrl");
            let message = extract_api_message(&json);
            judge_branch_reply(appid, status, body, url, message)
        },
        Err(_) => judge_branch_reply(appid, status, body, None, None),
    }
}

/// A reply that is not JSON, and why.
#[derive(Clone, Debug, PartialEq, Eq)]
pub struct NotJson {
    pub cause: String,
}

impl NotJson {
    /// The words for this error.
    pub open spec fn words(self) -> Seq<char> {
        "failed to parse account response as JSON: "@ + self.cause@
    }

    /// The message for this error.
    pub fn message(&self) -> (s: String)
        ensures
            s@ == self.words(),
    {
        let mut s = String::new();
        s.append("failed to parse account response as JSON: ");
        s.append(self.cause.as_str());
        s
    }
}

/// A text that is there and not empty.
pub open spec fn filled(s: Option<Seq<char>>) -> Option<Seq<char>> {
    match s {
        Some(s) if s.len() > 0 => Some(s),
        _ => None,
    }
}

/// Drops an empty text.
pub fn keep_filled(s: Option<String>) -> (r: Option<String>)
    ensures
        text::text_in(r) == filled(text::text_in(s)),
{
    match s {
        Some(s) => {
            if text::to_chars(s.as_str()).len() > 0 {
                Some(s)
            } else {
                None
            }
        },
        None => None,
    }
}

/// Extracts the `nexonTag` member from a reply about the account.
///
/// Returns `None` when the member is absent or empty.
pub fn parse_nexon_tag(body: &str) -> (result: Result<Option<String>, NotJson>)
    ensures
        match outside::json_document(body@) {
            Ok(doc) => result matches Ok(tag) && text::text_in(tag) == filled(
                member(doc, "nexonTag"@),
            ),
            Err(words) => result matches Err(NotJson { cause }) && cause@ == words,
        },
{
    match outside::json_parse(body) {
        Ok(json) => Ok(keep_filled(outside::json_string_member(&json, "nexonTag"))),
        Err(e) => Err(NotJson { cause: outside::json_error_text(&e) }),
    }
}

// ---------------------------------------------------------------------------
// Capturing cookies
// ---------------------------------------------------------------------------

/// The addresses that session cookies are read for: the region's own domain and
/// the central portal.
pub open spec fn cookie_pages(region: Region) -> Seq<Seq<char>> {
    let own = seq!["https://"@ + region.domain_text() + "/"@];
    if region is Global {
        own
    } else {
        own.push("https://www.nexon.com/"@)
    }
}

/// The addresses that session cookies are read for.
pub fn cookie_urls(region: Region) -> (urls: Vec<String>)
    ensures
        text::texts(urls@) == cookie_pages(region),
{
    let mut own = String::new();
    own.append("https://");
    own.append(region.domain());
    own.append("/");
    let mut urls: Vec<String> = Vec::new();
    urls.push(own);
    match region {
        Region::Global => {},
        _ => {
            urls.push("https://www.nexon.com/".to_owned());
        },
    }
    assert(text::texts(urls@) =~= cookie_pages(region));
    urls
}

/// Whether a cookie of that name is in the list.
pub open spec fn has_cookie(cookies: Seq<(Seq<char>, Seq<char>)>, name: Seq<char>) -> bool {
    exists|i: int| 0 <= i < cookies.len() && (#[trigger] cookies[i]).0 == name
}

/// The cookies, each name only where it comes first.
pub open spec fn first_of_each_name(cookies: Seq<(Seq<char>, Seq<char>)>) -> Seq<
    (Seq<char>, Seq<char>),
>
    decreases cookies.len(),
{
    if cookies.len() == 0 {
        Seq::empty()
    } else {
        let before = first_of_each_name(cookies.drop_last());
        if has_cookie(before, cookies.last().0) {
            before
        } else {
            before.push(cookies.last())
        }
    }
}

/// Keeps the first cookie of each name, in order.
pub fn merge_cookies(found: Vec<(String, String)>) -> (kept: Vec<(String, String)>)
    ensures
        cookie_texts(kept@) == first_of_each_name(cookie_texts(found@)),
{
    let ghost all = cookie_texts(found@);
    let mut kept: Vec<(String, String)> = Vec::new();
    let mut i: usize = 0;
    assert(cookie_texts(kept@) =~= first_of_each_name(all.take(0)));
    while i < found.len()
        invariant
            i <= found@.len(),
            all == cookie_texts(found@),
            cookie_texts(kept@) == first_of_each_name(all.take(i as int)),
        decreases found@.len() - i,
    {
        let mut seen = false;
        let mut j: usize = 0;
        while j < kept.len()
            invariant
                i < found@.len(),
                j <= kept@.len(),
                seen == has_cookie(cookie_texts(kept@).take(j as int), found@[i as int].0@),
            decreases kept@.len() - j,
        {
            let ghost upto = cookie_texts(kept@).take(j as int);
            let ghost next = cookie_texts(kept@).take(j + 1);
            if text::same_text(kept[j].0.as_str(), found[i].0.as_str()) {
                seen = true;
                assert(next[j as int].0 == found@[i as int].0@);
            } else {
                proof {
                    let name = found@[i as int].0@;
                    if has_cookie(upto, name) {
                        let k = choose|k: int| 0 <= k < upto.len() && (#[trigger] upto[k]).0
                            == name;
                        assert(next[k].0 == name);
                    }
                    if has_cookie(next, name) {
                        let k = choose|k: int| 0 <= k < next.len() && (#[trigger] next[k]).0
                            == name;
                        assert(upto[k].0 == name);
                    }
                }
            }
            j = j + 1;
        }
        let ghost before = kept@;
        assert(cookie_texts(kept@).take(j as int) =~= cookie_texts(kept@));
        if !seen {
            kept.push((found[i].0.clone(), found[i].1.clone()));
            assert(cookie_texts(kept@) =~= cookie_texts(before).push(all[i as int]));
        }
        proof {
            assert(all.take(i + 1).drop_last() =~= all.take(i as int));
            assert(all.take(i + 1).last() == all[i as int]);
        }
        i = i + 1;
    }
    assert(all.take(i as int) =~= all);
    kept
}

/// What came of asking for the cookies of one address.
pub type CookieReply = (String, Result<Vec<(String, String)>, String>);

/// The cookies in the replies, one reply after the other.
pub open spec fn cookies_in(replies: Seq<CookieReply>) -> Seq<(Seq<char>, Seq<char>)>
    decreases replies.len(),
{
    if replies.len() == 0 {
        Seq::empty()
    } else {
        match replies.last().1 {
            Ok(cookies) => cookies_in(replies.drop_last()) + cookie_texts(cookies@),
            Err(_) => cookies_in(replies.drop_last()),
        }
    }
}

/// The last reply that is an error: its address and what it says.
pub open spec fn last_failure(replies: Seq<CookieReply>) -> Option<(Seq<char>, Seq<char>)>
    decreases replies.len(),
{
    if replies.len() == 0 {
        None
    } else {
        match replies.last().1 {
            Ok(_) => last_failure(replies.drop_last()),
            Err(error) => Some((replies.last().0@, error@)),
        }
    }
}

/// Why no cookies were captured.
#[derive(Clone, Debug)]
pub enum CaptureError {
    Read { url: String, error: String },
    NoCookies,
    Closed,
}

impl CaptureError {
    /// The words for this error.
    pub open spec fn words(self) -> Seq<char> {
        match self {
            CaptureError::Read { url, error } => "failed to read cookies from WebView for "@ + url@
                + ": "@ + error@,
            CaptureError::NoCookies => "no cookies were found for the logged-in session"@,
            CaptureError::Closed => "login window was closed before the login completed"@,
        }
    }

    /// The message for this error.
    pub fn message(&self) -> (s: String)
        ensures
            s@ == self.words(),
    {
        let mut s = String::new();
        match self {
            CaptureError::Read { url, error } => {
                s.append("failed to read cookies from WebView for ");
                s.append(url.as_str());
                s.append(": ");
                s.append(error.as_str());
            },
            CaptureError::NoCookies => {
                s = "no cookies were found for the logged-in session".to_owned();
            },
            CaptureError::Closed => {
                s = "login window was closed before the login completed".to_owned();
            },
        }
        s
    }
}

/// Puts the replies together: the first cookie of each name, or an error where
/// there is none; the last failure explains an empty result.
pub fn capture_cookies(replies: Vec<CookieReply>) -> (result: Result<
    Vec<(String, String)>,
    CaptureError,
>)
    ensures
        ({
            let kept = first_of_each_name(cookies_in(replies@));
            if kept.len() > 0 {
                result matches Ok(cookies) && cookie_texts(cookies@) == kept
            } else {
                match last_failure(replies@) {
                    Some((url, error)) => result matches Err(CaptureError::Read { url: u, error: e })
                        && u@ == url && e@ == error,
                    None => result matches Err(CaptureError::NoCookies),
                }
            }
        }),
{
    let mut found: Vec<(String, String)> = Vec::new();
    let mut failure: Option<(String, String)> = None;
    let mut i: usize = 0;
    assert(cookie_texts(found@) =~= cookies_in(replies@.take(0)));
    while i < replies.len()
        invariant
            i <= replies@.len(),
            cookie_texts(found@) == cookies_in(replies@.take(i as int)),
            match last_failure(replies@.take(i as int)) {
                Some((url, error)) => failure matches Some((u, e)) && u@ == url && e@ == error,
                None => failure is None,
            },
        decreases replies@.len() - i,
    {
        proof {
            assert(replies@.take(i + 1).drop_last() =~= replies@.take(i as int));
            assert(replies@.take(i + 1).last() == replies@[i as int]);
        }
        match &replies[i].1 {
            Ok(cookies) => {
                let ghost before = cookie_texts(found@);
                let mut j: usize = 0;
                assert(cookie_texts(found@) =~= before + cookie_texts(cookies@).take(0));
                while j < cookies.len()
                    invariant
                        j <= cookies@.len(),
                        cookie_texts(found@) == before + cookie_texts(cookies@).take(j as int),
                    decreases cookies@.len() - j,
                {
                    let ghost was = cookie_texts(found@);
                    found.push((cookies[j].0.clone(), cookies[j].1.clone()));
                    proof {
                        assert(cookie_texts(found@) =~= was.push(cookie_texts(cookies@)[j as int]));
                        assert(cookie_texts(found@) =~= before + cookie_texts(cookies@).take(
                            j + 1,
                        ));
                    }
                    j = j + 1;
                }
                assert(cookie_texts(cookies@).take(j as int) =~= cookie_texts(cookies@));
            },
            Err(error) => {
                failure = Some((replies[i].0.clone(), error.clone()));
            },
        }
        i = i + 1;
    }
    assert(replies@.take(i as int) =~= replies@);
    let kept = merge_cookies(found);
    if kept.len() > 0 {
        assert(cookie_texts(kept@).len() == kept@.len());
        return Ok(kept);
    }
    assert(cookie_texts(kept@).len() == kept@.len());
    match failure {
        Some((url, error)) => Err(CaptureError::Read { url, error }),
        None => Err(CaptureError::NoCookies),
    }
}

/// What the login window reports.
#[derive(Clone, Copy, Debug, PartialEq, Eq, Structural)]
pub enum WindowEvent {
    /// A page that follows a login was reached.
    LoginComplete,
    /// The user asks to close the window.
    CloseRequested,
    /// Anything else.
    Other,
}

/// What is to be done about it.
#[derive(Clone, Copy, Debug, PartialEq, Eq, Structural)]
pub enum WindowAction {
    /// Wait for the next event.
    Wait,
    /// Read the cookies and leave.
    Capture,
    /// Leave.
    Leave,
}

/// Decides about an event. The cookies are read once, however many pages
/// report the login: `settled` says that they were, with success or without.
pub fn window_step(settled: bool, event: WindowEvent) -> (action: WindowAction)
    ensures
        action == (match event {
            WindowEvent::LoginComplete => if settled {
                WindowAction::Wait
            } else {
                WindowAction::Capture
            },
            WindowEvent::CloseRequested => WindowAction::Leave,
            WindowEvent::Other => WindowAction::Wait,
        }),
{
    match event {
        WindowEvent::LoginComplete => if settled {
            WindowAction::Wait
        } else {
            WindowAction::Capture
        },
        WindowEvent::CloseRequested => WindowAction::Leave,
        WindowEvent::Other => WindowAction::Wait,
    }
}

/// Ends a login: with what was captured, or with an error where the window was
/// closed before anything was.
pub fn window_outcome(
    captured: Option<Result<Vec<(String, String)>, CaptureError>>,
) -> (result: Result<Vec<(String, String)>, CaptureError>)
    ensures
        result == (match captured {
            Some(outcome) => outcome,
            None => Err(CaptureError::Closed),
        }),
{
    match captured {
        Some(outcome) => outcome,
        None => Err(CaptureError::Closed),
    }
}

// ---------------------------------------------------------------------------
// Laws
// ---------------------------------------------------------------------------

/// The code of a region names it.
pub proof fn law_code_names_region(region: Region)
    ensures
        region_named(region.code_text()) == Some(region),
{
    reveal_strlit("ww");
    reveal_strlit("tw");
    reveal_strlit("sea");
    reveal_strlit("th");
    reveal_strlit("gl");
    reveal_strlit("worldwide");
    reveal_strlit("global");
    reveal_strlit("taiwan");
    reveal_strlit("southeastasia");
    let code = region.code_text();
    text::lemma_trimmed_is(code);
    text::lemma_lower_is(code);
    assert("tw"@[0] != "ww"@[0] && "tw"@[0] != "gl"@[0]);
    assert("th"@[1] != "ww"@[1] && "th"@[1] != "gl"@[1] && "th"@[1] != "tw"@[1]);
}

/// Region arguments that differ in the case of letters alone name the same
/// region, and so do those that differ in the white space around them.
pub proof fn law_region_ignores_case_and_space(a: Seq<char>, b: Seq<char>)
    requires
        text::lower(text::trimmed(a)) == text::lower(text::trimmed(b)) || text::lower(a)
            == text::lower(b),
    ensures
        region_named(a) == region_named(b),
{
    text::lemma_trimmed_lower(a);
    text::lemma_trimmed_lower(b);
}

/// An address without query and fragment is all path.
proof fn lemma_path_is_all(url: Seq<char>)
    requires
        forall|j: int| 0 <= j < url.len() ==> url[j] != '?' && url[j] != '#',
    ensures
        path_len(url) == url.len(),
    decreases url.len(),
{
    if url.len() > 0 {
        let rest = url.drop_first();
        assert forall|j: int| 0 <= j < rest.len() implies rest[j] != '?' && rest[j] != '#' by {
            assert(rest[j] == url[j + 1]);
        }
        lemma_path_is_all(rest);
    }
}

/// What follows an address as a query or a fragment is not of its path.
proof fn lemma_path_len_ignores_tail(url: Seq<char>, tail: Seq<char>)
    requires
        tail.len() == 0 || tail[0] == '?' || tail[0] == '#',
    ensures
        path_len(url + tail) == path_len(url),
        0 <= path_len(url) <= url.len(),
    decreases url.len(),
{
    if url.len() == 0 {
        assert(url + tail =~= tail);
    } else {
        assert((url + tail).drop_first() =~= url.drop_first() + tail);
        lemma_path_len_ignores_tail(url.drop_first(), tail);
    }
}

/// A query or a fragment changes neither whether an address lies under a prefix
/// nor whether a page follows a login.
pub proof fn law_query_is_ignored(
    url: Seq<char>,
    tail: Seq<char>,
    prefix: Seq<char>,
    region: Region,
)
    requires
        tail.len() == 0 || tail[0] == '?' || tail[0] == '#',
    ensures
        lies_under(url + tail, prefix) == lies_under(url, prefix),
        login_complete(url + tail, region) == login_complete(url, region),
{
    let full = url + tail;
    lemma_path_len_ignores_tail(url, tail);
    assert(full.subrange(0, path_len(full)) =~= url.subrange(0, path_len(url)));
    let pages = region.landing_pages();
    if login_complete(full, region) {
        let i = choose|i: int| 0 <= i < pages.len() && lies_under(full, #[trigger] pages[i]);
        assert(lies_under(url, pages[i]));
    }
    if login_complete(url, region) {
        let i = choose|i: int| 0 <= i < pages.len() && lies_under(url, #[trigger] pages[i]);
        assert(lies_under(full, pages[i]));
    }
}

/// Each name is kept once.
pub proof fn law_names_are_kept_once(cookies: Seq<(Seq<char>, Seq<char>)>)
    ensures
        forall|i: int, j: int|
            0 <= i < j < first_of_each_name(cookies).len() ==> first_of_each_name(cookies)[i].0
                != first_of_each_name(cookies)[j].0,
    decreases cookies.len(),
{
    if cookies.len() > 0 {
        law_names_are_kept_once(cookies.drop_last());
        let before = first_of_each_name(cookies.drop_last());
        if !has_cookie(before, cookies.last().0) {
            let kept = first_of_each_name(cookies);
            assert forall|i: int, j: int| 0 <= i < j < kept.len() implies kept[i].0
                != kept[j].0 by {
                assert(kept[i] == before[i]);
            }
        }
    }
}

/// A name is kept exactly where a cookie has it.
proof fn lemma_kept_names(cookies: Seq<(Seq<char>, Seq<char>)>, name: Seq<char>)
    ensures
        has_cookie(first_of_each_name(cookies), name) == has_cookie(cookies, name),
    decreases cookies.len(),
{
    if cookies.len() > 0 {
        let fewer = cookies.drop_last();
        let before = first_of_each_name(fewer);
        let kept = first_of_each_name(cookies);
        lemma_kept_names(fewer, name);
        if has_cookie(fewer, name) {
            let i = choose|i: int| 0 <= i < fewer.len() && (#[trigger] fewer[i]).0 == name;
            assert(cookies[i].0 == name);
        }
        if has_cookie(cookies, name) {
            let i = choose|i: int| 0 <= i < cookies.len() && (#[trigger] cookies[i]).0 == name;
            if i < fewer.len() {
                assert(fewer[i].0 == name);
            }
        }
        if has_cookie(before, name) {
            let i = choose|i: int| 0 <= i < before.len() && (#[trigger] before[i]).0 == name;
            assert(kept[i].0 == name);
        }
        if has_cookie(kept, name) {
            let i = choose|i: int| 0 <= i < kept.len() && (#[trigger] kept[i]).0 == name;
            if i < before.len() {
                assert(before[i].0 == name);
            }
        }
        if cookies.last().0 == name {
            assert(cookies[cookies.len() - 1].0 == name);
            if !has_cookie(before, name) {
                assert(kept[before.len() as int].0 == name);
            }
        }
    }
}

/// Of the cookies with one name, the first is the one that is kept.
pub proof fn law_first_of_a_name_is_kept(cookies: Seq<(Seq<char>, Seq<char>)>, i: int)
    requires
        0 <= i < cookies.len(),
        forall|j: int| 0 <= j < i ==> (#[trigger] cookies[j]).0 != cookies[i].0,
    ensures
        first_of_each_name(cookies).contains(cookies[i]),
    decreases cookies.len(),
{
    let fewer = cookies.drop_last();
    let before = first_of_each_name(fewer);
    let kept = first_of_each_name(cookies);
    if i < fewer.len() {
        assert forall|j: int| 0 <= j < i implies (#[trigger] fewer[j]).0 != fewer[i].0 by {
            assert(fewer[j] == cookies[j]);
        }
        law_first_of_a_name_is_kept(fewer, i);
        let k = choose|k: int| 0 <= k < before.len() && before[k] == cookies[i];
        assert(kept[k] == cookies[i]);
    } else {
        lemma_kept_names(fewer, cookies[i].0);
        if has_cookie(fewer, cookies[i].0) {
            let j = choose|j: int|
                0 <= j < fewer.len() && (#[trigger] fewer[j]).0 == cookies[i].0;
            assert(cookies[j].0 == cookies[i].0);
        }
        assert(kept[before.len() as int] == cookies[i]);
    }
}

/// Whether a text has neither a query nor a fragment.
pub open spec fn bare(s: Seq<char>) -> bool {
    forall|i: int| 0 <= i < s.len() ==> #[trigger] s[i] != '?' && s[i] != '#'
}

/// An address that differs from the beginning of another does not lie under it.
proof fn lemma_not_under(url: Seq<char>, prefix: Seq<char>, k: int)
    requires
        bare(url),
        url.last() != '/',
        prefix.last() != '/',
        0 <= k < url.len(),
        k < prefix.len(),
        url[k] != prefix[k],
    ensures
        !lies_under(url, prefix),
{
    lemma_path_is_all(url);
    assert(url.subrange(0, url.len() as int) =~= url);
    let deeper = prefix + seq!['/'];
    if text::begins(url, deeper) {
        assert(url.subrange(0, deeper.len() as int)[k] == deeper[k]);
    }
}

/// The login page of a region is none of the pages that follow a login.
pub proof fn law_login_page_follows_no_login(region: Region)
    ensures
        !login_complete("https://"@ + region.domain_text() + "/account/login"@, region),
{
    reveal_strlit("https://");
    reveal_strlit("www.nexon.com");
    reveal_strlit("tw.nexon.com");
    reveal_strlit("sea.nexon.com");
    reveal_strlit("th.nexon.com");
    reveal_strlit("/account/login");
    reveal_strlit("/main/");
    reveal_strlit("https://www.nexon.com/account/");
    reveal_strlit("/account/");
    reveal_strlit("/setting");
    reveal_strlit("en");
    reveal_strlit("zh");
    reveal_strlit("th");
    let domain = region.domain_text();
    let head = "https://"@ + domain;
    let url = head + "/account/login"@;
    let pages = region.landing_pages();
    assert(bare("https://"@) && bare(domain) && bare("/account/login"@));
    assert(bare(url)) by {
        assert forall|i: int| 0 <= i < url.len() implies #[trigger] url[i] != '?' && url[i]
            != '#' by {
            if i < 8 {
                assert(url[i] == "https://"@[i]);
            } else if i < head.len() {
                assert(url[i] == domain[i - 8]);
            } else {
                assert(url[i] == "/account/login"@[i - head.len()]);
            }
        }
    }
    // The portal: `/main` and `/account` part behind the slash.
    lemma_not_under(url, pages[0], head.len() as int + 1);
    // The settings on the central portal: `login` and the language part, or the
    // domains do.
    if region is Global {
        lemma_not_under(url, pages[1], 30);
    } else {
        lemma_not_under(url, pages[1], 8);
        lemma_not_under(url, pages[2], head.len() as int + 9);
    }
    if login_complete(url, region) {
        let i = choose|i: int| 0 <= i < pages.len() && lies_under(url, #[trigger] pages[i]);
        assert(i == 0 || i == 1 || i == 2);
    }
}

/// Whether a cookie survives being written to a session and read back: its name
/// and value are single lines without white space around them, and the line
/// they make is neither a comment nor a section, with the name before the first
/// `=`.
pub open spec fn keepable(cookie: (Seq<char>, Seq<char>)) -> bool {
    let (name, value) = cookie;
    &&& !name.contains('\n') && !value.contains('\n')
    &&& text::trimmed(name) == name && text::trimmed(value) == value
    &&& name.len() > 0 && !name.contains('=')
    &&& name[0] != '#' && name[0] != ';'
    &&& !(name[0] == '[' && value.len() > 0 && value.last() == ']')
}

/// Reading lines in two parts is reading them all.
proof fn lemma_fold_append(state: IniState, a: Seq<Seq<char>>, b: Seq<Seq<char>>)
    ensures
        ini_fold(state, a + b) == ini_fold(ini_fold(state, a), b),
    decreases b.len(),
{
    if b.len() == 0 {
        assert(a + b =~= a);
    } else {
        lemma_fold_append(state, a, b.drop_last());
        assert((a + b).drop_last() =~= a + b.drop_last());
        assert((a + b).last() == b.last());
    }
}

/// What the line `key = value` reads as.
proof fn lemma_split_line(key: Seq<char>, value: Seq<char>)
    requires
        text::trimmed(key) == key,
        text::trimmed(value) == value,
        key.len() > 0,
        !key.contains('='),
    ensures
        ({
            let raw = key + seq![' ', '=', ' '] + value;
            let line = text::trimmed(raw);
            let eq = text::first_at(line, '=');
            &&& line == (if value.len() == 0 { key + seq![' ', '='] } else { raw })
            &&& eq == key.len() + 1
            &&& text::trimmed(line.subrange(0, eq)) == key
            &&& text::trimmed(line.subrange(eq + 1, line.len() as int)) == value
        }),
{
    let raw = key + seq![' ', '=', ' '] + value;
    let short = key + seq![' ', '='];
    text::lemma_trimmed_is(key);
    text::lemma_trimmed_is(value);
    text::lemma_trimmed_space(key);
    text::lemma_trimmed_space(value);
    let line = if value.len() == 0 {
        short
    } else {
        raw
    };
    if value.len() == 0 {
        text::lemma_trimmed_is(short);
        text::lemma_trimmed_space(short);
        assert(raw =~= short.push(' '));
    } else {
        assert(raw.last() == value.last());
        text::lemma_trimmed_is(raw);
    }
    assert forall|j: int| 0 <= j < key.len() + 1 implies line[j] != '=' by {
        if j < key.len() {
            assert(key.contains(key[j]));
        }
    }
    text::lemma_first_at_is(line, '=', key.len() as int + 1);
    let eq = key.len() as int + 1;
    assert(line.subrange(0, eq) =~= key.push(' '));
    if value.len() == 0 {
        assert(line.subrange(eq + 1, line.len() as int) =~= value);
    } else {
        assert(line.subrange(eq + 1, line.len() as int) =~= seq![' '] + value);
    }
}

/// A line of a cookie that can be kept adds that cookie.
proof fn lemma_cookie_line(state: IniState, cookie: (Seq<char>, Seq<char>))
    requires
        keepable(cookie),
        state.section == "cookies"@,
    ensures
        text::lines_of(cookie.0 + " = "@ + cookie.1 + "\n"@) == seq![
            cookie.0 + " = "@ + cookie.1,
        ],
        ini_step(state, cookie.0 + " = "@ + cookie.1) == (IniState {
            cookies: state.cookies.push(cookie),
            ..state
        }),
{
    reveal_strlit(" = ");
    reveal_strlit("\n");
    reveal_strlit("cookies");
    reveal_strlit("account");
    let (name, value) = cookie;
    let raw = name + " = "@ + value;
    assert(" = "@ =~= seq![' ', '=', ' ']);
    assert(raw + "\n"@ =~= raw.push('\n'));
    assert(!raw.contains('\n')) by {
        if raw.contains('\n') {
            let i = choose|i: int| 0 <= i < raw.len() && raw[i] == '\n';
            if i < name.len() {
                assert(name.contains(name[i]));
            } else if i >= name.len() + 3 {
                assert(value.contains(value[i - name.len() - 3]));
            }
        }
    }
    text::lemma_one_line(raw);
    text::lemma_trimmed_is(value);
    assert(text::without_cr(raw) == raw) by {
        if value.len() > 0 {
            assert(raw.last() == value.last());
        }
    }
    lemma_split_line(name, value);
    let line = text::trimmed(raw);
    assert(line[0] == name[0]);
    assert("cookies"@.len() != "account"@.len() || "cookies"@[0] != "account"@[0]);
    assert(!section_line(line)) by {
        if value.len() > 0 {
            assert(line.last() == value.last());
        }
    }
}

/// The lines of the cookies add them all.
#[verifier::spinoff_prover]
#[verifier::rlimit(60)]
proof fn lemma_cookie_lines(state: IniState, cookies: Seq<(Seq<char>, Seq<char>)>)
    requires
        forall|i: int| 0 <= i < cookies.len() ==> keepable(#[trigger] cookies[i]),
        state.section == "cookies"@,
    ensures
        cookie_lines(cookies).len() == 0 || cookie_lines(cookies).last() == '\n',
        ini_fold(state, text::lines_of(cookie_lines(cookies))) == (IniState {
            cookies: state.cookies + cookies,
            ..state
        }),
    decreases cookies.len(),
{
    if cookies.len() == 0 {
        assert(state.cookies + cookies =~= state.cookies);
    } else {
        let before = cookies.drop_last();
        let cookie = cookies.last();
        assert forall|i: int| 0 <= i < before.len() implies keepable(#[trigger] before[i]) by {
            assert(before[i] == cookies[i]);
        }
        lemma_cookie_lines(state, before);
        let mid = IniState { cookies: state.cookies + before, ..state };
        assert(keepable(cookie)) by {
            assert(cookie == cookies[cookies.len() - 1]);
        }
        lemma_cookie_line(mid, cookie);
        let line = cookie.0 + " = "@ + cookie.1;
        assert(cookie_lines(cookies) =~= cookie_lines(before) + (line + "\n"@));
        reveal_strlit("\n");
        text::lemma_lines_append(cookie_lines(before), line + "\n"@);
        let one = seq![line];
        lemma_fold_append(state, text::lines_of(cookie_lines(before)), one);
        assert(one.drop_last() =~= Seq::empty());
        assert(ini_fold(mid, one) == ini_step(ini_fold(mid, one.drop_last()), line));
        assert((state.cookies + before).push(cookie) =~= state.cookies + cookies);
    }
}

/// A session that is written and read back is the same session, whatever the
/// region, for every list of cookies that can be kept and is not empty.
pub proof fn law_session_round_trip(region: Region, cookies: Seq<(Seq<char>, Seq<char>)>)
    requires
        cookies.len() > 0,
        forall|i: int| 0 <= i < cookies.len() ==> keepable(#[trigger] cookies[i]),
    ensures
        ini_read(ini_text(region, cookies)).region == Some(region),
        ini_read(ini_text(region, cookies)).cookies == cookies,
{
    reveal_strlit("[account]\n");
    reveal_strlit("[cookies]\n");
    reveal_strlit("region = ");
    reveal_strlit("region");
    reveal_strlit("\n\n");
    reveal_strlit("account");
    reveal_strlit("cookies");
    reveal_strlit("ww");
    reveal_strlit("tw");
    reveal_strlit("sea");
    reveal_strlit("th");
    let code = region.code_text();
    let l0 = seq!['['] + "account"@ + seq![']'];
    let l1 = "region"@ + seq![' ', '=', ' '] + code;
    let l2 = Seq::<char>::empty();
    let l3 = seq!['['] + "cookies"@ + seq![']'];
    let rest = cookie_lines(cookies);
    let t3 = l3.push('\n') + rest;
    let t2 = l2.push('\n') + t3;
    let t1 = l1.push('\n') + t2;
    let t0 = l0.push('\n') + t1;
    assert("[account]\n"@ =~= l0.push('\n'));
    assert("[cookies]\n"@ =~= l3.push('\n'));
    assert("region = "@ + code + "\n\n"@ =~= l1.push('\n') + l2.push('\n'));
    assert(ini_text(region, cookies) =~= t0);
    assert(!l0.contains('\n'));
    assert(!l1.contains('\n'));
    assert(!l2.contains('\n'));
    assert(!l3.contains('\n'));
    text::lemma_one_line(l0);
    text::lemma_one_line(l1);
    text::lemma_one_line(l2);
    text::lemma_one_line(l3);
    text::lemma_lines_append(l0.push('\n'), t1);
    text::lemma_lines_append(l1.push('\n'), t2);
    text::lemma_lines_append(l2.push('\n'), t3);
    text::lemma_lines_append(l3.push('\n'), rest);
    let head = seq![l0, l1, l2, l3];
    assert(text::lines_of(t0) =~= head + text::lines_of(rest));
    lemma_fold_append(ini_start(), head, text::lines_of(rest));
    let s4 = lemma_head_lines(region);
    assert(s4.cookies + cookies =~= cookies);
    lemma_cookie_lines(s4, cookies);
}

/// What the lines before the cookies come to.
proof fn lemma_head_lines(region: Region) -> (after: IniState)
    ensures
        after == (IniState {
            section: "cookies"@,
            region: Some(region),
            cookies: Seq::empty(),
        }),
        ini_fold(
            ini_start(),
            seq![
                seq!['['] + "account"@ + seq![']'],
                "region"@ + seq![' ', '=', ' '] + region.code_text(),
                Seq::<char>::empty(),
                seq!['['] + "cookies"@ + seq![']'],
            ],
        ) == after,
{
    reveal_strlit("region");
    reveal_strlit("account");
    reveal_strlit("cookies");
    reveal_strlit("ww");
    reveal_strlit("tw");
    reveal_strlit("sea");
    reveal_strlit("th");
    let code = region.code_text();
    let l0 = seq!['['] + "account"@ + seq![']'];
    let l1 = "region"@ + seq![' ', '=', ' '] + code;
    let l2 = Seq::<char>::empty();
    let l3 = seq!['['] + "cookies"@ + seq![']'];
    let s1 = IniState { section: "account"@, region: None, cookies: Seq::empty() };
    let s2 = IniState { section: "account"@, region: Some(region), cookies: Seq::empty() };
    let s4 = IniState { section: "cookies"@, region: Some(region), cookies: Seq::empty() };
    text::lemma_trimmed_is(l0);
    text::lemma_trimmed_is(l2);
    text::lemma_trimmed_is(l3);
    text::lemma_trimmed_is("account"@);
    text::lemma_trimmed_is("cookies"@);
    text::lemma_lower_is("account"@);
    text::lemma_lower_is("cookies"@);
    assert(l0.subrange(1, l0.len() - 1) =~= "account"@);
    assert(l3.subrange(1, l3.len() - 1) =~= "cookies"@);
    assert(ini_step(ini_start(), l0) == s1);
    text::lemma_trimmed_is("region"@);
    text::lemma_trimmed_is(code);
    assert(!"region"@.contains('='));
    lemma_split_line("region"@, code);
    law_code_names_region(region);
    assert(text::trimmed(l1)[0] == 'r');
    assert(ini_step(s1, l1) == s2);
    assert(ini_step(s2, l2) == s2);
    assert(ini_step(s2, l3) == s4);
    let head = seq![l0, l1, l2, l3];
    let h3 = seq![l0, l1, l2];
    let h2 = seq![l0, l1];
    let h1 = seq![l0];
    let h0 = Seq::<Seq<char>>::empty();
    assert(head.drop_last() =~= h3);
    assert(h3.drop_last() =~= h2);
    assert(h2.drop_last() =~= h1);
    assert(h1.drop_last() =~= h0);
    assert(ini_fold(ini_start(), h0) == ini_start());
    assert(ini_fold(ini_start(), h1) == s1);
    assert(ini_fold(ini_start(), h2) == s2);
    assert(ini_fold(ini_start(), h3) == s2);
    assert(ini_fold(ini_start(), head) == s4);
    s4
}

/// A region is named by its code, by the aliases of it, and by nothing else, in
/// any case and with white space around it.
pub proof fn law_regions_have_their_names(raw: Seq<char>)
    ensures
        ({
            let name = text::lower(text::trimmed(raw));
            &&& region_named(raw) == Some(Region::Global) <==> (name == "ww"@ || name == "gl"@
                || name == "worldwide"@ || name == "global"@)
            &&& region_named(raw) == Some(Region::Taiwan) <==> (name == "tw"@ || name
                == "taiwan"@)
            &&& region_named(raw) == Some(Region::Sea) <==> (name == "sea"@ || name
                == "southeastasia"@)
            &&& region_named(raw) == Some(Region::Thailand) <==> (name == "th"@ || name
                == "thailand"@)
        }),
{
    reveal_strlit("ww");
    reveal_strlit("gl");
    reveal_strlit("worldwide");
    reveal_strlit("global");
    reveal_strlit("tw");
    reveal_strlit("taiwan");
    reveal_strlit("sea");
    reveal_strlit("southeastasia");
    reveal_strlit("th");
    reveal_strlit("thailand");
    let name = text::lower(text::trimmed(raw));
    assert("ww"@[0] == 'w' && "worldwide"@[0] == 'w' && "gl"@[0] == 'g' && "global"@[0] == 'g');
    assert("tw"@[1] == 'w' && "th"@[1] == 'h' && "taiwan"@[1] == 'a' && "thailand"@[1] == 'h');
    assert("sea"@[0] == 's' && "southeastasia"@[0] == 's' && "tw"@[0] == 't' && "th"@[0] == 't'
        && "taiwan"@[0] == 't' && "thailand"@[0] == 't');
}

/// A page follows a login exactly where it lies under the region's portal or
/// under the account settings, on the central portal or on the region's own.
pub proof fn law_pages_that_follow_a_login(url: Seq<char>, region: Region)
    ensures
        login_complete(url, region) <==> {
            let language = region.language_text();
            let own = "https://"@ + region.domain_text();
            ||| lies_under(url, own + "/main/"@ + language)
            ||| lies_under(url, "https://www.nexon.com/account/"@ + language + "/setting"@)
            ||| lies_under(url, own + "/account/"@ + language + "/setting"@)
        },
{
    reveal_strlit("https://");
    reveal_strlit("www.nexon.com");
    reveal_strlit("/account/");
    reveal_strlit("https://www.nexon.com/account/");
    let pages = region.landing_pages();
    let language = region.language_text();
    let own = "https://"@ + region.domain_text();
    if region is Global {
        assert(own + "/account/"@ =~= "https://www.nexon.com/account/"@);
    }
    assert(pages[0] == own + "/main/"@ + language);
    assert(pages[1] == "https://www.nexon.com/account/"@ + language + "/setting"@);
    if !(region is Global) {
        assert(pages[2] == own + "/account/"@ + language + "/setting"@);
    }
    if login_complete(url, region) {
        let i = choose|i: int| 0 <= i < pages.len() && lies_under(url, #[trigger] pages[i]);
        assert(i == 0 || i == 1 || i == 2);
    }
    if lies_under(url, pages[0]) || lies_under(url, pages[1]) || (pages.len() > 2 && lies_under(
        url,
        pages[2],
    )) {
        assert(login_complete(url, region));
    }
}

/// The path of an address ends at its first question mark or hash sign.
proof fn lemma_path_len_is_first(url: Seq<char>)
    ensures
        0 <= path_len(url) <= url.len(),
        forall|j: int| 0 <= j < path_len(url) ==> url[j] != '?' && url[j] != '#',
        path_len(url) < url.len() ==> url[path_len(url)] == '?' || url[path_len(url)] == '#',
    decreases url.len(),
{
    if url.len() > 0 && url[0] != '?' && url[0] != '#' {
        let rest = url.drop_first();
        lemma_path_len_is_first(rest);
        assert forall|j: int| 0 <= j < path_len(url) implies url[j] != '?' && url[j] != '#' by {
            if j > 0 {
                assert(url[j] == rest[j - 1]);
            }
        }
    }
}

/// What is left of a text once the slashes at its end are gone is its beginning,
/// and nothing but slashes went.
proof fn lemma_without_slashes(s: Seq<char>)
    ensures
        ({
            let bare = text::without_trailing(s, '/');
            &&& bare.len() <= s.len()
            &&& bare == s.subrange(0, bare.len() as int)
            &&& bare.len() == 0 || bare.last() != '/'
            &&& forall|j: int| bare.len() <= j < s.len() ==> s[j] == '/'
        }),
    decreases s.len(),
{
    if s.len() > 0 && s.last() == '/' {
        let shorter = s.drop_last();
        lemma_without_slashes(shorter);
        let bare = text::without_trailing(s, '/');
        assert(shorter.subrange(0, bare.len() as int) =~= s.subrange(0, bare.len() as int));
        assert forall|j: int| bare.len() <= j < s.len() implies s[j] == '/' by {
            if j < shorter.len() {
                assert(s[j] == shorter[j]);
            }
        }
    } else {
        assert(s.subrange(0, s.len() as int) =~= s);
    }
}

/// An address lies under a prefix, which has no slash at its end and neither a
/// query nor a fragment, exactly where it begins with the prefix and then ends or
/// goes on with a slash, a query or a fragment.
pub proof fn law_addresses_under_a_prefix(url: Seq<char>, prefix: Seq<char>)
    requires
        bare(prefix),
        prefix.len() == 0 || prefix.last() != '/',
    ensures
        lies_under(url, prefix) <==> {
            let n = prefix.len() as int;
            &&& n <= url.len()
            &&& url.subrange(0, n) == prefix
            &&& url.len() == n || url[n] == '/' || url[n] == '?' || url[n] == '#'
        },
{
    let n = prefix.len() as int;
    let whole = url.subrange(0, path_len(url));
    let path = text::without_trailing(whole, '/');
    lemma_path_len_is_first(url);
    lemma_without_slashes(whole);
    lemma_without_slashes(prefix);
    assert(text::without_trailing(prefix, '/') == prefix);
    let deeper = prefix + seq!['/'];
    if lies_under(url, prefix) {
        if path == prefix {
            assert(url.subrange(0, n) =~= prefix);
            if n < path_len(url) {
                assert(whole[n] == '/');
            }
        } else {
            assert(path.subrange(0, n + 1) == deeper);
            assert forall|j: int| 0 <= j <= n implies url[j] == deeper[j] by {
                assert(path.subrange(0, n + 1)[j] == path[j]);
            }
            assert(url.subrange(0, n) =~= prefix);
        }
    }
    if n <= url.len() && url.subrange(0, n) == prefix && (url.len() == n || url[n] == '/' || url[n]
        == '?' || url[n] == '#') {
        assert forall|j: int| 0 <= j < n implies url[j] == prefix[j] by {
            assert(url.subrange(0, n)[j] == url[j]);
        }
        assert(path_len(url) >= n) by {
            if path_len(url) < n {
                let k = path_len(url);
                assert(prefix[k] != '?' && prefix[k] != '#');
            }
        }
        assert(path.len() >= n) by {
            if path.len() < n {
                assert(whole[n - 1] == '/');
                assert(prefix[n - 1] == '/');
            }
        }
        if path.len() == n {
            assert(path =~= prefix);
        } else {
            assert(url[n] == '/');
            assert(path.subrange(0, n + 1) =~= deeper) by {
                assert forall|j: int| 0 <= j <= n implies path[j] == deeper[j] by {
                    assert(path[j] == whole[j]);
                }
            }
        }
    }
}

/// Slashes at the end of a prefix do not count.
pub proof fn law_slashes_behind_a_prefix_do_not_count(
    url: Seq<char>,
    prefix: Seq<char>,
    slashes: nat,
)
    requires
        prefix.len() == 0 || prefix.last() != '/',
    ensures
        lies_under(url, prefix + Seq::new(slashes, |i: int| '/')) == lies_under(url, prefix),
{
    text::law_trailing_characters_go(prefix, '/', slashes);
    text::law_trailing_characters_go(prefix, '/', 0);
    assert(prefix + Seq::new(0, |i: int| '/') =~= prefix);
}

/// A list of cookies is seen as the names and values of the cookies, in order.
pub proof fn law_cookies_are_seen_whole(cookies: Seq<(String, String)>)
    ensures
        cookie_texts(cookies).len() == cookies.len(),
        forall|i: int|
            0 <= i < cookies.len() ==> (#[trigger] cookie_texts(cookies)[i]).0 == cookies[i].0@
                && cookie_texts(cookies)[i].1 == cookies[i].1@,
{
}

/// The pieces of a text between its `"; "`s.
#[verifier::opaque]
pub open spec fn header_pieces(s: Seq<char>) -> Seq<Seq<char>>
    decreases s.len(),
{
    if exists|i: int| #[trigger] breaks_at(s, i) {
        let i = first_break(s);
        if 0 <= i && i + 2 <= s.len() {
            seq![s.subrange(0, i)] + header_pieces(s.subrange(i + 2, s.len() as int))
        } else {
            seq![s]
        }
    } else {
        seq![s]
    }
}

/// Whether a semicolon and a space stand at a position.
pub open spec fn breaks_at(s: Seq<char>, i: int) -> bool {
    0 <= i && i + 2 <= s.len() && s[i] == ';' && s[i + 1] == ' '
}

/// The first position where a semicolon and a space stand.
pub open spec fn first_break(s: Seq<char>) -> int {
    choose|i: int| #[trigger] breaks_at(s, i) && forall|j: int| 0 <= j < i ==> !breaks_at(s, j)
}

/// The name before the first equals sign and the value behind it.
#[verifier::opaque]
pub open spec fn name_and_value(piece: Seq<char>) -> (Seq<char>, Seq<char>) {
    let eq = choose|eq: int|
        0 <= eq < piece.len() && #[trigger] piece[eq] == '=' && forall|j: int|
            0 <= j < eq ==> piece[j] != '=';
    (piece.subrange(0, eq), piece.subrange(eq + 1, piece.len() as int))
}

/// Whether a cookie can be told from its neighbours in a header: its name has no
/// equals sign, and no semicolon stands in it.
pub open spec fn tellable(cookie: (Seq<char>, Seq<char>)) -> bool {
    !cookie.0.contains('=') && !cookie.0.contains(';') && !cookie.1.contains(';')
}

/// The first break of a piece and what follows it is right behind the piece.
proof fn lemma_first_break(piece: Seq<char>, rest: Seq<char>)
    requires
        !piece.contains(';'),
    ensures
        first_break(piece + seq![';', ' '] + rest) == piece.len(),
        breaks_at(piece + seq![';', ' '] + rest, piece.len() as int),
        forall|i: int| !breaks_at(piece, i),
{
    let s = piece + seq![';', ' '] + rest;
    let n = piece.len() as int;
    assert(s[n] == ';' && s[n + 1] == ' ');
    assert forall|j: int| 0 <= j < n implies !breaks_at(s, j) && piece[j] != ';' by {
        assert(piece.contains(piece[j]));
        assert(s[j] == piece[j]);
    }
    assert(breaks_at(s, n));
    let k = first_break(s);
    assert(breaks_at(s, k) && forall|j: int| 0 <= j < k ==> !breaks_at(s, j));
    assert forall|i: int| !breaks_at(piece, i) by {
        if 0 <= i < n {
            assert(piece[i] != ';');
        }
    }
}

/// The pieces of a piece and of what follows it behind a break.
proof fn lemma_pieces_step(piece: Seq<char>, rest: Seq<char>)
    requires
        !piece.contains(';'),
    ensures
        header_pieces(piece + seq![';', ' '] + rest) == seq![piece] + header_pieces(rest),
        header_pieces(piece) == seq![piece],
{
    reveal_with_fuel(header_pieces, 1);
    let s = piece + seq![';', ' '] + rest;
    lemma_first_break(piece, rest);
    let n = piece.len() as int;
    assert(s.subrange(0, n) =~= piece);
    assert(s.subrange(n + 2, s.len() as int) =~= rest);
}

/// The piece of a cookie reads as the cookie.
proof fn lemma_piece_reads(cookie: (Seq<char>, Seq<char>))
    requires
        tellable(cookie),
    ensures
        ({
            let piece = cookie.0 + seq!['='] + cookie.1;
            &&& name_and_value(piece) == cookie
            &&& !piece.contains(';')
        }),
{
    reveal(name_and_value);
    let (name, value) = cookie;
    let piece = name + seq!['='] + value;
    let n = name.len() as int;
    assert(piece[n] == '=');
    assert forall|j: int| 0 <= j < n implies piece[j] != '=' by {
        assert(name.contains(name[j]));
    }
    let eq = choose|eq: int|
        0 <= eq < piece.len() && #[trigger] piece[eq] == '=' && forall|j: int|
            0 <= j < eq ==> piece[j] != '=';
    assert(eq == n);
    assert(piece.subrange(0, n) =~= name);
    assert(piece.subrange(n + 1, piece.len() as int) =~= value);
    if piece.contains(';') {
        let i = choose|i: int| 0 <= i < piece.len() && piece[i] == ';';
        if i < n {
            assert(name.contains(name[i]));
        } else if i > n {
            assert(value.contains(value[i - n - 1]));
        }
    }
}

/// A header with one cookie more in front.
proof fn lemma_header_front(cookie: (Seq<char>, Seq<char>), rest: Seq<(Seq<char>, Seq<char>)>)
    requires
        rest.len() > 0,
    ensures
        header_text(seq![cookie] + rest) == cookie.0 + seq!['='] + cookie.1 + seq![';', ' ']
            + header_text(rest),
    decreases rest.len(),
{
    let all = seq![cookie] + rest;
    let piece = cookie.0 + seq!['='] + cookie.1;
    let last = rest.last();
    let fewer = rest.drop_last();
    assert(rest =~= fewer.push(last));
    law_header_holds_every_cookie(fewer, last);
    law_header_holds_every_cookie(seq![cookie] + fewer, last);
    assert(all =~= (seq![cookie] + fewer).push(last));
    if rest.len() == 1 {
        assert(rest =~= seq![last]);
        assert(seq![cookie] + fewer =~= seq![cookie]);
        law_header_holds_every_cookie(fewer, cookie);
        assert(header_text(all) =~= piece + seq![';', ' '] + header_text(rest));
    } else {
        lemma_header_front(cookie, fewer);
        let tail = seq![';', ' '] + last.0 + seq!['='] + last.1;
        assert(header_text(rest) =~= header_text(fewer) + tail);
        assert(header_text(all) =~= header_text(seq![cookie] + fewer) + tail);
        assert(header_text(all) =~= piece + seq![';', ' '] + (header_text(fewer) + tail));
    }
}

/// The pieces of a header with one cookie more in front.
proof fn lemma_pieces_front(cookie: (Seq<char>, Seq<char>), rest: Seq<(Seq<char>, Seq<char>)>)
    requires
        tellable(cookie),
    ensures
        rest.len() > 0 ==> header_pieces(header_text(seq![cookie] + rest)) == seq![
            cookie.0 + seq!['='] + cookie.1,
        ] + header_pieces(header_text(rest)),
        header_pieces(header_text(seq![cookie])) == seq![cookie.0 + seq!['='] + cookie.1],
        name_and_value(cookie.0 + seq!['='] + cookie.1) == cookie,
{
    let piece = cookie.0 + seq!['='] + cookie.1;
    lemma_piece_reads(cookie);
    lemma_pieces_step(piece, header_text(rest));
    law_header_holds_every_cookie(rest, cookie);
    if rest.len() > 0 {
        lemma_header_front(cookie, rest);
    }
}

/// A header can be read back: parted at its breaks, and each piece at its first
/// equals sign, it gives the cookies again, each with its whole name and value and
/// in order.
pub proof fn law_header_reads_back(cookies: Seq<(Seq<char>, Seq<char>)>)
    requires
        cookies.len() > 0,
        forall|i: int| 0 <= i < cookies.len() ==> tellable(#[trigger] cookies[i]),
    ensures
        header_pieces(header_text(cookies)).len() == cookies.len(),
        forall|i: int|
            0 <= i < cookies.len() ==> name_and_value(
                #[trigger] header_pieces(header_text(cookies))[i],
            ) == cookies[i],
    decreases cookies.len(),
{
    let first = cookies[0];
    let rest = cookies.drop_first();
    assert(tellable(first));
    lemma_pieces_front(first, rest);
    if cookies.len() == 1 {
        assert(cookies =~= seq![first]);
    } else {
        assert(cookies =~= seq![first] + rest);
        assert forall|i: int| 0 <= i < rest.len() implies tellable(#[trigger] rest[i]) by {
            assert(rest[i] == cookies[i + 1]);
        }
        law_header_reads_back(rest);
        let pieces = header_pieces(header_text(cookies));
        let later = header_pieces(header_text(rest));
        assert forall|i: int| 0 <= i < cookies.len() implies name_and_value(#[trigger] pieces[i])
            == cookies[i] by {
            if i > 0 {
                assert(pieces[i] == later[i - 1]);
                assert(name_and_value(later[i - 1]) == rest[i - 1]);
            }
        }
    }
}

/// The header of a list is made of the whole name and the whole value of each
/// cookie: of one it is the name, an equals sign and the value, and a cookie more
/// adds a break and its own, whatever the names and values hold.
pub proof fn law_header_holds_every_cookie(
    cookies: Seq<(Seq<char>, Seq<char>)>,
    cookie: (Seq<char>, Seq<char>),
)
    ensures
        header_text(Seq::empty()) == Seq::<char>::empty(),
        header_text(seq![cookie]) == cookie.0 + seq!['='] + cookie.1,
        cookies.len() > 0 ==> header_text(cookies.push(cookie)) == header_text(cookies) + seq![
            ';',
            ' ',
        ] + cookie.0 + seq!['='] + cookie.1,
{
    reveal_strlit("=");
    reveal_strlit("; ");
    assert("="@ =~= seq!['=']);
    assert("; "@ =~= seq![';', ' ']);
    assert(cookies.push(cookie).drop_last() =~= cookies);
}

/// A line is read without the white space around it, and a line that is blank or
/// a comment changes nothing.
pub proof fn law_blanks_and_comments_say_nothing(
    state: IniState,
    before: Seq<char>,
    line: Seq<char>,
    after: Seq<char>,
)
    requires
        text::blank(before),
        text::blank(after),
        line.len() == 0 || (!text::white(line[0]) && !text::white(line.last())),
    ensures
        ini_step(state, before + line + after) == ini_step(state, line),
        line.len() == 0 || line[0] == '#' || line[0] == ';' ==> ini_step(state, line) == state,
{
    text::law_trimming_bares_the_text(before, line, after);
    text::law_trimming_bares_the_text(Seq::empty(), line, Seq::empty());
    assert(Seq::<char>::empty() + line + Seq::<char>::empty() =~= line);
}

/// A name in square brackets opens a section of that name, in any case and with
/// white space around it, and changes nothing else.
pub proof fn law_brackets_open_a_section(
    state: IniState,
    before: Seq<char>,
    name: Seq<char>,
    after: Seq<char>,
)
    requires
        text::blank(before),
        text::blank(after),
        name.len() == 0 || (!text::white(name[0]) && !text::white(name.last())),
    ensures
        ini_step(state, seq!['['] + before + name + after + seq![']']) == (IniState {
            section: text::lower(name),
            ..state
        }),
{
    let line = seq!['['] + before + name + after + seq![']'];
    text::lemma_trimmed_is(line);
    assert(line.last() == ']');
    assert(line.subrange(1, line.len() - 1) =~= before + name + after);
    text::law_trimming_bares_the_text(before, name, after);
}

/// A line with an equals sign gives the key before the first one the value behind
/// it, without the white space around either: among the cookies it adds a cookie
/// to those before it, in the account section the key `region`, in any case, names
/// the region, and otherwise it changes nothing.
pub proof fn law_lines_give_keys_values(
    state: IniState,
    key: Seq<char>,
    gap: Seq<char>,
    space: Seq<char>,
    value: Seq<char>,
)
    requires
        text::blank(gap),
        text::blank(space),
        key.len() > 0,
        !text::white(key[0]) && !text::white(key.last()),
        !key.contains('='),
        key[0] != '#' && key[0] != ';' && key[0] != '[',
        value.len() > 0,
        !text::white(value[0]) && !text::white(value.last()),
    ensures
        ({
            let line = key + gap + seq!['='] + space + value;
            &&& state.section == "cookies"@ ==> ini_step(state, line) == (IniState {
                cookies: state.cookies.push((key, value)),
                ..state
            })
            &&& state.section == "account"@ && text::lower(key) == "region"@ ==> ini_step(
                state,
                line,
            ) == (IniState { region: region_named(value), ..state })
            &&& state.section == "account"@ && text::lower(key) != "region"@ ==> ini_step(
                state,
                line,
            ) == state
            &&& state.section != "account"@ && state.section != "cookies"@ ==> ini_step(
                state,
                line,
            ) == state
        }),
{
    reveal_strlit("cookies");
    reveal_strlit("account");
    reveal_strlit("region");
    text::lemma_lower_is("region"@);
    let line = key + gap + seq!['='] + space + value;
    assert("cookies"@[0] != "account"@[0]);
    assert(line[0] == key[0]);
    assert(line.last() == value.last());
    text::lemma_trimmed_is(line);
    let eq = key.len() as int + gap.len();
    assert(line[eq] == '=');
    assert forall|j: int| 0 <= j < eq implies line[j] != '=' by {
        if j < key.len() {
            assert(key.contains(key[j]));
        } else {
            assert(text::white(gap[j - key.len()]));
        }
    }
    text::lemma_first_at_is(line, '=', eq);
    assert(line.subrange(0, eq) =~= Seq::<char>::empty() + key + gap);
    assert(line.subrange(eq + 1, line.len() as int) =~= space + value + Seq::<char>::empty());
    text::law_trimming_bares_the_text(Seq::empty(), key, gap);
    text::law_trimming_bares_the_text(space, value, Seq::empty());
}

/// A line without an equals sign that opens no section changes nothing.
pub proof fn law_other_lines_say_nothing(state: IniState, line: Seq<char>)
    requires
        !line.contains('='),
        line.len() == 0 || (!text::white(line[0]) && !text::white(line.last())),
        line.len() < 2 || line[0] != '[' || line.last() != ']',
    ensures
        ini_step(state, line) == state,
{
    text::lemma_trimmed_is(line);
    text::lemma_first_at(line, '=');
    if text::first_at(line, '=') < line.len() {
        assert(line.contains(line[text::first_at(line, '=')]));
    }
}

/// Lines are read one after the other, from a beginning without section, region
/// and cookies.
pub proof fn law_lines_are_read_in_order(state: IniState, a: Seq<Seq<char>>, line: Seq<char>)
    ensures
        ini_fold(state, Seq::empty()) == state,
        ini_fold(state, a.push(line)) == ini_step(ini_fold(state, a), line),
        ini_start().section.len() == 0,
        ini_start().region is None,
        ini_start().cookies.len() == 0,
{
    assert(a.push(line).drop_last() =~= a);
}

/// What is read of a text is what its lines add.
pub proof fn law_text_is_read_by_lines(text: Seq<char>, line: Seq<char>)
    requires
        text.len() == 0 || text.last() == '\n',
        !line.contains('\n'),
        line.len() > 0,
    ensures
        ini_read(Seq::empty()) == ini_start(),
        ini_read(text + line) == ini_step(ini_read(text), line),
        line.last() != '\r' ==> ini_read(text + line.push('\n')) == ini_step(
            ini_read(text),
            line,
        ),
{
    text::law_line_feeds_end_lines(line, Seq::empty());
    text::lemma_lines_append(text, line);
    text::lemma_lines_append(text, line.push('\n'));
    assert(line.push('\n') + Seq::<char>::empty() =~= line.push('\n'));
    let lines = text::lines_of(text);
    assert(lines + seq![line] =~= lines.push(line));
    assert(seq![line] + Seq::<Seq<char>>::empty() =~= seq![line]);
    law_lines_are_read_in_order(ini_start(), lines, line);
}

/// A session is written with its region before its cookies, each cookie on a line
/// of its own, with its whole name and value, in order.
pub proof fn law_cookie_lines_follow_each_other(
    region: Region,
    cookies: Seq<(Seq<char>, Seq<char>)>,
    cookie: (Seq<char>, Seq<char>),
)
    ensures
        ini_text(region, cookies.push(cookie)) == ini_text(region, cookies) + cookie.0 + seq![
            ' ',
            '=',
            ' ',
        ] + cookie.1 + seq!['\n'],
{
    reveal_strlit(" = ");
    reveal_strlit("\n");
    assert(" = "@ =~= seq![' ', '=', ' ']);
    assert("\n"@ =~= seq!['\n']);
    assert(cookies.push(cookie).drop_last() =~= cookies);
    assert(ini_text(region, cookies.push(cookie)) =~= ini_text(region, cookies) + cookie.0 + seq![
        ' ',
        '=',
        ' ',
    ] + cookie.1 + seq!['\n']);
}

/// The message of a reply is its first member, of those that may hold one and in
/// their order, that says anything; members that are missing or blank are passed
/// over.
pub proof fn law_messages_are_looked_for_in_order(
    doc: Map<Seq<char>, Seq<char>>,
    message: Seq<char>,
)
    requires
        message.len() > 0,
        !text::white(message[0]) && !text::white(message.last()),
    ensures
        doc.contains_key("message"@) && doc["message"@] == message ==> api_message(doc) == Some(
            message,
        ),
        says_nothing(doc, "message"@) && doc.contains_key("error"@) && doc["error"@] == message
            ==> api_message(doc) == Some(message),
        says_nothing(doc, "message"@) && says_nothing(doc, "error"@) && doc.contains_key(
            "errorMessage"@,
        ) && doc["errorMessage"@] == message ==> api_message(doc) == Some(message),
        says_nothing(doc, "message"@) && says_nothing(doc, "error"@) && says_nothing(
            doc,
            "errorMessage"@,
        ) && doc.contains_key("msg"@) && doc["msg"@] == message ==> api_message(doc) == Some(
            message,
        ),
        says_nothing(doc, "message"@) && says_nothing(doc, "error"@) && says_nothing(
            doc,
            "errorMessage"@,
        ) && says_nothing(doc, "msg"@) && doc.contains_key("detail"@) && doc["detail"@] == message
            ==> api_message(doc) == Some(message),
        says_nothing(doc, "message"@) && says_nothing(doc, "error"@) && says_nothing(
            doc,
            "errorMessage"@,
        ) && says_nothing(doc, "msg"@) && says_nothing(doc, "detail"@) ==> api_message(doc) is None,
{
    let a = member(doc, "message"@);
    let b = member(doc, "error"@);
    let c = member(doc, "errorMessage"@);
    let d = member(doc, "msg"@);
    let e = member(doc, "detail"@);
    let all = seq![a, b, c, d, e];
    let some = Some(message);
    let none = Seq::<Option<Seq<char>>>::empty();
    if doc.contains_key("message"@) && doc["message"@] == message {
        text::law_first_that_says_something(none, message, seq![b, c, d, e]);
        assert(all =~= none + seq![some] + seq![b, c, d, e]);
    }
    if says_nothing(doc, "message"@) {
        if doc.contains_key("error"@) && doc["error"@] == message {
            text::law_first_that_says_something(seq![a], message, seq![c, d, e]);
            assert(all =~= seq![a] + seq![some] + seq![c, d, e]);
        }
        if says_nothing(doc, "error"@) {
            if doc.contains_key("errorMessage"@) && doc["errorMessage"@] == message {
                text::law_first_that_says_something(seq![a, b], message, seq![d, e]);
                assert(all =~= seq![a, b] + seq![some] + seq![d, e]);
            }
            if says_nothing(doc, "errorMessage"@) {
                if doc.contains_key("msg"@) && doc["msg"@] == message {
                    text::law_first_that_says_something(seq![a, b, c], message, seq![e]);
                    assert(all =~= seq![a, b, c] + seq![some] + seq![e]);
                }
                if says_nothing(doc, "msg"@) {
                    if doc.contains_key("detail"@) && doc["detail"@] == message {
                        text::law_first_that_says_something(seq![a, b, c, d], message, none);
                        assert(all =~= seq![a, b, c, d] + seq![some] + none);
                    }
                    if says_nothing(doc, "detail"@) {
                        text::law_first_that_says_something(all, message, none);
                    }
                }
            }
        }
    }
}

/// Whether a member is missing or blank.
pub open spec fn says_nothing(doc: Map<Seq<char>, Seq<char>>, key: Seq<char>) -> bool {
    !doc.contains_key(key) || text::blank(doc[key])
}

/// An address in a reply is taken whatever the status. Without one, a status or a
/// message that tells of a missing product comes before one that tells of a
/// missing permission, wherever in the message the words stand and in any case.
pub proof fn law_replies_are_told_apart(
    status: u16,
    body: Seq<char>,
    url: Seq<char>,
    a: Seq<char>,
    words: Seq<char>,
    b: Seq<char>,
)
    ensures
        ({
            let message = a + words + b;
            let lower = text::lower(words);
            let missing = lower == "not found"@ || lower == "cannot be found"@;
            let barred = lower == "permission"@ || lower == "not authorized"@ || lower
                == "unauthorized"@ || lower == "forbidden"@;
            &&& url.len() > 0 ==> forall|m: Option<Seq<char>>| #[trigger]
                branch_verdict(status, body, Some(url), m) == BranchVerdict::Url(url)
            &&& branch_verdict(status, body, None, Some(message)) == failure_verdict(
                status,
                message,
            )
            &&& branch_verdict(status, body, Some(Seq::empty()), Some(message))
                == failure_verdict(status, message)
            &&& branch_verdict(status, body, None, None) == failure_verdict(
                status,
                text::trimmed(body),
            )
            &&& missing || status == 404 ==> failure_verdict(status, message)
                == BranchVerdict::NotFound
            &&& barred || status == 401 || status == 403 ==> failure_verdict(status, message)
                == BranchVerdict::NoPermission || failure_verdict(status, message)
                == BranchVerdict::NotFound
        }),
{
    let message = a + words + b;
    let lower = text::lower(words);
    assert(text::lower(message) =~= text::lower(a) + lower + text::lower(b));
    text::law_parts_are_found(text::lower(a), lower, text::lower(b));
}

/// A product is missing, or barred, only where the status or the message tells of
/// it; any other message is handed on as it is, and an empty one as silence.
pub proof fn law_other_failures_are_handed_on(status: u16, message: Seq<char>)
    ensures
        ({
            let lower = text::lower(message);
            let missing = status == 404 || text::occurs(lower, "not found"@) || text::occurs(
                lower,
                "cannot be found"@,
            );
            let barred = status == 401 || status == 403 || text::occurs(lower, "permission"@)
                || text::occurs(lower, "not authorized"@) || text::occurs(lower, "unauthorized"@)
                || text::occurs(lower, "forbidden"@);
            let verdict = failure_verdict(status, message);
            &&& verdict == BranchVerdict::NotFound <==> missing
            &&& verdict == BranchVerdict::NoPermission <==> barred && !missing
            &&& !missing && !barred && message.len() > 0 ==> verdict == BranchVerdict::Message(
                message,
            )
            &&& !missing && !barred && message.len() == 0 ==> verdict == BranchVerdict::Silent
        }),
{
}

/// A reply that is JSON is judged by its address and its message, and any other by
/// its body.
pub proof fn law_bodies_are_judged_by_their_members(
    status: u16,
    body: Seq<char>,
    doc: Map<Seq<char>, Seq<char>>,
)
    ensures
        outside::json_document(body) is Err ==> body_verdict(status, body) == failure_verdict(
            status,
            text::trimmed(body),
        ),
        outside::json_document(body) == Ok::<Map<Seq<char>, Seq<char>>, Seq<char>>(doc) ==> {
            &&& doc.contains_key("manifestUrl"@) && doc["manifestUrl"@].len() > 0 ==> body_verdict(
                status,
                body,
            ) == BranchVerdict::Url(doc["manifestUrl"@])
            &&& !doc.contains_key("manifestUrl"@) || doc["manifestUrl"@].len() == 0
                ==> body_verdict(status, body) == failure_verdict(
                status,
                match api_message(doc) {
                    Some(message) => message,
                    None => text::trimmed(body),
                },
            )
        },
        filled(None) is None,
        filled(Some(Seq::empty())) is None,
        body.len() > 0 ==> filled(Some(body)) == Some(body),
        doc.contains_key(body) ==> member(doc, body) == Some(doc[body]),
        !doc.contains_key(body) ==> member(doc, body) is None,
{
}

/// A verdict is answered by what it says: the address, or an error for the
/// product and the status.
pub proof fn law_verdicts_are_answered(
    appid: Seq<char>,
    status: u16,
    verdict: BranchVerdict,
    result: Result<String, BranchError>,
)
    requires
        answers(result, appid, status, verdict),
    ensures
        result is Ok <==> verdict is Url,
        result matches Ok(url) ==> verdict == BranchVerdict::Url(url@),
        result matches Err(BranchError::NotFound { appid: a }) ==> verdict is NotFound && a@ == appid,
        result matches Err(BranchError::NoPermission { appid: a }) ==> verdict is NoPermission && a@
            == appid,
        result matches Err(BranchError::Silent { appid: a, status: s }) ==> verdict is Silent && a@
            == appid && s == status,
        result matches Err(BranchError::Message { appid: a, status: s, message }) ==> verdict
            == BranchVerdict::Message(message@) && a@ == appid && s == status,
{
}

/// Cookies are read for the region's own domain and, where that is another, for
/// the central portal, in this order.
pub proof fn law_cookies_are_read_for_both_domains(region: Region)
    ensures
        cookie_pages(region)[0] == "https://"@ + region.domain_text() + "/"@,
        region.domain_text() == "www.nexon.com"@ ==> cookie_pages(region).len() == 1,
        region.domain_text() != "www.nexon.com"@ ==> cookie_pages(region).len() == 2
            && cookie_pages(region)[1] == "https://www.nexon.com/"@,
{
    reveal_strlit("www.nexon.com");
    reveal_strlit("tw.nexon.com");
    reveal_strlit("sea.nexon.com");
    reveal_strlit("th.nexon.com");
    assert("www.nexon.com"@.len() == 13 && "tw.nexon.com"@.len() == 12 && "th.nexon.com"@.len()
        == 12);
    assert("sea.nexon.com"@[0] == 's' && "www.nexon.com"@[0] == 'w');
}

/// A cookie whose name is new is kept behind those before it, with its value; one
/// whose name was there before is dropped.
pub proof fn law_new_names_are_added(
    cookies: Seq<(Seq<char>, Seq<char>)>,
    cookie: (Seq<char>, Seq<char>),
)
    ensures
        first_of_each_name(Seq::empty()) == Seq::<(Seq<char>, Seq<char>)>::empty(),
        (forall|i: int| 0 <= i < cookies.len() ==> (#[trigger] cookies[i]).0 != cookie.0)
            ==> first_of_each_name(cookies.push(cookie)) == first_of_each_name(cookies).push(
            cookie,
        ),
        (exists|i: int| 0 <= i < cookies.len() && (#[trigger] cookies[i]).0 == cookie.0)
            ==> first_of_each_name(cookies.push(cookie)) == first_of_each_name(cookies),
{
    assert(cookies.push(cookie).drop_last() =~= cookies);
    lemma_kept_names(cookies, cookie.0);
}

/// The cookies of the replies are those of each that has any, one reply after the
/// other; the failure that is told is the last one.
pub proof fn law_replies_are_taken_in_order(
    replies: Seq<CookieReply>,
    url: String,
    cookies: Vec<(String, String)>,
    error: String,
)
    ensures
        cookies_in(Seq::empty()) == Seq::<(Seq<char>, Seq<char>)>::empty(),
        last_failure(Seq::empty()) is None,
        cookies_in(replies.push((url, Ok(cookies)))) == cookies_in(replies) + cookie_texts(
            cookies@,
        ),
        cookies_in(replies.push((url, Err(error)))) == cookies_in(replies),
        last_failure(replies.push((url, Ok(cookies)))) == last_failure(replies),
        last_failure(replies.push((url, Err(error)))) == Some((url@, error@)),
{
    assert(replies.push((url, Ok(cookies))).drop_last() =~= replies);
    assert(replies.push((url, Err(error))).drop_last() =~= replies);
}

/// A message about a reply names the product, and the status and what the service
/// said where it said something else than the usual.
pub proof fn law_branch_messages(appid: String, status: u16, message: String)
    ensures
        text::begins((BranchError::NotFound { appid }).words(), "product '"@ + appid@ + "' was not found. "@),
        text::begins(
            (BranchError::NoPermission { appid }).words(),
            "your account does not have permission for product '"@ + appid@ + "'. "@,
        ),
        (BranchError::Silent { appid, status }).words() == "branch API returned HTTP "@
            + numerals::decimal(status as nat) + " with no manifestUrl for product '"@ + appid@
            + "'."@,
        (BranchError::Message { appid, status, message }).words()
            == "branch API error for product '"@ + appid@ + "' (HTTP "@ + numerals::decimal(
            status as nat,
        ) + "): "@ + message@,
{
    reveal_strlit("' was not found. ");
    reveal_strlit(
        "' was not found. Double-check the appid — it may be wrong, retired, or not published in this account's region.",
    );
    reveal_strlit("'. ");
    reveal_strlit(
        "'. It may require ownership/entitlement, or a different account region (try `nxdl nxl --login <region>`).",
    );
    let absent = (BranchError::NotFound { appid }).words();
    let front = "product '"@ + appid@ + "' was not found. "@;
    assert(absent.subrange(0, front.len() as int) =~= front);
    let barred = (BranchError::NoPermission { appid }).words();
    let head = "your account does not have permission for product '"@ + appid@ + "'. "@;
    assert(barred.subrange(0, head.len() as int) =~= head);
}

/// A message about a session, about a reply that is no JSON and about a login says
/// what is missing, and why.
pub proof fn law_login_messages(cause: String, url: String, error: String)
    ensures
        SessionError::NoRegion.words() == "nxl.ini is missing a valid [account] region"@,
        SessionError::NoCookies.words() == "nxl.ini has no [cookies]; re-run `nxdl nxl --login`"@,
        (NotJson { cause }).words() == "failed to parse account response as JSON: "@ + cause@,
        (CaptureError::Read { url, error }).words() == "failed to read cookies from WebView for "@
            + url@ + ": "@ + error@,
        CaptureError::NoCookies.words() == "no cookies were found for the logged-in session"@,
        CaptureError::Closed.words() == "login window was closed before the login completed"@,
{
}

} // verus!

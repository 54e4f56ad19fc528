//! Choosing a proxy.
use vstd::prelude::*;
use vstd::string::*;
use crate::text;

verus! {

/// A proxy address with a scheme: `http` where it has none.
pub open spec fn with_scheme(url: Seq<char>) -> Seq<char> {
    if text::occurs(url, "://"@) {
        url
    } else {
        "http://"@ + url
    }
}

/// Whether an address names a scheme.
fn has_scheme(url: &[char]) -> (r: bool)
    ensures
        r == text::occurs(url@, "://"@),
{
    text::contains(url, text::to_chars("://").as_slice())
}

/// Prepends a default `http://` scheme to a proxy address that lacks one.
pub fn normalize_proxy_url(url: &str) -> (normal: String)
    ensures
        normal@ == with_scheme(url@),
{
    let chars = text::to_chars(url);
    let mut normal = String::new();
    if !has_scheme(chars.as_slice()) {
        normal.append("http://");
    }
    normal.append(url);
    assert(normal@ =~= with_scheme(url@));
    normal
}

/// The variables that may name a proxy, the most specific first.
pub open spec fn proxy_variables() -> Seq<Seq<char>> {
    seq![
        "ALL_PROXY"@,
        "all_proxy"@,
        "HTTPS_PROXY"@,
        "https_proxy"@,
        "HTTP_PROXY"@,
        "http_proxy"@,
    ]
}

/// The variables that may name a proxy, the most specific first.
pub fn proxy_variable_names() -> (names: Vec<String>)
    ensures
        text::texts(names@) == proxy_variables(),
{
    let mut names: Vec<String> = Vec::new();
    names.push("ALL_PROXY".to_owned());
    names.push("all_proxy".to_owned());
    names.push("HTTPS_PROXY".to_owned());
    names.push("https_proxy".to_owned());
    names.push("HTTP_PROXY".to_owned());
    names.push("http_proxy".to_owned());
    assert(text::texts(names@) =~= proxy_variables());
    names
}

/// The proxy of the system: the first of the variables' values that is set and
/// not blank, or else what the operating system has configured.
pub open spec fn system_choice(
    values: Seq<Option<Seq<char>>>,
    configured: Option<Seq<char>>,
) -> Option<Seq<char>> {
    match text::first_filled_in(values) {
        Some(value) => Some(with_scheme(value)),
        None => configured,
    }
}

/// Chooses the system's proxy by the values of the variables, in the order of
/// `proxy_variable_names`, and what the operating system has configured.
pub fn system_proxy(values: &[Option<String>], configured: Option<String>) -> (proxy: Option<
    String,
>)
    ensures
        text::text_in(proxy) == system_choice(
            text::texts_in(values@),
            text::text_in(configured),
        ),
{
    match text::pick_filled_in(values) {
        Some(value) => Some(normalize_proxy_url(value.as_str())),
        None => configured,
    }
}

/// What the option for a proxy comes to.
#[derive(Clone, Debug)]
pub enum ProxyChoice {
    /// No proxy is asked for.
    Direct,
    /// This proxy is asked for.
    Given(String),
    /// The system's proxy is asked for, and this is it.
    System(String),
    /// The system's proxy is asked for, and there is none.
    NoSystem,
}

/// The address in an option, without the white space around it; nothing where
/// it is blank.
pub open spec fn given_address(arg: Option<Seq<char>>) -> Option<Seq<char>> {
    match arg {
        Some(s) if text::trimmed(s).len() > 0 => Some(text::trimmed(s)),
        _ => None,
    }
}

impl ProxyChoice {
    /// The proxy to use, or `None` for a direct connection.
    pub open spec fn address(self) -> Option<Seq<char>> {
        match self {
            ProxyChoice::Given(url) => Some(url@),
            ProxyChoice::System(url) => Some(url@),
            _ => None,
        }
    }

    /// The proxy to use, or `None` for a direct connection.
    pub fn url(&self) -> (url: Option<String>)
        ensures
            text::text_in(url) == self.address(),
    {
        match self {
            ProxyChoice::Given(url) => Some(url.clone()),
            ProxyChoice::System(url) => Some(url.clone()),
            _ => None,
        }
    }

    /// What to report about the choice, if anything.
    pub open spec fn words(self) -> Option<Seq<char>> {
        match self {
            ProxyChoice::Direct => None,
            ProxyChoice::Given(url) => Some("using proxy: "@ + url@),
            ProxyChoice::System(url) => Some("using system proxy: "@ + url@),
            ProxyChoice::NoSystem => Some(
                "no system proxy configured; connecting directly."@,
            ),
        }
    }

    /// What to report about the choice, if anything.
    pub fn report(&self) -> (line: Option<String>)
        ensures
            text::text_in(line) == self.words(),
    {
        match self {
            ProxyChoice::Direct => None,
            ProxyChoice::Given(url) => {
                let mut line = String::new();
                line.append("using proxy: ");
                line.append(url.as_str());
                Some(line)
            },
            ProxyChoice::System(url) => {
                let mut line = String::new();
                line.append("using system proxy: ");
                line.append(url.as_str());
                Some(line)
            },
            ProxyChoice::NoSystem => Some(
                "no system proxy configured; connecting directly.".to_owned(),
            ),
        }
    }
}

/// Resolves the proxy option, with the proxy of the system at hand.
///
/// - `None` (option absent): no proxy.
/// - `Some(None)` or a blank value: the system's proxy.
/// - any other value: that proxy, with an `http://` scheme when none is given.
pub fn resolve_proxy(arg: Option<&Option<String>>, system: Option<String>) -> (choice: ProxyChoice)
    ensures
        match arg {
            None => choice is Direct,
            Some(value) => match given_address(text::text_in(*value)) {
                Some(url) => choice matches ProxyChoice::Given(u) && u@ == with_scheme(url),
                None => match system {
                    Some(url) => choice == ProxyChoice::System(url),
                    None => choice is NoSystem,
                },
            },
        },
{
    match arg {
        None => ProxyChoice::Direct,
        Some(value) => {
            if let Some(s) = value {
                let chars = text::to_chars(s.as_str());
                let url = text::trim(chars.as_slice());
                if url.len() > 0 {
                    return ProxyChoice::Given(
                        normalize_proxy_url(text::from_chars(url).as_str()),
                    );
                }
            }
            match system {
                Some(url) => ProxyChoice::System(url),
                None => ProxyChoice::NoSystem,
            }
        },
    }
}

// ---------------------------------------------------------------------------
// The proxy setting of Windows
// ---------------------------------------------------------------------------

/// The address that one part of a list, such as `https=host:port`, gives for a
/// protocol.
pub open spec fn part_address(part: Seq<char>, protocol: Seq<char>) -> Option<Seq<char>> {
    let eq = text::first_at(part, '=');
    if eq < part.len() && text::lower(text::trimmed(part.subrange(0, eq))) == protocol {
        let address = text::trimmed(part.subrange(eq + 1, part.len() as int));
        if address.len() > 0 {
            Some(address)
        } else {
            None
        }
    } else {
        None
    }
}

/// The address that the last part of a list which gives one gives for a
/// protocol.
pub open spec fn list_address(parts: Seq<Seq<char>>, protocol: Seq<char>) -> Option<Seq<char>>
    decreases parts.len(),
{
    if parts.len() == 0 {
        None
    } else {
        match part_address(parts.last(), protocol) {
            Some(address) => Some(address),
            None => list_address(parts.drop_last(), protocol),
        }
    }
}

/// The proxy that the setting names.
pub open spec fn setting_proxy(setting: Seq<char>) -> Option<Seq<char>> {
    let server = text::trimmed(setting);
    let parts = text::split_on(server, ';');
    if server.len() == 0 {
        None
    } else if !server.contains('=') {
        Some(with_scheme(server))
    } else {
        match (
            list_address(parts, "https"@),
            list_address(parts, "http"@),
            list_address(parts, "socks"@),
        ) {
            (Some(address), _, _) => Some(with_scheme(address)),
            (None, Some(address), _) => Some(with_scheme(address)),
            (None, None, Some(address)) => if text::occurs(address, "://"@) {
                Some(address)
            } else {
                Some("socks5://"@ + address)
            },
            (None, None, None) => None,
        }
    }
}

/// Computes `part_address`.
fn find_in_part(part: &str, protocol: &str) -> (address: Option<String>)
    ensures
        text::text_in(address) == part_address(part@, protocol@),
{
    let chars = text::to_chars(part);
    let s = chars.as_slice();
    let eq = text::find_char(s, '=');
    if eq >= s.len() {
        return None;
    }
    let name = text::to_lower(text::trim(vstd::slice::slice_subrange(s, 0, eq)));
    if !text::spells(name.as_slice(), protocol) {
        return None;
    }
    let address = text::trim(vstd::slice::slice_subrange(s, eq + 1, s.len()));
    if address.len() == 0 {
        return None;
    }
    Some(text::from_chars(address))
}

/// Computes `list_address`.
fn find_in_list(parts: &Vec<String>, protocol: &str) -> (address: Option<String>)
    ensures
        text::text_in(address) == list_address(text::texts(parts@), protocol@),
{
    let ghost all = text::texts(parts@);
    let mut i: usize = parts.len();
    assert(all.take(i as int) =~= all);
    while i > 0
        invariant
            i <= parts@.len(),
            all == text::texts(parts@),
            list_address(all, protocol@) == list_address(all.take(i as int), protocol@),
        decreases i,
    {
        proof {
            assert(all.take(i as int).last() == parts@[i - 1]@);
            assert(all.take(i as int).drop_last() =~= all.take(i - 1));
        }
        let found = find_in_part(parts[i - 1].as_str(), protocol);
        if found.is_some() {
            return found;
        }
        i = i - 1;
    }
    None
}

/// Parses the `ProxyServer` setting of Windows into a single proxy address.
///
/// The value is either a bare `host:port` (used for all protocols) or a
/// protocol-specific list like `http=host:port;https=host:port;socks=host:port`.
/// For the list form, the `https`, then `http`, then `socks` entry is preferred.
pub fn parse_windows_proxy_server(server: &str) -> (proxy: Option<String>)
    ensures
        text::text_in(proxy) == setting_proxy(server@),
{
    let chars = text::to_chars(server);
    let trimmed = text::trim(chars.as_slice());
    if trimmed.len() == 0 {
        return None;
    }
    if !text::has_char(trimmed, '=') {
        return Some(normalize_proxy_url(text::from_chars(trimmed).as_str()));
    }
    let parts = text::split(trimmed, ';');
    if let Some(address) = find_in_list(&parts, "https") {
        return Some(normalize_proxy_url(address.as_str()));
    }
    if let Some(address) = find_in_list(&parts, "http") {
        return Some(normalize_proxy_url(address.as_str()));
    }
    match find_in_list(&parts, "socks") {
        Some(address) => {
            let mut url = String::new();
            if !has_scheme(text::to_chars(address.as_str()).as_slice()) {
                url.append("socks5://");
                url.append(address.as_str());
                Some(url)
            } else {
                Some(address)
            }
        },
        None => None,
    }
}

// ---------------------------------------------------------------------------
// Laws
// ---------------------------------------------------------------------------

/// An address that was given a scheme has one, and is not changed again.
pub proof fn law_scheme_is_added_once(url: Seq<char>)
    ensures
        text::occurs(with_scheme(url), "://"@),
        with_scheme(with_scheme(url)) == with_scheme(url),
{
    if !text::occurs(url, "://"@) {
        reveal_strlit("http://");
        reveal_strlit("://");
        let full = "http://"@ + url;
        assert(full.subrange(4, 7) =~= "://"@);
        assert(text::occurs_at(full, "://"@, 4));
    }
}

/// An address with `://` in it is kept; one without it has `http://` put before it.
pub proof fn law_missing_scheme_is_http(scheme: Seq<char>, host: Seq<char>, url: Seq<char>)
    ensures
        with_scheme(scheme + "://"@ + host) == scheme + "://"@ + host,
        (forall|i: int|
            0 <= i && i + 2 < url.len() ==> !(#[trigger] url[i] == ':' && url[i + 1] == '/' && url[i
                + 2] == '/')) ==> with_scheme(url) == "http://"@ + url,
{
    text::law_parts_are_found(scheme, "://"@, host);
    reveal_strlit("://");
    if text::occurs(url, "://"@) {
        let i = choose|i: int| #[trigger] text::occurs_at(url, "://"@, i);
        assert(url.subrange(i, i + 3)[0] == ':' && url.subrange(i, i + 3)[1] == '/' && url.subrange(
            i,
            i + 3,
        )[2] == '/');
        assert(url[i] == ':' && url[i + 1] == '/' && url[i + 2] == '/');
    }
}

/// The variables are looked at in this order: those for every protocol first,
/// then those for HTTPS, then those for HTTP, and each in capitals before it is in
/// small letters.
pub proof fn law_variables_go_from_general_to_particular()
    ensures
        proxy_variables().len() == 6,
        proxy_variables()[0] == "ALL_PROXY"@,
        proxy_variables()[2] == "HTTPS_PROXY"@,
        proxy_variables()[4] == "HTTP_PROXY"@,
        forall|k: int|
            0 <= k < 3 ==> #[trigger] proxy_variables()[2 * k + 1] == text::lower(
                proxy_variables()[2 * k],
            ),
{
    reveal_strlit("ALL_PROXY");
    reveal_strlit("all_proxy");
    reveal_strlit("HTTPS_PROXY");
    reveal_strlit("https_proxy");
    reveal_strlit("HTTP_PROXY");
    reveal_strlit("http_proxy");
    assert(text::lower("ALL_PROXY"@) =~= "all_proxy"@);
    assert(text::lower("HTTPS_PROXY"@) =~= "https_proxy"@);
    assert(text::lower("HTTP_PROXY"@) =~= "http_proxy"@);
    assert forall|k: int| 0 <= k < 3 implies #[trigger] proxy_variables()[2 * k + 1] == text::lower(
        proxy_variables()[2 * k],
    ) by {
        assert(k == 0 || k == 1 || k == 2);
    }
}

/// The first variable that says anything decides, whatever the operating system
/// has configured; where none does, that is the system's proxy.
pub proof fn law_variables_before_configuration(
    silent: Seq<Option<Seq<char>>>,
    s: Seq<char>,
    rest: Seq<Option<Seq<char>>>,
    configured: Option<Seq<char>>,
)
    requires
        forall|i: int|
            0 <= i < silent.len() ==> (#[trigger] silent[i] is None || text::blank(
                silent[i]->Some_0,
            )),
        s.len() > 0 && !text::white(s[0]) && !text::white(s.last()),
    ensures
        system_choice(silent, configured) == configured,
        system_choice(silent + seq![Some(s)] + rest, configured) == Some(with_scheme(s)),
{
    text::law_first_that_says_something(silent, s, rest);
}

/// White space around an address in an option does not count, and an option that
/// holds nothing else gives no address.
pub proof fn law_given_addresses_are_bared(
    before: Seq<char>,
    address: Seq<char>,
    after: Seq<char>,
)
    requires
        text::blank(before),
        text::blank(after),
        address.len() > 0 ==> !text::white(address[0]) && !text::white(address.last()),
    ensures
        given_address(None) is None,
        address.len() == 0 ==> given_address(Some(before + address + after)) is None,
        address.len() > 0 ==> given_address(Some(before + address + after)) == Some(address),
{
    text::law_trimming_bares_the_text(before, address, after);
}

/// A choice is seen as the address that it holds.
pub proof fn law_choices_are_seen_whole(url: String)
    ensures
        ProxyChoice::Given(url).address() == Some(url@),
        ProxyChoice::System(url).address() == Some(url@),
        ProxyChoice::Direct.address() is None,
        ProxyChoice::NoSystem.address() is None,
        ProxyChoice::Given(url).words() == Some("using proxy: "@ + url@),
        ProxyChoice::System(url).words() == Some("using system proxy: "@ + url@),
        ProxyChoice::Direct.words() is None,
        ProxyChoice::NoSystem.words() == Some("no system proxy configured; connecting directly."@),
{
}

/// White space is no equals sign.
proof fn lemma_blank_has_no_equals(s: Seq<char>)
    requires
        text::blank(s),
    ensures
        !s.contains('='),
{
    if s.contains('=') {
        let i = s.index_of('=');
        assert(text::white(s[i]));
    }
}

/// A part gives the address behind its equals sign for the protocol before it, in
/// either case of letters and without the white space around either. It gives
/// none for another protocol, and neither does a part without an address or
/// without an equals sign.
pub proof fn law_parts_name_protocols(
    a: Seq<char>,
    name: Seq<char>,
    b: Seq<char>,
    c: Seq<char>,
    address: Seq<char>,
    d: Seq<char>,
    protocol: Seq<char>,
)
    requires
        text::blank(a) && text::blank(b) && text::blank(c) && text::blank(d),
        !name.contains('='),
        name.len() > 0 ==> !text::white(name[0]) && !text::white(name.last()),
        address.len() > 0 ==> !text::white(address[0]) && !text::white(address.last()),
    ensures
        ({
            let given = part_address(a + name + b + seq!['='] + (c + address + d), protocol);
            &&& given == Some(address) <==> text::lower(name) == protocol && address.len() > 0
            &&& given is None || given == Some(address)
            &&& part_address(name, protocol) is None
        }),
{
    let left = a + name + b;
    let right = c + address + d;
    let part = left + seq!['='] + right;
    lemma_blank_has_no_equals(a);
    lemma_blank_has_no_equals(b);
    assert forall|j: int| 0 <= j < left.len() implies part[j] != '=' by {
        if j < a.len() {
            assert(a.contains(a[j]));
        } else if j < a.len() + name.len() {
            assert(name.contains(name[j - a.len()]));
        } else {
            assert(b.contains(b[j - a.len() - name.len()]));
        }
    }
    text::lemma_first_at_is(part, '=', left.len() as int);
    assert(part.subrange(0, left.len() as int) =~= left);
    assert(part.subrange(left.len() as int + 1, part.len() as int) =~= right);
    text::law_trimming_bares_the_text(a, name, b);
    text::law_trimming_bares_the_text(c, address, d);
    assert forall|j: int| 0 <= j < name.len() implies name[j] != '=' by {
        assert(name.contains(name[j]));
    }
    text::lemma_first_at_is(name, '=', name.len() as int);
}

/// Of the parts that give an address for a protocol the last decides; where no
/// part does, the list gives none.
pub proof fn law_last_part_decides(
    front: Seq<Seq<char>>,
    part: Seq<char>,
    back: Seq<Seq<char>>,
    protocol: Seq<char>,
)
    requires
        forall|i: int| 0 <= i < back.len() ==> part_address(#[trigger] back[i], protocol) is None,
    ensures
        list_address(back, protocol) is None,
        part_address(part, protocol) is Some ==> list_address(
            front.push(part) + back,
            protocol,
        ) == part_address(part, protocol),
    decreases back.len(),
{
    let all = front.push(part) + back;
    if back.len() == 0 {
        assert(all =~= front.push(part));
    } else {
        let fewer = back.drop_last();
        assert forall|i: int| 0 <= i < fewer.len() implies part_address(
            #[trigger] fewer[i],
            protocol,
        ) is None by {
            assert(fewer[i] == back[i]);
        }
        assert(part_address(back[back.len() - 1], protocol) is None);
        assert(all.drop_last() =~= front.push(part) + fewer);
        assert(all.last() == back.last());
        law_last_part_decides(front, part, fewer, protocol);
    }
}

/// A setting that is all white space names no proxy, and white space around one
/// does not count.
pub proof fn law_setting_is_bared(before: Seq<char>, server: Seq<char>, after: Seq<char>)
    requires
        text::blank(before),
        text::blank(after),
        server.len() > 0 ==> !text::white(server[0]) && !text::white(server.last()),
    ensures
        server.len() == 0 ==> setting_proxy(before + server + after) is None,
        setting_proxy(before + server + after) == setting_proxy(server),
        server.len() > 0 && !server.contains('=') ==> setting_proxy(server) == Some(
            with_scheme(server),
        ),
{
    text::law_trimming_bares_the_text(before, server, after);
    text::law_trimming_bares_the_text(Seq::empty(), server, Seq::empty());
    assert(Seq::<char>::empty() + server + Seq::empty() =~= server);
}

/// In a list the entry for HTTPS is taken before that for HTTP, and that before
/// the one for SOCKS, whose scheme is `socks5` where it names none. A list with
/// none of the three names no proxy.
pub proof fn law_https_before_http_before_socks(server: Seq<char>)
    requires
        server.contains('='),
        !text::white(server[0]) && !text::white(server.last()),
    ensures
        ({
            let parts = text::split_on(server, ';');
            let https = list_address(parts, "https"@);
            let http = list_address(parts, "http"@);
            let socks = list_address(parts, "socks"@);
            &&& https is Some ==> setting_proxy(server) == Some(with_scheme(https->Some_0))
            &&& https is None && http is Some ==> setting_proxy(server) == Some(
                with_scheme(http->Some_0),
            )
            &&& https is None && http is None && socks is Some ==> setting_proxy(server) == Some(
                if text::occurs(socks->Some_0, "://"@) {
                    socks->Some_0
                } else {
                    "socks5://"@ + socks->Some_0
                },
            )
            &&& https is None && http is None && socks is None ==> setting_proxy(server) is None
        }),
{
    text::law_trimming_bares_the_text(Seq::empty(), server, Seq::empty());
    assert(Seq::<char>::empty() + server + Seq::empty() =~= server);
}

/// Whatever a list says before it, an entry for HTTPS at its end decides.
pub proof fn law_entry_for_https_decides(front: Seq<char>, address: Seq<char>)
    requires
        front.len() > 0 && !text::white(front[0]),
        address.len() > 0 && !text::white(address[0]) && !text::white(address.last()),
        !address.contains(';'),
    ensures
        setting_proxy(front + seq![';'] + ("https="@ + address)) == Some(with_scheme(address)),
{
    reveal_strlit("https=");
    reveal_strlit("https");
    let entry = "https="@ + address;
    let server = front + seq![';'] + entry;
    assert(!entry.contains(';')) by {
        if entry.contains(';') {
            let i = entry.index_of(';');
            if i >= 6 {
                assert(entry[i] == address[i - 6]);
                assert(address.contains(';'));
            }
        }
    }
    text::law_last_piece_is_split_off(front, ';', entry);
    let none = Seq::<char>::empty();
    law_parts_name_protocols(none, "https"@, none, none, address, none, "https"@);
    assert(none + "https"@ + none + seq!['='] + (none + address + none) =~= entry);
    text::lemma_lower_is("https"@);
    law_last_part_decides(text::split_on(front, ';'), entry, Seq::empty(), "https"@);
    assert(text::split_on(front, ';').push(entry) + Seq::empty() =~= text::split_on(server, ';'));
    assert(server[front.len() as int + 1 + 5] == '=');
    assert(server[0] == front[0]);
    assert(server.last() == address.last());
    law_https_before_http_before_socks(server);
}

} // verus!

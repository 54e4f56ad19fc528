//! Arguments, application ids and what the arguments ask for.
use vstd::prelude::*;
use vstd::string::*;
use crate::login;
use crate::login::Region;
use crate::outside;
use crate::text;

verus! {

/// The arguments of the program.
#[derive(Debug)]
pub struct Cli {
    pub command: Option<Commands>,
    /// Target game platform or alias, for the lookup of the application id
    /// where none is given.
    pub game: Option<String>,
    /// The application id (a number or an alias). Goes before the game.
    pub appid: Option<String>,
    /// One value: the target path. Two values: the manifest address and the
    /// target path.
    pub download: Option<Vec<String>>,
    /// The manifest address, hash or `latest`, and the target path.
    pub patch: Option<Vec<String>>,
    /// Check the client, with a manifest address or without.
    pub check: Option<Option<String>>,
    pub verbose: u8,
    /// Keep only files whose path holds one of these substrings.
    pub filter: Option<String>,
    /// Keep only files whose path matches one of these patterns.
    pub filter_regex: Option<String>,
    /// Keep only files that do not match.
    pub invert_filter: bool,
    pub json: bool,
    /// Route all traffic through a proxy, with an address or without.
    pub proxy: Option<Option<String>>,
    pub allow_insecure: bool,
}

/// Subcommands for the two kinds of clients.
#[allow(inconsistent_fields)]
#[derive(Debug)]
pub enum Commands {
    /// NXL clients and the account.
    Nxl {
        appid: Option<String>,
        login: Option<Option<String>>,
        check: Option<Option<String>>,
        download: Option<Vec<String>>,
        patch: Option<Vec<String>>,
        verbose: u8,
        filter: Option<String>,
        filter_regex: Option<String>,
        invert_filter: bool,
        proxy: Option<Option<String>>,
        allow_insecure: bool,
    },
    /// NGM clients.
    Ngm {
        appid: String,
        check: bool,
        download: Option<String>,
        verbose: u8,
        filter: Option<String>,
        filter_regex: Option<String>,
        invert_filter: bool,
        json: bool,
        proxy: Option<Option<String>>,
        allow_insecure: bool,
    },
}

// ---------------------------------------------------------------------------
// Application ids
// ---------------------------------------------------------------------------

/// The application id of an NXL alias in small letters.
pub open spec fn nxl_alias(name: Seq<char>) -> Option<Seq<char>> {
    if name == "gms"@ {
        Some("10100"@)
    } else if name == "gmb"@ {
        Some("10200"@)
    } else if name == "vin_gl"@ {
        Some("10300"@)
    } else if name == "gms_pts"@ {
        Some("40600"@)
    } else if name == "gms_cw"@ {
        Some("59822"@)
    } else {
        None
    }
}

/// The application id of an NGM alias in small letters.
pub open spec fn ngm_alias(name: Seq<char>) -> Option<Seq<char>> {
    if name == "tales_jp"@ {
        Some("2528@c829"@)
    } else if name == "kmb"@ {
        Some("74245@761d"@)
    } else if name == "kmbt"@ {
        Some("106542@b48c"@)
    } else if name == "kms"@ {
        Some("589825"@)
    } else if name == "kmst"@ {
        Some("589826"@)
    } else if name == "kms_mac"@ {
        Some("589825@ce13"@)
    } else if name == "kmst_mac"@ {
        Some("589826@7235"@)
    } else if name == "jmb"@ {
        Some("16785925"@)
    } else if name == "jms"@ {
        Some("16785939@bb01"@)
    } else if name == "kmsm"@ {
        Some("106656"@)
    } else if name == "msn"@ {
        Some("106690@d811"@)
    } else {
        None
    }
}

/// The application id that an argument names, with the argument in small
/// letters at hand: a number, which has at least one digit, names itself.
pub open spec fn named_id(raw: Seq<char>, small: Seq<char>) -> Option<Seq<char>> {
    if raw.len() > 0 && text::all_digits(raw) {
        Some(raw)
    } else {
        match nxl_alias(small) {
            Some(id) => Some(id),
            None => ngm_alias(small),
        }
    }
}

/// Whether an argument names an NGM game, with the argument in small letters at
/// hand.
pub open spec fn names_ngm(raw: Seq<char>, small: Seq<char>) -> bool {
    ||| ngm_alias(small) is Some
    ||| (named_id(raw, small) matches Some(id) && id.contains('@'))
    ||| raw.contains('@')
}

/// Looks up an NXL alias in small letters.
pub fn find_nxl_alias(name: &str) -> (id: Option<String>)
    ensures
        text::text_in(id) == nxl_alias(name@),
{
    let chars = text::to_chars(name);
    let s = chars.as_slice();
    if text::spells(s, "gms") {
        Some("10100".to_owned())
    } else if text::spells(s, "gmb") {
        Some("10200".to_owned())
    } else if text::spells(s, "vin_gl") {
        Some("10300".to_owned())
    } else if text::spells(s, "gms_pts") {
        Some("40600".to_owned())
    } else if text::spells(s, "gms_cw") {
        Some("59822".to_owned())
    } else {
        None
    }
}

/// Looks up an NGM alias in small letters.
pub fn find_ngm_alias(name: &str) -> (id: Option<String>)
    ensures
        text::text_in(id) == ngm_alias(name@),
{
    let chars = text::to_chars(name);
    let s = chars.as_slice();
    if text::spells(s, "tales_jp") {
        Some("2528@c829".to_owned())
    } else if text::spells(s, "kmb") {
        Some("74245@761d".to_owned())
    } else if text::spells(s, "kmbt") {
        Some("106542@b48c".to_owned())
    } else if text::spells(s, "kms") {
        Some("589825".to_owned())
    } else if text::spells(s, "kmst") {
        Some("589826".to_owned())
    } else if text::spells(s, "kms_mac") {
        Some("589825@ce13".to_owned())
    } else if text::spells(s, "kmst_mac") {
        Some("589826@7235".to_owned())
    } else if text::spells(s, "jmb") {
        Some("16785925".to_owned())
    } else if text::spells(s, "jms") {
        Some("16785939@bb01".to_owned())
    } else if text::spells(s, "kmsm") {
        Some("106656".to_owned())
    } else if text::spells(s, "msn") {
        Some("106690@d811".to_owned())
    } else {
        None
    }
}

/// Resolves an argument with the argument in small letters at hand.
pub fn lookup_appid(raw: &str, small: &str) -> (id: Option<String>)
    ensures
        text::text_in(id) == named_id(raw@, small@),
{
    let chars = text::to_chars(raw);
    if chars.len() > 0 && text::only_digits(chars.as_slice()) {
        return Some(raw.to_owned());
    }
    let id = find_nxl_alias(small);
    if id.is_some() {
        return id;
    }
    find_ngm_alias(small)
}

/// Tells whether an argument names an NGM game, with the argument in small
/// letters at hand.
pub fn lookup_ngm(raw: &str, small: &str) -> (r: bool)
    ensures
        r == names_ngm(raw@, small@),
{
    if find_ngm_alias(small).is_some() {
        return true;
    }
    if let Some(id) = lookup_appid(raw, small) {
        if text::has_char(text::to_chars(id.as_str()).as_slice(), '@') {
            return true;
        }
    }
    text::has_char(text::to_chars(raw).as_slice(), '@')
}

/// Resolves a raw argument (number or alias) to an application id.
///
/// A numeric text is returned as it is. Otherwise the aliases are looked up, in
/// any case. Returns `None` when the alias is unknown; the empty text is neither
/// a number nor an alias.
pub fn resolve_appid(raw: &str) -> (id: Option<String>)
    ensures
        text::text_in(id) == named_id(raw@, outside::unicode_lower(raw@)),
        vstd::utf8::is_ascii_chars(raw@) ==> text::text_in(id) == named_id(
            raw@,
            text::lower(raw@),
        ),
{
    let small = outside::lowercase(raw);
    lookup_appid(raw, small.as_str())
}

/// Returns `true` if `raw` names an NGM game.
///
/// This is so when it is an NGM alias, when it holds an `@` itself, or when the
/// id that it resolves to does.
pub fn is_ngm(raw: &str) -> (r: bool)
    ensures
        r == names_ngm(raw@, outside::unicode_lower(raw@)),
        vstd::utf8::is_ascii_chars(raw@) ==> r == names_ngm(raw@, text::lower(raw@)),
{
    let small = outside::lowercase(raw);
    lookup_ngm(raw, small.as_str())
}

impl Cli {
    /// The argument that names the application: the id before the game.
    pub open spec fn raw_id(self) -> Option<Seq<char>> {
        match self.appid {
            Some(raw) => Some(raw@),
            None => text::text_in(self.game),
        }
    }

    /// The argument that names the application, if there is one.
    pub fn raw_appid(&self) -> (raw: Option<&String>)
        ensures
            match self.raw_id() {
                Some(s) => raw matches Some(r) && r@ == s,
                None => raw is None,
            },
    {
        match &self.appid {
            Some(raw) => Some(raw),
            None => match &self.game {
                Some(game) => Some(game),
                None => None,
            },
        }
    }

    /// Resolves the application id.
    ///
    /// A given id is used (a number or an alias); without one the game is
    /// looked up. Returns `None` when neither is a known application.
    pub fn resolve_appid(&self) -> (id: Option<String>)
        ensures
            text::text_in(id) == (match self.raw_id() {
                Some(raw) => named_id(raw, outside::unicode_lower(raw)),
                None => None,
            }),
            self.raw_id() matches Some(raw) ==> (vstd::utf8::is_ascii_chars(raw)
                ==> text::text_in(id) == named_id(raw, text::lower(raw))),
    {
        match self.raw_appid() {
            Some(raw) => resolve_appid(raw.as_str()),
            None => None,
        }
    }
}

// ---------------------------------------------------------------------------
// What to do
// ---------------------------------------------------------------------------

/// Where a manifest comes from.
#[derive(Clone, Debug)]
pub enum ManifestSource {
    /// An address or a hash was given.
    Given(String),
    /// The public branch, by the saved login.
    Account,
}

/// What the arguments ask for.
#[derive(Clone, Debug)]
pub enum Action {
    Check { source: ManifestSource },
    Download { source: ManifestSource, target: String },
    Patch { version: String, target: String },
    CheckNgm,
    DownloadNgm { target: String },
    /// A number of values that the option does not take.
    Malformed { option: ListOption },
    Nothing,
}

/// An option that takes several values.
#[derive(Clone, Copy, Debug, PartialEq, Eq, Structural)]
pub enum ListOption {
    Download,
    Patch,
}

impl ListOption {
    /// What the option takes, in words.
    pub open spec fn usage_words(self) -> Seq<char> {
        match self {
            ListOption::Download =>
                "--download takes <TARGET_PATH> or <MANIFEST_URL> <TARGET_PATH>"@,
            ListOption::Patch => "--patch takes <MANIFEST_URL> <TARGET_PATH>"@,
        }
    }

    /// Says what the option takes.
    pub fn usage(&self) -> (s: String)
        ensures
            s@ == self.usage_words(),
    {
        match self {
            ListOption::Download =>
            "--download takes <TARGET_PATH> or <MANIFEST_URL> <TARGET_PATH>".to_owned(),
            ListOption::Patch => "--patch takes <MANIFEST_URL> <TARGET_PATH>".to_owned(),
        }
    }
}

/// What an action says.
pub enum ActionModel {
    /// A check, by what was given or by the account.
    Check(Option<Seq<char>>),
    /// A download, by what was given or by the account, into a directory.
    Download(Option<Seq<char>>, Seq<char>),
    /// A patch to a version in a directory.
    Patch(Seq<char>, Seq<char>),
    CheckNgm,
    DownloadNgm(Seq<char>),
    /// Too few or too many values of an option.
    Malformed(ListOption),
    Nothing,
}

impl ManifestSource {
    /// What was given, if anything.
    pub open spec fn model(self) -> Option<Seq<char>> {
        match self {
            ManifestSource::Given(s) => Some(s@),
            ManifestSource::Account => None,
        }
    }
}

impl Action {
    /// What this action says.
    pub open spec fn model(self) -> ActionModel {
        match self {
            Action::Check { source } => ActionModel::Check(source.model()),
            Action::Download { source, target } => ActionModel::Download(source.model(), target@),
            Action::Patch { version, target } => ActionModel::Patch(version@, target@),
            Action::CheckNgm => ActionModel::CheckNgm,
            Action::DownloadNgm { target } => ActionModel::DownloadNgm(target@),
            Action::Malformed { option } => ActionModel::Malformed(option),
            Action::Nothing => ActionModel::Nothing,
        }
    }
}

/// What the values of the download option ask for.
pub open spec fn download_asked(values: Seq<String>, ngm: bool) -> ActionModel {
    if values.len() == 2 {
        ActionModel::Download(Some(values[0]@), values[1]@)
    } else if values.len() == 1 {
        if ngm {
            ActionModel::DownloadNgm(values[0]@)
        } else {
            ActionModel::Download(None, values[0]@)
        }
    } else {
        ActionModel::Malformed(ListOption::Download)
    }
}

/// What the options ask for: a check before a download, and that before a
/// patch. Without a manifest an NGM client takes another way.
pub open spec fn asked(
    check: Option<Option<String>>,
    download: Option<Vec<String>>,
    patch: Option<Vec<String>>,
    ngm: bool,
) -> ActionModel {
    match (check, download, patch) {
        (Some(Some(source)), _, _) => ActionModel::Check(Some(source@)),
        (Some(None), _, _) => if ngm {
            ActionModel::CheckNgm
        } else {
            ActionModel::Check(None)
        },
        (None, Some(values), _) => download_asked(values@, ngm),
        (None, None, Some(values)) => if values@.len() == 2 {
            ActionModel::Patch(values@[0]@, values@[1]@)
        } else {
            ActionModel::Malformed(ListOption::Patch)
        },
        (None, None, None) => ActionModel::Nothing,
    }
}

/// Decides what the options ask for.
pub fn decide_action(
    check: &Option<Option<String>>,
    download: &Option<Vec<String>>,
    patch: &Option<Vec<String>>,
    ngm: bool,
) -> (action: Action)
    ensures
        action.model() == asked(*check, *download, *patch, ngm),
{
    match check {
        Some(Some(source)) => {
            return Action::Check { source: ManifestSource::Given(source.clone()) };
        },
        Some(None) => {
            return if ngm {
                Action::CheckNgm
            } else {
                Action::Check { source: ManifestSource::Account }
            };
        },
        None => {},
    }
    if let Some(values) = download {
        if values.len() == 2 {
            return Action::Download {
                source: ManifestSource::Given(values[0].clone()),
                target: values[1].clone(),
            };
        }
        if values.len() == 1 {
            return if ngm {
                Action::DownloadNgm { target: values[0].clone() }
            } else {
                Action::Download { source: ManifestSource::Account, target: values[0].clone() }
            };
        }
        return Action::Malformed { option: ListOption::Download };
    }
    if let Some(values) = patch {
        if values.len() == 2 {
            return Action::Patch { version: values[0].clone(), target: values[1].clone() };
        }
        return Action::Malformed { option: ListOption::Patch };
    }
    Action::Nothing
}

/// What the program is to do.
#[derive(Debug)]
pub enum Job {
    /// Sign in to the account of a region.
    Login { region: Region },
    /// Work on a client: its application id, the argument that named it, and
    /// what to do.
    Work { id: String, raw: String, action: Action },
}

/// Why the arguments ask for nothing that can be done.
#[derive(Clone, Debug)]
pub enum UsageError {
    UnknownRegion { name: String },
    MissingAppid,
    UnknownAppid { name: String },
}

impl UsageError {
    /// The words for this error.
    pub open spec fn words(self) -> Seq<char> {
        match self {
            UsageError::UnknownRegion { name } => "unknown region '"@ + name@
                + "'. Valid values: ww/gl/worldwide/global, tw/taiwan, sea/southeastasia, th/thailand"@,
            UsageError::MissingAppid =>
                "--appid is required for --check and --download\nUsage: nxdl nxl --appid <APPID> --check <MANIFEST_URL>"@,
            UsageError::UnknownAppid { name } => "unknown appid: '"@ + name@
                + "' (must be a number or a known alias)"@,
        }
    }

    /// The message for this error.
    pub fn message(&self) -> (s: String)
        ensures
            s@ == self.words(),
    {
        let mut s = String::new();
        match self {
            UsageError::UnknownRegion { name } => {
                s.append("unknown region '");
                s.append(name.as_str());
                s.append(
                    "'. Valid values: ww/gl/worldwide/global, tw/taiwan, sea/southeastasia, th/thailand",
                );
            },
            UsageError::MissingAppid => {
                s =
                "--appid is required for --check and --download\nUsage: nxdl nxl --appid <APPID> --check <MANIFEST_URL>".to_owned();
            },
            UsageError::UnknownAppid { name } => {
                s.append("unknown appid: '");
                s.append(name.as_str());
                s.append("' (must be a number or a known alias)");
            },
        }
        s
    }
}

/// The region that the login option names; the global one where it has no
/// value.
pub open spec fn login_name(value: Option<String>) -> Seq<char> {
    match value {
        Some(name) => name@,
        None => "ww"@,
    }
}

/// Whether `job` is to work on a client.
pub open spec fn works_on(
    job: Job,
    id: Seq<char>,
    raw: Seq<char>,
    action: ActionModel,
) -> bool {
    job matches Job::Work { id: i, raw: r, action: a } && i@ == id && r@ == raw && a.model()
        == action
}

/// The application id of a subcommand: an argument that is no known alias is
/// taken as it is.
pub open spec fn subcommand_id(raw: Seq<char>) -> Seq<char> {
    match named_id(raw, outside::unicode_lower(raw)) {
        Some(id) => id,
        None => raw,
    }
}

/// Computes `subcommand_id`.
pub fn resolve_or_keep(raw: &str) -> (id: String)
    ensures
        id@ == subcommand_id(raw@),
{
    match resolve_appid(raw) {
        Some(id) => id,
        None => raw.to_owned(),
    }
}

/// Plans what the NXL subcommand asks for.
pub fn plan_nxl(
    appid: &Option<String>,
    login: &Option<Option<String>>,
    check: &Option<Option<String>>,
    download: &Option<Vec<String>>,
    patch: &Option<Vec<String>>,
) -> (result: Result<Job, UsageError>)
    ensures
        match (*login, *appid) {
            (Some(value), _) => match login::region_named(login_name(value)) {
                Some(region) => result == Ok::<Job, UsageError>(Job::Login { region }),
                None => result matches Err(UsageError::UnknownRegion { name }) && name@
                    == login_name(value),
            },
            (None, None) => result matches Err(UsageError::MissingAppid),
            (None, Some(raw)) => result matches Ok(job) && works_on(
                job,
                subcommand_id(raw@),
                raw@,
                asked(*check, *download, *patch, false),
            ),
        },
{
    if let Some(value) = login {
        let name = match value {
            Some(name) => name.clone(),
            None => "ww".to_owned(),
        };
        return match Region::parse(name.as_str()) {
            Some(region) => Ok(Job::Login { region }),
            None => Err(UsageError::UnknownRegion { name }),
        };
    }
    match appid {
        None => Err(UsageError::MissingAppid),
        Some(raw) => Ok(
            Job::Work {
                id: resolve_or_keep(raw.as_str()),
                raw: raw.clone(),
                action: decide_action(check, download, patch, false),
            },
        ),
    }
}

/// Plans what the NGM subcommand asks for.
pub fn plan_ngm(appid: &String, check: bool, download: &Option<String>) -> (job: Job)
    ensures
        works_on(
            job,
            subcommand_id(appid@),
            appid@,
            if check {
                ActionModel::CheckNgm
            } else {
                match *download {
                    Some(target) => ActionModel::DownloadNgm(target@),
                    None => ActionModel::Nothing,
                }
            },
        ),
{
    let action = if check {
        Action::CheckNgm
    } else {
        match download {
            Some(target) => Action::DownloadNgm { target: target.clone() },
            None => Action::Nothing,
        }
    };
    Job::Work { id: resolve_or_keep(appid.as_str()), raw: appid.clone(), action }
}

/// Plans what the program asks for without a subcommand.
pub fn plan_plain(cli: &Cli) -> (result: Result<Job, UsageError>)
    ensures
        ({
            let raw = match cli.raw_id() {
                Some(raw) => raw,
                None => "??"@,
            };
            let small = outside::unicode_lower(raw);
            let id = match cli.raw_id() {
                Some(raw) => named_id(raw, small),
                None => None,
            };
            match id {
                Some(id) => result matches Ok(job) && works_on(
                    job,
                    id,
                    raw,
                    asked(cli.check, cli.download, cli.patch, names_ngm(raw, small)),
                ),
                None => result matches Err(UsageError::UnknownAppid { name }) && name@ == raw,
            }
        }),
{
    match cli.raw_appid() {
        None => Err(UsageError::UnknownAppid { name: "??".to_owned() }),
        Some(raw) => match cli.resolve_appid() {
            Some(id) => {
                let ngm = is_ngm(raw.as_str());
                Ok(
                    Job::Work {
                        id,
                        raw: raw.clone(),
                        action: decide_action(&cli.check, &cli.download, &cli.patch, ngm),
                    },
                )
            },
            None => Err(UsageError::UnknownAppid { name: raw.clone() }),
        },
    }
}

/// Whether the output is for machines, so that no banner is shown.
pub fn json_mode(cli: &Cli) -> (r: bool)
    ensures
        r == (cli.json || (cli.command matches Some(Commands::Ngm { json: true, .. }))),
{
    if cli.json {
        return true;
    }
    match &cli.command {
        Some(Commands::Ngm { json, .. }) => *json,
        _ => false,
    }
}

// ---------------------------------------------------------------------------
// Laws
// ---------------------------------------------------------------------------

/// ASCII arguments that differ in the case of letters alone name the same
/// application.
pub proof fn law_aliases_ignore_case(a: Seq<char>, b: Seq<char>)
    requires
        text::lower(a) == text::lower(b),
    ensures
        named_id(a, text::lower(a)) == named_id(b, text::lower(b)),
        names_ngm(a, text::lower(a)) == names_ngm(b, text::lower(b)),
{
    assert(a.len() == text::lower(a).len());
    assert(b.len() == text::lower(b).len());
    assert forall|i: int| 0 <= i < a.len() implies text::lower_char(a[i]) == text::lower_char(
        b[i],
    ) by {
        assert(text::lower(a)[i] == text::lower_char(a[i]));
        assert(text::lower(b)[i] == text::lower_char(b[i]));
    }
    if text::all_digits(a) {
        assert forall|i: int| 0 <= i < a.len() implies a[i] == b[i] by {
            assert(text::digit(a[i]));
        }
        assert(a =~= b);
    } else if text::all_digits(b) {
        assert forall|i: int| 0 <= i < a.len() implies a[i] == b[i] by {
            assert(text::digit(b[i]));
        }
        assert(a =~= b);
    }
    if a.contains('@') {
        let i = choose|i: int| 0 <= i < a.len() && a[i] == '@';
        assert(b[i] == '@');
    }
    if b.contains('@') {
        let i = choose|i: int| 0 <= i < b.len() && b[i] == '@';
        assert(a[i] == '@');
    }
}

/// A number names itself, and no NGM game.
pub proof fn law_numbers_name_themselves(raw: Seq<char>)
    requires
        raw.len() > 0,
        text::all_digits(raw),
    ensures
        named_id(raw, text::lower(raw)) == Some(raw),
        !names_ngm(raw, text::lower(raw)),
{
    assert(text::digit(raw[0]));
    assert(text::lower(raw)[0] == raw[0]);
    lemma_ngm_aliases_start_with_a_letter(text::lower(raw));
    if raw.contains('@') {
        let i = choose|i: int| 0 <= i < raw.len() && raw[i] == '@';
        assert(text::digit(raw[i]));
    }
}

/// What names an application is not empty, and neither is the id that it names.
pub proof fn law_names_are_not_empty(raw: Seq<char>)
    requires
        named_id(raw, text::lower(raw)) is Some,
    ensures
        raw.len() > 0,
        named_id(raw, text::lower(raw))->Some_0.len() > 0,
{
    let small = text::lower(raw);
    assert(small.len() == raw.len());
    lemma_ngm_aliases_start_with_a_letter(small);
    reveal_strlit("gms");
    reveal_strlit("gmb");
    reveal_strlit("vin_gl");
    reveal_strlit("gms_pts");
    reveal_strlit("gms_cw");
    reveal_strlit("10100");
    reveal_strlit("10200");
    reveal_strlit("10300");
    reveal_strlit("40600");
    reveal_strlit("59822");
    reveal_strlit("2528@c829");
    reveal_strlit("74245@761d");
    reveal_strlit("106542@b48c");
    reveal_strlit("589825");
    reveal_strlit("589826");
    reveal_strlit("589825@ce13");
    reveal_strlit("589826@7235");
    reveal_strlit("16785925");
    reveal_strlit("16785939@bb01");
    reveal_strlit("106656");
    reveal_strlit("106690@d811");
}

/// An NGM alias has a first character, which is no digit.
proof fn lemma_ngm_aliases_start_with_a_letter(name: Seq<char>)
    ensures
        ngm_alias(name) is Some ==> name.len() > 0 && !text::digit(name[0]),
{
    reveal_strlit("tales_jp");
    reveal_strlit("kmb");
    reveal_strlit("kmbt");
    reveal_strlit("kms");
    reveal_strlit("kmst");
    reveal_strlit("kms_mac");
    reveal_strlit("kmst_mac");
    reveal_strlit("jmb");
    reveal_strlit("jms");
    reveal_strlit("kmsm");
    reveal_strlit("msn");
}

/// The alias of an NXL game names no NGM game.
pub proof fn law_nxl_aliases_are_not_ngm(name: Seq<char>)
    requires
        nxl_alias(name) is Some,
    ensures
        !names_ngm(name, name),
{
    reveal_strlit("gms");
    reveal_strlit("gmb");
    reveal_strlit("vin_gl");
    reveal_strlit("gms_pts");
    reveal_strlit("gms_cw");
    reveal_strlit("10100");
    reveal_strlit("10200");
    reveal_strlit("10300");
    reveal_strlit("40600");
    reveal_strlit("59822");
    reveal_strlit("tales_jp");
    reveal_strlit("kmb");
    reveal_strlit("kmbt");
    reveal_strlit("kms");
    reveal_strlit("kmst");
    reveal_strlit("kms_mac");
    reveal_strlit("kmst_mac");
    reveal_strlit("jmb");
    reveal_strlit("jms");
    reveal_strlit("kmsm");
    reveal_strlit("msn");
    assert(name[0] == 'g' || name[0] == 'v');
    assert(!text::all_digits(name)) by {
        assert(!text::digit(name[0]));
    }
    assert(ngm_alias(name) is None);
    assert(!name.contains('@'));
    let id = nxl_alias(name)->Some_0;
    assert(!id.contains('@'));
}

/// The NXL aliases are these five, and each has an id of its own.
pub proof fn law_nxl_aliases(name: Seq<char>)
    ensures
        nxl_alias("gms"@) == Some("10100"@),
        nxl_alias("gmb"@) == Some("10200"@),
        nxl_alias("vin_gl"@) == Some("10300"@),
        nxl_alias("gms_pts"@) == Some("40600"@),
        nxl_alias("gms_cw"@) == Some("59822"@),
        nxl_alias(name) is Some <==> name == "gms"@ || name == "gmb"@ || name == "vin_gl"@ || name
            == "gms_pts"@ || name == "gms_cw"@,
{
    reveal_strlit("gms");
    reveal_strlit("gmb");
    reveal_strlit("vin_gl");
    reveal_strlit("gms_pts");
    reveal_strlit("gms_cw");
    assert("gms"@[2] != "gmb"@[2]);
    assert("gms_pts"@[4] != "gms_cw"@[4]);
    assert("gms"@.len() != "vin_gl"@.len() && "gms"@.len() != "gms_pts"@.len());
    assert("vin_gl"@[0] != "gms_cw"@[0]);
}

/// The NGM aliases are these eleven, and each has an id of its own.
pub proof fn law_ngm_aliases(name: Seq<char>)
    ensures
        ngm_alias("tales_jp"@) == Some("2528@c829"@),
        ngm_alias("kmb"@) == Some("74245@761d"@),
        ngm_alias("kmbt"@) == Some("106542@b48c"@),
        ngm_alias("kms"@) == Some("589825"@),
        ngm_alias("kmst"@) == Some("589826"@),
        ngm_alias("kms_mac"@) == Some("589825@ce13"@),
        ngm_alias("kmst_mac"@) == Some("589826@7235"@),
        ngm_alias("jmb"@) == Some("16785925"@),
        ngm_alias("jms"@) == Some("16785939@bb01"@),
        ngm_alias("kmsm"@) == Some("106656"@),
        ngm_alias("msn"@) == Some("106690@d811"@),
        ngm_alias(name) is Some <==> name == "tales_jp"@ || name == "kmb"@ || name == "kmbt"@
            || name == "kms"@ || name == "kmst"@ || name == "kms_mac"@ || name == "kmst_mac"@
            || name == "jmb"@ || name == "jms"@ || name == "kmsm"@ || name == "msn"@,
{
    reveal_strlit("tales_jp");
    reveal_strlit("kmb");
    reveal_strlit("kmbt");
    reveal_strlit("kms");
    reveal_strlit("kmst");
    reveal_strlit("kms_mac");
    reveal_strlit("kmst_mac");
    reveal_strlit("jmb");
    reveal_strlit("jms");
    reveal_strlit("kmsm");
    reveal_strlit("msn");
    assert("kmb"@[2] != "kms"@[2]);
    assert("kmb"@[0] != "jmb"@[0]);
    assert("kmb"@[0] != "jms"@[0]);
    assert("kmb"@[0] != "msn"@[0]);
    assert("kms"@[0] != "jmb"@[0]);
    assert("kms"@[0] != "jms"@[0]);
    assert("kms"@[0] != "msn"@[0]);
    assert("jmb"@[2] != "jms"@[2]);
    assert("jmb"@[0] != "msn"@[0]);
    assert("jms"@[0] != "msn"@[0]);
    assert("kmbt"@[2] != "kmst"@[2]);
    assert("kmbt"@[3] != "kmsm"@[3]);
    assert("kmst"@[3] != "kmsm"@[3]);
    assert("tales_jp"@[0] != "kmst_mac"@[0]);
    assert("kmb"@.len() == 3 && "kms"@.len() == 3 && "kmbt"@.len() == 4 && "kmst"@.len() == 4
        && "kmsm"@.len() == 4 && "tales_jp"@.len() == 8 && "jmb"@.len() == 3 && "jms"@.len() == 3);
    assert("kms_mac"@.len() == 7 && "kmst_mac"@.len() == 8 && "msn"@.len() == 3);
}

/// Only what is all digits, and at least one, and what is an alias names an
/// application: the digits themselves, and the alias its id.
pub proof fn law_only_numbers_and_aliases_name(raw: Seq<char>, small: Seq<char>)
    ensures
        ({
            let number = raw.len() > 0 && forall|i: int|
                0 <= i < raw.len() ==> 48 <= (#[trigger] raw[i]) as u32 <= 57;
            &&& number ==> named_id(raw, small) == Some(raw)
            &&& !number && nxl_alias(small) is Some ==> named_id(raw, small) == nxl_alias(small)
            &&& !number && nxl_alias(small) is None ==> named_id(raw, small) == ngm_alias(small)
        }),
{
    assert forall|i: int| 0 <= i < raw.len() implies (text::digit(#[trigger] raw[i]) <==> 48
        <= raw[i] as u32 <= 57) by {
        text::law_kinds_of_characters(raw[i]);
    }
    if raw.len() > 0 && text::all_digits(raw) {
        assert forall|i: int| 0 <= i < raw.len() implies 48 <= (#[trigger] raw[i]) as u32 <= 57 by {
            assert(text::digit(raw[i]));
        }
    }
    if forall|i: int| 0 <= i < raw.len() ==> 48 <= (#[trigger] raw[i]) as u32 <= 57 {
        assert forall|i: int| 0 <= i < raw.len() implies text::digit(#[trigger] raw[i]) by {
            assert(48 <= raw[i] as u32 <= 57);
        }
    }
}

/// An NGM game is named by an NGM alias or by an argument with an `@`, and by
/// nothing else.
pub proof fn law_ngm_games_are_told_by_alias_or_sign(raw: Seq<char>, small: Seq<char>)
    ensures
        names_ngm(raw, small) <==> ngm_alias(small) is Some || raw.contains('@'),
{
    if raw.len() > 0 && text::all_digits(raw) && raw.contains('@') {
        let i = choose|i: int| 0 <= i < raw.len() && raw[i] == '@';
        assert(text::digit(raw[i]));
    }
    if nxl_alias(small) is Some {
        reveal_strlit("10100");
        reveal_strlit("10200");
        reveal_strlit("10300");
        reveal_strlit("40600");
        reveal_strlit("59822");
        assert(!nxl_alias(small)->Some_0.contains('@'));
    }
}

/// An id goes before a game, and a subcommand takes an argument that names nothing
/// as it is.
pub proof fn law_ids_go_before_games(cli: Cli, raw: Seq<char>)
    ensures
        cli.appid matches Some(id) ==> cli.raw_id() == Some(id@),
        cli.appid is None ==> (cli.game matches Some(game) ==> cli.raw_id() == Some(game@)),
        cli.appid is None && cli.game is None ==> cli.raw_id() is None,
        ({
            let named = named_id(raw, outside::unicode_lower(raw));
            &&& named matches Some(id) ==> subcommand_id(raw) == id
            &&& named is None ==> subcommand_id(raw) == raw
        }),
{
}

/// A check goes before a download and a download before a patch: what the later
/// options say does not count.
pub proof fn law_check_before_download_before_patch(
    check: Option<String>,
    values: Vec<String>,
    download: Option<Vec<String>>,
    other_download: Option<Vec<String>>,
    patch: Option<Vec<String>>,
    other_patch: Option<Vec<String>>,
    ngm: bool,
)
    ensures
        asked(Some(check), download, patch, ngm) == asked(
            Some(check),
            other_download,
            other_patch,
            ngm,
        ),
        asked(None, Some(values), patch, ngm) == asked(None, Some(values), other_patch, ngm),
        asked(None, Some(values), patch, ngm) == download_asked(values@, ngm),
        asked(None, None, None, ngm) == ActionModel::Nothing,
{
}

/// A check is of the manifest that is given, for either kind of client; without
/// one it is by the account, or by the service for an NGM client.
pub proof fn law_checks_take_what_is_given(given: String, ngm: bool)
    ensures
        asked(Some(Some(given)), None, None, ngm) == ActionModel::Check(Some(given@)),
        asked(Some(None), None, None, false) == ActionModel::Check(None),
        asked(Some(None), None, None, true) == ActionModel::CheckNgm,
{
}

/// A download takes a target, or a manifest and then a target; a patch takes a
/// version and then a target. Any other number of values is refused.
pub proof fn law_values_are_told_by_their_number(values: Vec<String>, ngm: bool)
    ensures
        ({
            let download = asked(None, Some(values), None, ngm);
            let patch = asked(None, None, Some(values), ngm);
            &&& values@.len() == 2 ==> download == ActionModel::Download(
                Some(values@[0]@),
                values@[1]@,
            )
            &&& values@.len() == 2 ==> patch == ActionModel::Patch(values@[0]@, values@[1]@)
            &&& values@.len() == 1 && ngm ==> download == ActionModel::DownloadNgm(values@[0]@)
            &&& values@.len() == 1 && !ngm ==> download == ActionModel::Download(
                None,
                values@[0]@,
            )
            &&& values@.len() != 1 && values@.len() != 2 ==> download == ActionModel::Malformed(
                ListOption::Download,
            )
            &&& values@.len() != 2 ==> patch == ActionModel::Malformed(ListOption::Patch)
        }),
{
}

/// An action is seen as what it holds.
pub proof fn law_actions_are_seen_whole(
    source: ManifestSource,
    given: String,
    version: String,
    target: String,
    option: ListOption,
)
    ensures
        ManifestSource::Given(given).model() == Some(given@),
        ManifestSource::Account.model() is None,
        (Action::Check { source }).model() == ActionModel::Check(source.model()),
        (Action::Download { source, target }).model() == ActionModel::Download(
            source.model(),
            target@,
        ),
        (Action::Patch { version, target }).model() == ActionModel::Patch(version@, target@),
        Action::CheckNgm.model() == ActionModel::CheckNgm,
        (Action::DownloadNgm { target }).model() == ActionModel::DownloadNgm(target@),
        (Action::Malformed { option }).model() == ActionModel::Malformed(option),
        Action::Nothing.model() == ActionModel::Nothing,
{
}

/// Work on a client is work on that id, by that argument and for that action; a
/// login is no work on a client.
pub proof fn law_work_is_seen_whole(
    id: String,
    raw: String,
    action: Action,
    region: Region,
    other_id: Seq<char>,
    other_raw: Seq<char>,
    other_action: ActionModel,
)
    ensures
        works_on(Job::Work { id, raw, action }, other_id, other_raw, other_action) <==> {
            &&& other_id == id@
            &&& other_raw == raw@
            &&& other_action == action.model()
        },
        !works_on(Job::Login { region }, other_id, other_raw, other_action),
{
}

/// A login without a name is that of the worldwide region.
pub proof fn law_logins_are_worldwide_by_default(name: String)
    ensures
        login_name(Some(name)) == name@,
        login::region_named(login_name(None)) == login::region_named("worldwide"@),
        login::region_named(login_name(None)) is Some,
{
    reveal_strlit("ww");
    reveal_strlit("worldwide");
    text::lemma_trimmed_is("ww"@);
    text::lemma_trimmed_is("worldwide"@);
    text::lemma_lower_is("ww"@);
    text::lemma_lower_is("worldwide"@);
    login::law_regions_have_their_names("ww"@);
    login::law_regions_have_their_names("worldwide"@);
}

/// The words for an error name what was wrong.
pub proof fn law_usage_errors_name_what_is_wrong(name: String)
    ensures
        ({
            let region = (UsageError::UnknownRegion { name }).words();
            let unknown = (UsageError::UnknownAppid { name }).words();
            &&& text::begins(region, "unknown region '"@ + name@ + "'. "@)
            &&& text::begins(unknown, "unknown appid: '"@ + name@ + "' "@)
            &&& text::begins(UsageError::MissingAppid.words(), "--appid is required"@)
        }),
{
    reveal_strlit("'. ");
    reveal_strlit(
        "'. Valid values: ww/gl/worldwide/global, tw/taiwan, sea/southeastasia, th/thailand",
    );
    reveal_strlit("' ");
    reveal_strlit("' (must be a number or a known alias)");
    reveal_strlit("--appid is required");
    reveal_strlit(
        "--appid is required for --check and --download\nUsage: nxdl nxl --appid <APPID> --check <MANIFEST_URL>",
    );
    let region = (UsageError::UnknownRegion { name }).words();
    let front = "unknown region '"@ + name@ + "'. "@;
    assert(region.subrange(0, front.len() as int) =~= front);
    let unknown = (UsageError::UnknownAppid { name }).words();
    let head = "unknown appid: '"@ + name@ + "' "@;
    assert(unknown.subrange(0, head.len() as int) =~= head);
    let missing = UsageError::MissingAppid.words();
    assert(missing.subrange(0, 19) =~= "--appid is required"@);
}

/// What an option takes, in words.
pub proof fn law_options_say_what_they_take()
    ensures
        ListOption::Download.usage_words()
            == "--download takes <TARGET_PATH> or <MANIFEST_URL> <TARGET_PATH>"@,
        ListOption::Patch.usage_words() == "--patch takes <MANIFEST_URL> <TARGET_PATH>"@,
{
}

} // verus!

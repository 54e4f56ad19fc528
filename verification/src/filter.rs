//! Path filters: lists of substrings or of regular expressions.
use vstd::prelude::*;
use vstd::string::*;
use crate::outside;
use crate::text;

verus! {

/// A single condition on a path.
enum FilterPattern {
    Substring(String),
    Regex(regex::Regex),
}

/// A file-path filter built from one or more conditions.
///
/// Backslashes in a path are taken as forward slashes. A path matches when any
/// pattern matches; when the filter is inverted the answer is flipped.
pub struct FileFilter {
    patterns: Vec<FilterPattern>,
    invert: bool,
}

/// What a condition asks of a path.
pub enum Condition {
    /// That it holds this text.
    Substring(Seq<char>),
    /// That this regular expression matches in it.
    Pattern(Seq<char>),
}

impl Condition {
    /// Whether a path with forward slashes meets the condition.
    pub open spec fn met_by(self, path: Seq<char>) -> bool {
        match self {
            Condition::Substring(s) => text::occurs(path, s),
            Condition::Pattern(p) => outside::regex_matches(p, path),
        }
    }
}

/// Whether any of the conditions is met.
pub open spec fn any_met(conditions: Seq<Condition>, path: Seq<char>) -> bool {
    exists|i: int| 0 <= i < conditions.len() && (#[trigger] conditions[i]).met_by(path)
}

/// Whether a filter with these conditions keeps a path.
pub open spec fn keeps(conditions: Seq<Condition>, invert: bool, path: Seq<char>) -> bool {
    any_met(conditions, text::replaced(path, '\\', '/')) != invert
}

/// The conditions of a list of substrings.
pub open spec fn substrings(parts: Seq<Seq<char>>) -> Seq<Condition> {
    Seq::new(parts.len(), |i: int| Condition::Substring(parts[i]))
}

/// The conditions of a list of regular expressions.
pub open spec fn patterns(parts: Seq<Seq<char>>) -> Seq<Condition> {
    Seq::new(parts.len(), |i: int| Condition::Pattern(parts[i]))
}

/// Whether a part is empty.
pub open spec fn some_empty(parts: Seq<Seq<char>>) -> bool {
    exists|i: int| 0 <= i < parts.len() && (#[trigger] parts[i]).len() == 0
}

/// Whether a part can stand as a regular expression.
pub open spec fn sound(part: Seq<char>) -> bool {
    part.len() > 0 && outside::regex_complaint(part) is None
}

/// How many parts at the beginning can stand as regular expressions.
pub open spec fn sound_parts(parts: Seq<Seq<char>>) -> int
    decreases parts.len(),
{
    if parts.len() == 0 || !sound(parts[0]) {
        0
    } else {
        1 + sound_parts(parts.drop_first())
    }
}

/// Why a filter cannot be made.
#[derive(Clone, Debug)]
pub enum FilterError {
    EmptyCondition { raw: String },
    EmptyPattern { raw: String },
    InvalidRegex { pattern: String, complaint: String },
}

impl FilterError {
    /// The words for this error.
    pub open spec fn words(self) -> Seq<char> {
        match self {
            FilterError::EmptyCondition { raw } =>
                "filter condition is invalid: empty condition in '"@ + raw@ + "'"@,
            FilterError::EmptyPattern { raw } =>
                "filter-regex condition is invalid: empty pattern in '"@ + raw@ + "'"@,
            FilterError::InvalidRegex { pattern, complaint } => "invalid regex pattern '"@
                + pattern@ + "': "@ + complaint@,
        }
    }

    /// The message for this error.
    pub fn message(&self) -> (s: String)
        ensures
            s@ == self.words(),
    {
        let mut s = String::new();
        match self {
            FilterError::EmptyCondition { raw } => {
                s.append("filter condition is invalid: empty condition in '");
                s.append(raw.as_str());
                s.append("'");
            },
            FilterError::EmptyPattern { raw } => {
                s.append("filter-regex condition is invalid: empty pattern in '");
                s.append(raw.as_str());
                s.append("'");
            },
            FilterError::InvalidRegex { pattern, complaint } => {
                s.append("invalid regex pattern '");
                s.append(pattern.as_str());
                s.append("': ");
                s.append(complaint.as_str());
            },
        }
        s
    }
}

/// Answers by the verdicts of the conditions.
pub fn decide(verdicts: &[bool], invert: bool) -> (r: bool)
    ensures
        r == ((exists|i: int| 0 <= i < verdicts@.len() && #[trigger] verdicts@[i]) != invert),
{
    let mut i: usize = 0;
    while i < verdicts.len()
        invariant
            i <= verdicts@.len(),
            forall|j: int| 0 <= j < i ==> !#[trigger] verdicts@[j],
        decreases verdicts@.len() - i,
    {
        if verdicts[i] {
            return !invert;
        }
        i = i + 1;
    }
    invert
}

impl FilterPattern {
    /// The condition that this pattern stands for.
    spec fn condition(self) -> Condition {
        match self {
            FilterPattern::Substring(s) => Condition::Substring(s@),
            FilterPattern::Regex(re) => Condition::Pattern(outside::regex_source(re)),
        }
    }

    /// A pattern that stands for the same condition.
    fn duplicate(&self) -> (copy: FilterPattern)
        ensures
            copy.condition() == self.condition(),
    {
        match self {
            FilterPattern::Substring(s) => FilterPattern::Substring(s.clone()),
            FilterPattern::Regex(re) => FilterPattern::Regex(outside::regex_clone(re)),
        }
    }
}

impl Clone for FileFilter {
    fn clone(&self) -> (copy: FileFilter)
        ensures
            copy.conditions() == self.conditions(),
            copy.inverted() == self.inverted(),
    {
        let mut patterns: Vec<FilterPattern> = Vec::new();
        let mut i: usize = 0;
        while i < self.patterns.len()
            invariant
                i <= self.patterns@.len(),
                patterns@.len() == i,
                forall|j: int|
                    0 <= j < i ==> (#[trigger] patterns@[j]).condition()
                        == self.patterns@[j].condition(),
            decreases self.patterns@.len() - i,
        {
            patterns.push(self.patterns[i].duplicate());
            i = i + 1;
        }
        let copy = FileFilter { patterns, invert: self.invert };
        assert(copy.conditions() =~= self.conditions());
        copy
    }
}

impl FileFilter {
    /// The conditions of this filter.
    pub closed spec fn conditions(&self) -> Seq<Condition> {
        Seq::new(self.patterns@.len(), |i: int| self.patterns@[i].condition())
    }

    /// Whether the answers of this filter are flipped.
    pub closed spec fn inverted(&self) -> bool {
        self.invert
    }

    /// Builds a filter from a colon-separated list of literal substrings.
    ///
    /// Returns an error if any condition is empty.
    pub fn from_substrings(raw: &str, invert: bool) -> (result: Result<FileFilter, FilterError>)
        ensures
            ({
                let parts = text::split_on(raw@, ':');
                if some_empty(parts) {
                    result matches Err(FilterError::EmptyCondition { raw: r }) && r@ == raw@
                } else {
                    &&& result matches Ok(filter)
                    &&& filter.conditions() == substrings(parts)
                    &&& filter.inverted() == invert
                }
            }),
    {
        let chars = text::to_chars(raw);
        let parts = text::split(chars.as_slice(), ':');
        let ghost all = text::texts(parts@);
        let mut patterns: Vec<FilterPattern> = Vec::new();
        let mut i: usize = 0;
        while i < parts.len()
            invariant
                i <= parts@.len(),
                all == text::texts(parts@),
                all == text::split_on(raw@, ':'),
                patterns@.len() == i,
                forall|j: int| 0 <= j < i ==> (#[trigger] all[j]).len() > 0,
                forall|j: int|
                    0 <= j < i ==> (#[trigger] patterns@[j]).condition() == Condition::Substring(
                        all[j],
                    ),
            decreases parts@.len() - i,
        {
            assert(all[i as int] == parts@[i as int]@);
            if text::to_chars(parts[i].as_str()).len() == 0 {
                return Err(FilterError::EmptyCondition { raw: raw.to_owned() });
            }
            patterns.push(FilterPattern::Substring(parts[i].clone()));
            i = i + 1;
        }
        let filter = FileFilter { patterns, invert };
        assert(filter.conditions() =~= substrings(all));
        Ok(filter)
    }

    /// Builds a filter from a colon-separated list of regex patterns.
    ///
    /// Returns an error if any pattern is empty or not a valid regular
    /// expression; the first such pattern is reported.
    pub fn from_regexes(raw: &str, invert: bool) -> (result: Result<FileFilter, FilterError>)
        ensures
            ({
                let parts = text::split_on(raw@, ':');
                let n = sound_parts(parts);
                if n == parts.len() {
                    &&& result matches Ok(filter)
                    &&& filter.conditions() == patterns(parts)
                    &&& filter.inverted() == invert
                } else if parts[n].len() == 0 {
                    result matches Err(FilterError::EmptyPattern { raw: r }) && r@ == raw@
                } else {
                    &&& result matches Err(FilterError::InvalidRegex { pattern, complaint })
                    &&& pattern@ == parts[n]
                    &&& outside::regex_complaint(parts[n]) == Some(complaint@)
                }
            }),
    {
        let chars = text::to_chars(raw);
        let parts = text::split(chars.as_slice(), ':');
        let ghost all = text::texts(parts@);
        let mut made: Vec<FilterPattern> = Vec::new();
        let mut i: usize = 0;
        let n = parts.len();
        assert(all.subrange(0, n as int) =~= all);
        while i < n
            invariant
                i <= n == parts@.len(),
                all == text::texts(parts@),
                all == text::split_on(raw@, ':'),
                made@.len() == i,
                sound_parts(all) == i + sound_parts(all.subrange(i as int, n as int)),
                forall|j: int|
                    0 <= j < i ==> (#[trigger] made@[j]).condition() == Condition::Pattern(all[j]),
            decreases n - i,
        {
            proof {
                let rest = all.subrange(i as int, n as int);
                assert(rest[0] == parts@[i as int]@);
                assert(rest.drop_first() =~= all.subrange(i + 1, n as int));
            }
            if text::to_chars(parts[i].as_str()).len() == 0 {
                return Err(FilterError::EmptyPattern { raw: raw.to_owned() });
            }
            match outside::regex_new(parts[i].as_str()) {
                Ok(re) => {
                    made.push(FilterPattern::Regex(re));
                },
                Err(e) => {
                    return Err(
                        FilterError::InvalidRegex {
                            pattern: parts[i].clone(),
                            complaint: outside::regex_error_text(&e),
                        },
                    );
                },
            }
            i = i + 1;
        }
        let filter = FileFilter { patterns: made, invert };
        assert(all.subrange(n as int, n as int).len() == 0);
        assert(filter.conditions() =~= patterns(all));
        Ok(filter)
    }

    /// Returns `true` if `path` matches this filter.
    ///
    /// Backslashes in `path` are taken as forward slashes.
    pub fn matches(&self, path: &str) -> (r: bool)
        ensures
            r == keeps(self.conditions(), self.inverted(), path@),
    {
        let chars = text::to_chars(path);
        let normalized = text::replace_char(chars.as_slice(), '\\', '/');
        let whole = text::from_chars(normalized.as_slice());
        let mut verdicts: Vec<bool> = Vec::new();
        let mut i: usize = 0;
        while i < self.patterns.len()
            invariant
                i <= self.patterns@.len(),
                verdicts@.len() == i,
                normalized@ == text::replaced(path@, '\\', '/'),
                whole@ == normalized@,
                forall|j: int|
                    0 <= j < i ==> #[trigger] verdicts@[j] == self.conditions()[j].met_by(
                        normalized@,
                    ),
            decreases self.patterns@.len() - i,
        {
            let verdict = match &self.patterns[i] {
                FilterPattern::Substring(s) => text::contains(
                    normalized.as_slice(),
                    text::to_chars(s.as_str()).as_slice(),
                ),
                FilterPattern::Regex(re) => outside::regex_is_match(re, whole.as_str()),
            };
            assert(self.conditions()[i as int] == self.patterns@[i as int].condition());
            verdicts.push(verdict);
            i = i + 1;
        }
        proof {
            let conditions = self.conditions();
            let slashed = normalized@;
            if any_met(conditions, slashed) {
                let k = choose|k: int|
                    0 <= k < conditions.len() && (#[trigger] conditions[k]).met_by(slashed);
                assert(verdicts@[k]);
            }
            if exists|k: int| 0 <= k < verdicts@.len() && #[trigger] verdicts@[k] {
                let k = choose|k: int| 0 <= k < verdicts@.len() && #[trigger] verdicts@[k];
                assert(conditions[k].met_by(slashed));
            }
        }
        decide(verdicts.as_slice(), self.invert)
    }
}

/// Builds the filter that the options ask for. Substrings come before regular
/// expressions where both are given.
pub fn build_filter(
    filter: Option<&String>,
    filter_regex: Option<&String>,
    invert: bool,
) -> (result: Result<Option<FileFilter>, FilterError>)
    ensures
        match (filter, filter_regex) {
            (Some(raw), _) => {
                let parts = text::split_on(raw@, ':');
                if some_empty(parts) {
                    result matches Err(FilterError::EmptyCondition { raw: r }) && r@ == raw@
                } else {
                    &&& result matches Ok(Some(f))
                    &&& f.conditions() == substrings(parts)
                    &&& f.inverted() == invert
                }
            },
            (None, Some(raw)) => {
                let parts = text::split_on(raw@, ':');
                let n = sound_parts(parts);
                if n == parts.len() {
                    &&& result matches Ok(Some(f))
                    &&& f.conditions() == patterns(parts)
                    &&& f.inverted() == invert
                } else if parts[n].len() == 0 {
                    result matches Err(FilterError::EmptyPattern { raw: r }) && r@ == raw@
                } else {
                    &&& result matches Err(FilterError::InvalidRegex { pattern, complaint })
                    &&& pattern@ == parts[n]
                    &&& outside::regex_complaint(parts[n]) == Some(complaint@)
                }
            },
            (None, None) => result matches Ok(None),
        },
{
    match filter {
        Some(raw) => match FileFilter::from_substrings(raw.as_str(), invert) {
            Ok(f) => Ok(Some(f)),
            Err(e) => Err(e),
        },
        None => match filter_regex {
            Some(raw) => match FileFilter::from_regexes(raw.as_str(), invert) {
                Ok(f) => Ok(Some(f)),
                Err(e) => Err(e),
            },
            None => Ok(None),
        },
    }
}

// ---------------------------------------------------------------------------
// Laws
// ---------------------------------------------------------------------------

/// A filter and the same filter inverted keep complementary sets of paths.
pub proof fn law_invert_is_complement(conditions: Seq<Condition>, invert: bool, path: Seq<char>)
    ensures
        keeps(conditions, !invert, path) == !keeps(conditions, invert, path),
{
}

/// Paths that differ in the direction of their slashes are treated alike.
pub proof fn law_slashes_do_not_matter(
    conditions: Seq<Condition>,
    invert: bool,
    a: Seq<char>,
    b: Seq<char>,
)
    requires
        text::replaced(a, '\\', '/') == text::replaced(b, '\\', '/'),
    ensures
        keeps(conditions, invert, a) == keeps(conditions, invert, b),
{
}

/// Adding a condition to a filter that is not inverted never drops a path.
pub proof fn law_conditions_are_alternatives(
    conditions: Seq<Condition>,
    more: Condition,
    path: Seq<char>,
)
    ensures
        keeps(conditions.push(more), false, path) == (keeps(conditions, false, path)
            || more.met_by(text::replaced(path, '\\', '/'))),
{
    let slashed = text::replaced(path, '\\', '/');
    let all = conditions.push(more);
    if any_met(all, slashed) {
        let i = choose|i: int| 0 <= i < all.len() && (#[trigger] all[i]).met_by(slashed);
        if i < conditions.len() {
            assert(conditions[i].met_by(slashed));
        }
    }
    if any_met(conditions, slashed) {
        let i = choose|i: int|
            0 <= i < conditions.len() && (#[trigger] conditions[i]).met_by(slashed);
        assert(all[i].met_by(slashed));
    }
    if more.met_by(slashed) {
        assert(all[conditions.len() as int].met_by(slashed));
    }
}

/// A filter of substrings that is not inverted keeps a path exactly where the
/// path, with its backslashes turned, is made of one of them and of what comes
/// before and after it, either of which may be empty; inverted, it keeps exactly
/// the others.
pub proof fn law_substrings_stand_anywhere(
    parts: Seq<Seq<char>>,
    invert: bool,
    path: Seq<char>,
    slashed: Seq<char>,
)
    requires
        slashed.len() == path.len(),
        forall|i: int|
            0 <= i < path.len() ==> #[trigger] slashed[i] == (if path[i] == '\\' {
                '/'
            } else {
                path[i]
            }),
    ensures
        keeps(substrings(parts), invert, path) == ((exists|k: int, a: Seq<char>, b: Seq<char>|
            0 <= k < parts.len() && slashed == #[trigger] (a + parts[k] + b)) != invert),
{
    let conditions = substrings(parts);
    assert(text::replaced(path, '\\', '/') =~= slashed);
    if any_met(conditions, slashed) {
        let k = choose|k: int|
            0 <= k < conditions.len() && (#[trigger] conditions[k]).met_by(slashed);
        text::law_found_parts_are_there(slashed, parts[k]);
        let (a, b) = choose|a: Seq<char>, b: Seq<char>| slashed == #[trigger] (a + parts[k] + b);
        assert(slashed == a + parts[k] + b);
    }
    if exists|k: int, a: Seq<char>, b: Seq<char>|
        0 <= k < parts.len() && slashed == #[trigger] (a + parts[k] + b) {
        let (k, a, b) = choose|k: int, a: Seq<char>, b: Seq<char>|
            0 <= k < parts.len() && slashed == #[trigger] (a + parts[k] + b);
        text::law_parts_are_found(a, parts[k], b);
        assert(conditions[k].met_by(slashed));
    }
}

/// A filter with a single substring keeps every path that holds it, wherever it
/// stands: at the beginning, at the end, in between, or as all of the path.
pub proof fn law_a_substring_is_found(a: Seq<char>, s: Seq<char>, b: Seq<char>)
    requires
        !(a + s + b).contains('\\'),
    ensures
        keeps(substrings(seq![s]), false, a + s + b),
        !keeps(substrings(seq![s]), true, a + s + b),
{
    let path = a + s + b;
    assert forall|i: int| 0 <= i < path.len() implies path[i] != '\\' by {
        assert(path.contains(path[i]));
    }
    law_substrings_stand_anywhere(seq![s], false, path, path);
    law_substrings_stand_anywhere(seq![s], true, path, path);
    assert(path == a + seq![s][0] + b);
}

/// A filter of regular expressions keeps a path exactly where one of them
/// matches in the path with its backslashes turned; inverted, the others.
pub proof fn law_patterns_are_alternatives(
    parts: Seq<Seq<char>>,
    invert: bool,
    path: Seq<char>,
    slashed: Seq<char>,
)
    requires
        slashed.len() == path.len(),
        forall|i: int|
            0 <= i < path.len() ==> #[trigger] slashed[i] == (if path[i] == '\\' {
                '/'
            } else {
                path[i]
            }),
    ensures
        keeps(patterns(parts), invert, path) == ((exists|k: int|
            0 <= k < parts.len() && outside::regex_matches(#[trigger] parts[k], slashed))
            != invert),
{
    let conditions = patterns(parts);
    assert(text::replaced(path, '\\', '/') =~= slashed);
    if any_met(conditions, slashed) {
        let k = choose|k: int|
            0 <= k < conditions.len() && (#[trigger] conditions[k]).met_by(slashed);
        assert(outside::regex_matches(parts[k], slashed));
    }
    if exists|k: int|
        0 <= k < parts.len() && outside::regex_matches(#[trigger] parts[k], slashed) {
        let k = choose|k: int|
            0 <= k < parts.len() && outside::regex_matches(#[trigger] parts[k], slashed);
        assert(conditions[k].met_by(slashed));
    }
}

/// The regular expressions before the first one that is empty or refused are
/// those that are taken; the list is refused exactly where there is one such.
pub proof fn law_first_bad_pattern_is_found(parts: Seq<Seq<char>>)
    ensures
        0 <= sound_parts(parts) <= parts.len(),
        forall|i: int|
            0 <= i < sound_parts(parts) ==> (#[trigger] parts[i]).len() > 0
                && outside::regex_complaint(parts[i]) is None,
        sound_parts(parts) < parts.len() ==> parts[sound_parts(parts)].len() == 0
            || outside::regex_complaint(parts[sound_parts(parts)]) is Some,
    decreases parts.len(),
{
    if parts.len() > 0 && sound(parts[0]) {
        let rest = parts.drop_first();
        law_first_bad_pattern_is_found(rest);
        assert forall|i: int| 0 <= i < sound_parts(parts) implies (#[trigger] parts[i]).len() > 0
            && outside::regex_complaint(parts[i]) is None by {
            if i > 0 {
                assert(parts[i] == rest[i - 1]);
            }
        }
    }
}

/// A list of substrings is refused exactly where two colons stand together or
/// one stands at an end, or where there is nothing at all.
pub proof fn law_empty_conditions_are_refused(raw: Seq<char>)
    ensures
        some_empty(text::split_on(raw, ':')) <==> (raw.len() == 0 || raw[0] == ':' || raw.last()
            == ':' || exists|i: int|
            0 <= i < raw.len() - 1 && #[trigger] raw[i] == ':' && raw[i + 1] == ':'),
    decreases raw.len(),
{
    let parts = text::split_on(raw, ':');
    text::lemma_first_at(raw, ':');
    let i = text::first_at(raw, ':');
    let doubled = exists|i: int|
        0 <= i < raw.len() - 1 && #[trigger] raw[i] == ':' && raw[i + 1] == ':';
    if i < raw.len() {
        let tail = raw.subrange(i + 1, raw.len() as int);
        let rest = text::split_on(tail, ':');
        law_empty_conditions_are_refused(tail);
        assert(parts[0] == raw.subrange(0, i));
        assert(parts =~= seq![parts[0]] + rest);
        if some_empty(parts) {
            let k = choose|k: int| 0 <= k < parts.len() && (#[trigger] parts[k]).len() == 0;
            if k > 0 {
                assert(rest[k - 1].len() == 0);
                assert(some_empty(rest));
                if tail.len() == 0 {
                    assert(raw.last() == raw[i]);
                } else if tail[0] == ':' {
                    assert(raw[i] == ':' && raw[i + 1] == ':');
                } else if tail.last() == ':' {
                    assert(raw.last() == tail.last());
                } else {
                    let j = choose|j: int|
                        0 <= j < tail.len() - 1 && #[trigger] tail[j] == ':' && tail[j + 1] == ':';
                    assert(raw[i + 1 + j] == ':' && raw[i + 1 + j + 1] == ':');
                }
            } else {
                assert(raw[0] == ':');
            }
        }
        if raw[0] == ':' {
            assert(parts[0].len() == 0);
        } else if raw.last() == ':' || doubled {
            assert(some_empty(rest)) by {
                if raw.last() == ':' {
                    if tail.len() > 0 {
                        assert(tail.last() == raw.last());
                    }
                } else {
                    let j = choose|j: int|
                        0 <= j < raw.len() - 1 && #[trigger] raw[j] == ':' && raw[j + 1] == ':';
                    assert(j >= i);
                    if j == i {
                        assert(tail[0] == raw[i + 1]);
                    } else {
                        assert(tail[j - i - 1] == ':' && tail[j - i - 1 + 1] == ':');
                    }
                }
            }
            let k = choose|k: int| 0 <= k < rest.len() && (#[trigger] rest[k]).len() == 0;
            assert(parts[k + 1].len() == 0);
        }
    } else {
        assert(parts =~= seq![raw]);
        if some_empty(parts) {
            let k = choose|k: int| 0 <= k < parts.len() && (#[trigger] parts[k]).len() == 0;
            assert(parts[k] == raw);
        }
        if raw.len() == 0 {
            assert(parts[0].len() == 0);
        }
        if doubled {
            let j = choose|j: int|
                0 <= j < raw.len() - 1 && #[trigger] raw[j] == ':' && raw[j + 1] == ':';
            assert(raw[j] != ':');
        }
    }
}

/// A message about a filter quotes the option that is wrong, or the pattern and what
/// is objected to in it.
pub proof fn law_filter_messages(raw: String, pattern: String, complaint: String)
    ensures
        (FilterError::EmptyCondition { raw }).words()
            == "filter condition is invalid: empty condition in '"@ + raw@ + "'"@,
        (FilterError::EmptyPattern { raw }).words()
            == "filter-regex condition is invalid: empty pattern in '"@ + raw@ + "'"@,
        (FilterError::InvalidRegex { pattern, complaint }).words() == "invalid regex pattern '"@
            + pattern@ + "': "@ + complaint@,
{
}

} // verus!

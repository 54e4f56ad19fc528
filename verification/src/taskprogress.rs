//! Progress shown by the terminal on its own window, by means of the escape
//! sequence OSC 9;4.
use vstd::prelude::*;
use vstd::string::*;
use crate::numerals;
use crate::text;

verus! {

/// Whether a terminal is known to understand the sequence, by what it says of
/// itself: `WT_SESSION` is set, `ConEmuANSI` is `ON`, or `TERM_PROGRAM` is one
/// of a few.
pub open spec fn understands(
    wt_session: bool,
    conemu_ansi: Option<Seq<char>>,
    term_program: Option<Seq<char>>,
) -> bool {
    ||| wt_session
    ||| (conemu_ansi matches Some(v) && text::lower(v) == text::lower("ON"@))
    ||| term_program == Some("vscode"@)
    ||| term_program == Some("kiro"@)
    ||| term_program == Some("WezTerm"@)
}

/// Computes `understands`.
pub fn terminal_supports_osc94(
    wt_session: bool,
    conemu_ansi: Option<&String>,
    term_program: Option<&String>,
) -> (r: bool)
    ensures
        r == understands(
            wt_session,
            match conemu_ansi {
                Some(v) => Some(v@),
                None => None,
            },
            match term_program {
                Some(v) => Some(v@),
                None => None,
            },
        ),
{
    if wt_session {
        return true;
    }
    if let Some(v) = conemu_ansi {
        if text::same_ignoring_case(v.as_str(), "ON") {
            return true;
        }
    }
    match term_program {
        Some(name) => {
            let chars = text::to_chars(name.as_str());
            let s = chars.as_slice();
            text::spells(s, "vscode") || text::spells(s, "kiro") || text::spells(s, "WezTerm")
        },
        None => false,
    }
}

/// The sequence that shows a percentage, at most a hundred.
pub fn progress_sequence(percent: u64) -> (sequence: String)
    ensures
        sequence@ == "\x1b]9;4;4;"@ + numerals::decimal(
            (if percent > 100 {
                100
            } else {
                percent as int
            }) as nat,
        ) + "\x1b\\"@,
{
    let shown: u64 = if percent > 100 {
        100
    } else {
        percent
    };
    let mut sequence = String::new();
    sequence.append("\x1b]9;4;4;");
    numerals::push_decimal(&mut sequence, shown as u128);
    sequence.append("\x1b\\");
    sequence
}

/// The sequence that takes the progress away.
pub fn clear_sequence() -> (sequence: String)
    ensures
        sequence@ == "\x1b]9;4;0;0\x1b\\"@,
{
    "\x1b]9;4;0;0\x1b\\".to_owned()
}

// ---------------------------------------------------------------------------
// Laws
// ---------------------------------------------------------------------------

/// A terminal with a session of its own understands the sequence, whatever else
/// it says; so does one that says `ON` in any case of letters; and of the named
/// programs these three do, in this case only.
pub proof fn law_terminals_that_understand(
    conemu_ansi: Option<Seq<char>>,
    term_program: Option<Seq<char>>,
    other: Seq<char>,
)
    ensures
        understands(true, conemu_ansi, term_program),
        understands(false, None, Some("vscode"@)),
        understands(false, None, Some("kiro"@)),
        understands(false, None, Some("WezTerm"@)),
        !understands(false, None, None),
        other != "vscode"@ && other != "kiro"@ && other != "WezTerm"@ ==> !understands(
            false,
            None,
            Some(other),
        ),
        understands(false, Some(other), None) <==> other.len() == 2 && (other[0] == 'o' || other[0]
            == 'O') && (other[1] == 'n' || other[1] == 'N'),
        understands(false, conemu_ansi, term_program) <==> understands(false, conemu_ansi, None)
            || understands(false, None, term_program),
{
    reveal_strlit("ON");
    let on = text::lower("ON"@);
    lemma_small_letters('O');
    lemma_small_letters('N');
    assert(on[0] == 'o' && on[1] == 'n' && on.len() == 2);
    if other.len() == 2 {
        lemma_small_letters(other[0]);
        lemma_small_letters(other[1]);
        if text::lower_char(other[0]) == 'o' && text::lower_char(other[1]) == 'n' {
            assert(text::lower(other) =~= on);
        }
        if text::lower(other) == on {
            assert(text::lower(other)[0] == 'o' && text::lower(other)[1] == 'n');
        }
    }
    assert(text::lower(other).len() == other.len());
}

/// Which characters become these two when they are made small.
proof fn lemma_small_letters(c: char)
    ensures
        text::lower_char(c) == 'o' <==> c == 'o' || c == 'O',
        text::lower_char(c) == 'n' <==> c == 'n' || c == 'N',
{
}

} // verus!

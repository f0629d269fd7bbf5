//! Running scripts without a terminal: which lines are commands, what of the
//! output can be compared, and how a run ends.

use crate::text::{
    cat3, cat4, cat5, chars_of, find, found_from, lines, occurs_at, optional, push_line, same,
    starts_with, text_between, texts, trim, trimmed,
};
use crate::text_laws::{all_white, is_tight, trimming_takes_white_space_away};
use vstd::prelude::*;

verus! {

// ---------------------------------------------------------------------------
// Lines
// ---------------------------------------------------------------------------

/// The text up to the line end that it may have, without a carriage return
/// before it.
pub open spec fn line_body(line: Seq<char>) -> Seq<char> {
    if line.len() > 0 && line.last() == '\r' {
        line.drop_last()
    } else {
        line
    }
}

/// The lines of a text that ends at `end`, from the line that starts at `start`
/// on and with `at` as the next character to be looked at.
pub open spec fn lines_from(text: Seq<char>, start: int, at: int) -> Seq<Seq<char>>
    decreases text.len() - at,
{
    if at < start || at > text.len() {
        Seq::empty()
    } else if at == text.len() {
        if start == at {
            Seq::empty()
        } else {
            seq![text.subrange(start, at)]
        }
    } else if text[at] == '\n' {
        seq![line_body(text.subrange(start, at))] + lines_from(text, at + 1, at + 1)
    } else {
        lines_from(text, start, at + 1)
    }
}

/// The lines of a text, without their ends.
pub open spec fn lines_of(text: Seq<char>) -> Seq<Seq<char>> {
    lines_from(text, 0, 0)
}

/// Splits a text into its lines, without their ends.
fn split_lines(text: &str) -> (r: Vec<String>)
    ensures
        texts(r@) == lines_of(text@),
{
    let chars = chars_of(text);
    let ghost all = lines_of(text@);
    let mut out: Vec<String> = Vec::new();
    let mut start: usize = 0;
    let mut at: usize = 0;
    assert(texts(out@) + lines_from(text@, 0, 0) =~= all);
    while at < chars.len()
        invariant
            start <= at <= chars@.len(),
            chars@ == text@,
            all == texts(out@) + lines_from(text@, start as int, at as int),
        decreases chars@.len() - at,
    {
        if chars[at] == '\n' {
            let ghost done = texts(out@);
            let end = if at > start && chars[at - 1] == '\r' {
                at - 1
            } else {
                at
            };
            let ghost whole = text@.subrange(start as int, at as int);
            assert(chars@.subrange(start as int, end as int) =~= line_body(whole)) by {
                if at > start {
                    assert(whole.last() == text@[at as int - 1]);
                }
            }
            out.push(text_between(&chars, start, end));
            assert(texts(out@) =~= done.push(line_body(whole)));
            assert(all =~= texts(out@) + lines_from(text@, at as int + 1, at as int + 1));
            start = at + 1;
        }
        at += 1;
    }
    if start < at {
        let ghost done = texts(out@);
        let ghost last = text@.subrange(start as int, at as int);
        out.push(text_between(&chars, start, at));
        assert(texts(out@) =~= done.push(last));
        assert(all =~= texts(out@));
    } else {
        assert(all =~= texts(out@));
    }
    out
}

/// A line that tells how long something took.
pub open spec fn tells_time(line: Seq<char>) -> bool {
    occurs_at(line, "(Time:"@, 0) || found_from(line, ". Executed "@, 0) is Some
}

/// The lines but for those that tell how long something took.
pub open spec fn without_times(lines: Seq<Seq<char>>) -> Seq<Seq<char>>
    decreases lines.len(),
{
    if lines.len() == 0 {
        lines
    } else if tells_time(lines.last()) {
        without_times(lines.drop_last())
    } else {
        without_times(lines.drop_last()).push(lines.last())
    }
}

/// No line that is left tells how long something took, and every other line is
/// left.
pub proof fn no_time_is_left(lines: Seq<Seq<char>>)
    ensures
        forall|i: int|
            0 <= i < without_times(lines).len() ==> !tells_time(
                #[trigger] without_times(lines)[i],
            ),
        forall|i: int|
            0 <= i < lines.len() && !tells_time(#[trigger] lines[i]) ==> without_times(
                lines,
            ).contains(lines[i]),
    decreases lines.len(),
{
    if lines.len() > 0 {
        let rest = lines.drop_last();
        let before = without_times(rest);
        let after = without_times(lines);
        no_time_is_left(rest);
        assert forall|i: int| 0 <= i < after.len() implies !tells_time(#[trigger] after[i]) by {
            if i < before.len() {
                assert(after[i] == before[i]);
            }
        }
        assert forall|i: int| 0 <= i < lines.len() && !tells_time(
            #[trigger] lines[i],
        ) implies after.contains(lines[i]) by {
            if i < rest.len() {
                assert(rest[i] == lines[i]);
                let k = choose|k: int| 0 <= k < before.len() && before[k] == lines[i];
                assert(after[k] == lines[i]);
            } else {
                assert(after[after.len() - 1] == lines[i]);
            }
        }
    }
}

/// A carriage return is the last character of the line.
pub open spec fn ends_in_return(line: Seq<char>) -> bool {
    line.len() > 0 && line.last() == '\r'
}

/// No line holds a line end.
proof fn lines_hold_no_end(text: Seq<char>, start: int, at: int)
    requires
        0 <= start <= at <= text.len(),
        forall|k: int| start <= k < at ==> #[trigger] text[k] != '\n',
    ensures
        forall|i: int|
            0 <= i < lines_from(text, start, at).len() ==> !(#[trigger] lines_from(
                text,
                start,
                at,
            )[i]).contains('\n'),
    decreases text.len() - at,
{
    let part = text.subrange(start, at);
    assert forall|k: int| 0 <= k < part.len() implies #[trigger] part[k] != '\n' by {
        assert(part[k] == text[start + k]);
    }
    if at < text.len() {
        if text[at] == '\n' {
            lines_hold_no_end(text, at + 1, at + 1);
            let rest = lines_from(text, at + 1, at + 1);
            let all = lines_from(text, start, at);
            assert(forall|k: int|
                0 <= k < line_body(part).len() ==> #[trigger] line_body(part)[k] == part[k]);
            assert forall|i: int| 0 <= i < all.len() implies !(#[trigger] all[i]).contains(
                '\n',
            ) by {
                if i > 0 {
                    assert(all[i] == rest[i - 1]);
                }
            }
        } else {
            lines_hold_no_end(text, start, at + 1);
            assert(lines_from(text, start, at) == lines_from(text, start, at + 1));
        }
    } else if start < at {
        assert(lines_from(text, start, at) == seq![part]);
    }
}

/// Characters that end no line only make the line longer.
proof fn line_goes_on(text: Seq<char>, start: int, at: int, end: int)
    requires
        0 <= start <= at <= end <= text.len(),
        forall|k: int| at <= k < end ==> #[trigger] text[k] != '\n',
    ensures
        lines_from(text, start, at) == lines_from(text, start, end),
    decreases end - at,
{
    if at < end {
        line_goes_on(text, start, at + 1, end);
    }
}

/// A line that is written after other lines is the last line.
proof fn line_is_added(text: Seq<char>, line: Seq<char>, start: int, at: int)
    requires
        0 <= start <= at <= text.len(),
        text.len() > 0 ==> text.last() == '\n',
        forall|k: int| start <= k < at ==> #[trigger] text[k] != '\n',
        !line.contains('\n'),
        !ends_in_return(line),
    ensures
        lines_from(text + line + seq!['\n'], start, at) == lines_from(text, start, at).push(line),
    decreases text.len() - at,
{
    let whole = text + line + seq!['\n'];
    if at == text.len() {
        let end = at + line.len();
        assert(start == at);
        assert forall|k: int| at <= k < end implies #[trigger] whole[k] != '\n' by {
            assert(whole[k] == line[k - at]);
        }
        line_goes_on(whole, start, at, end);
        assert(whole.subrange(start, end) =~= line);
        assert(lines_from(whole, end + 1, end + 1) =~= Seq::<Seq<char>>::empty());
        assert(lines_from(whole, start, at) =~= seq![line]);
    } else if text[at] == '\n' {
        line_is_added(text, line, at + 1, at + 1);
        assert(whole.subrange(start, at) =~= text.subrange(start, at));
        assert(lines_from(whole, start, at) =~= lines_from(text, start, at).push(line));
    } else {
        line_is_added(text, line, start, at + 1);
    }
}

/// Lines that were written one after the other are read back, if none of them
/// holds a line end or ends in a carriage return.
pub proof fn lines_are_read_back(parts: Seq<Seq<char>>)
    requires
        forall|i: int|
            0 <= i < parts.len() ==> !(#[trigger] parts[i]).contains('\n') && !ends_in_return(
                parts[i],
            ),
    ensures
        lines_of(lines(parts)) == parts,
    decreases parts.len(),
{
    if parts.len() > 0 {
        let rest = parts.drop_last();
        assert forall|i: int| 0 <= i < rest.len() implies !(#[trigger] rest[i]).contains('\n')
            && !ends_in_return(rest[i]) by {
            assert(rest[i] == parts[i]);
        }
        lines_are_read_back(rest);
        assert(!parts[parts.len() - 1].contains('\n'));
        line_is_added(lines(rest), parts.last(), 0, 0);
        assert(rest.push(parts.last()) =~= parts);
    } else {
        assert(lines_of(lines(parts)) =~= parts);
    }
}

/// What is left is left again.
proof fn nothing_more_is_left_out(lines: Seq<Seq<char>>)
    ensures
        without_times(without_times(lines)) == without_times(lines),
    decreases lines.len(),
{
    if lines.len() > 0 {
        nothing_more_is_left_out(lines.drop_last());
        if !tells_time(lines.last()) {
            let before = without_times(lines.drop_last());
            assert(before.push(lines.last()).drop_last() =~= before);
        }
    }
}

/// What is left is some of the lines.
proof fn left_lines_were_there(lines: Seq<Seq<char>>)
    ensures
        forall|i: int|
            0 <= i < without_times(lines).len() ==> lines.contains(
                #[trigger] without_times(lines)[i],
            ),
    decreases lines.len(),
{
    if lines.len() > 0 {
        let rest = lines.drop_last();
        let before = without_times(rest);
        let after = without_times(lines);
        left_lines_were_there(rest);
        assert forall|i: int| 0 <= i < after.len() implies lines.contains(#[trigger] after[i]) by {
            if i < before.len() {
                assert(after[i] == before[i]);
                let k = choose|k: int| 0 <= k < rest.len() && rest[k] == before[i];
                assert(lines[k] == after[i]);
            } else {
                assert(lines[lines.len() - 1] == after[i]);
            }
        }
    }
}

/// Leaving out the lines that tell how long something took a second time changes
/// nothing more, if no line that is left ends in a carriage return, which would
/// be read as a part of its end.
pub proof fn stripping_again_changes_nothing(text: Seq<char>)
    requires
        forall|i: int|
            0 <= i < lines_of(text).len() && !tells_time(#[trigger] lines_of(text)[i])
                ==> !ends_in_return(lines_of(text)[i]),
    ensures
        lines(without_times(lines_of(lines(without_times(lines_of(text)))))) == lines(
            without_times(lines_of(text)),
        ),
{
    let all = lines_of(text);
    let left = without_times(all);
    lines_hold_no_end(text, 0, 0);
    left_lines_were_there(all);
    no_time_is_left(all);
    assert forall|i: int| 0 <= i < left.len() implies !(#[trigger] left[i]).contains('\n')
        && !ends_in_return(left[i]) by {
        let k = choose|k: int| 0 <= k < all.len() && all[k] == left[i];
        assert(all[k] == left[i]);
    }
    lines_are_read_back(left);
    nothing_more_is_left_out(all);
}

/// Leaves out of a text the lines that tell how long something took, so that it
/// is the same in every run.
pub fn strip_timing(text: &str) -> (r: String)
    ensures
        r@ == lines(without_times(lines_of(text@))),
{
    let all = split_lines(text);
    let ghost whole = texts(all@);
    let mut out = String::new();
    let mut i: usize = 0;
    assert(out@ =~= lines(without_times(whole.take(0))));
    while i < all.len()
        invariant
            i <= all@.len(),
            whole == texts(all@),
            out@ == lines(without_times(whole.take(i as int))),
        decreases all@.len() - i,
    {
        assert(whole.take(i as int + 1).drop_last() =~= whole.take(i as int));
        let line = all[i].as_str();
        assert(whole[i as int] == line@);
        if !starts_with(line, "(Time:") && find(line, ". Executed ").is_none() {
            let ghost before = without_times(whole.take(i as int));
            push_line(&mut out, line);
            assert(before.push(line@).drop_last() =~= before);
        }
        i += 1;
    }
    assert(whole.take(i as int) =~= whole);
    out
}

// ---------------------------------------------------------------------------
// Scripts
// ---------------------------------------------------------------------------

/// The text without the byte order marks before it.
pub open spec fn without_marks(text: Seq<char>) -> Seq<char>
    decreases text.len(),
{
    if text.len() > 0 && text[0] == '\u{feff}' {
        without_marks(text.drop_first())
    } else {
        text
    }
}

/// The command in a line of a script, if there is one: the line is neither
/// empty nor a comment.
pub open spec fn command_in(line: Seq<char>, is_first: bool) -> Option<Seq<char>> {
    let command = trimmed(
        if is_first {
            without_marks(line)
        } else {
            line
        },
    );
    if command.len() == 0 || occurs_at(command, "--"@, 0) {
        None
    } else {
        Some(command)
    }
}

/// The command in a line of a script, if there is one. The first line may start
/// with a byte order mark.
pub fn script_command(line: &str, is_first: bool) -> (r: Option<String>)
    ensures
        optional(r) == command_in(line@, is_first),
{
    let chars = chars_of(line);
    let mut start: usize = 0;
    assert(chars@.skip(0) =~= line@);
    if is_first {
        while start < chars.len() && chars[start] == '\u{feff}'
            invariant
                start <= chars@.len(),
                chars@ == line@,
                without_marks(line@) == without_marks(chars@.skip(start as int)),
            decreases chars@.len() - start,
        {
            assert(chars@.skip(start as int).drop_first() =~= chars@.skip(start as int + 1));
            start += 1;
        }
    }
    assert(chars@.subrange(start as int, chars@.len() as int) =~= chars@.skip(start as int));
    let command = trim(text_between(&chars, start, chars.len()).as_str());
    if chars_of(command.as_str()).len() == 0 || starts_with(command.as_str(), "--") {
        None
    } else {
        Some(command)
    }
}

// ---------------------------------------------------------------------------
// The end of a run
// ---------------------------------------------------------------------------

/// The text with `\r\n` as `\n`.
pub open spec fn unix_lines(text: Seq<char>) -> Seq<char>
    decreases text.len(),
{
    if text.len() == 0 {
        text
    } else if text.last() == '\r' {
        unix_lines(text.drop_last()).push('\r')
    } else if text.last() == '\n' && text.len() > 1 && text[text.len() - 2] == '\r' {
        unix_lines(text.take(text.len() - 2)).push('\n')
    } else {
        unix_lines(text.drop_last()).push(text.last())
    }
}

/// Puts `\n` for `\r\n`.
fn to_unix_lines(text: &str) -> (r: String)
    ensures
        r@ == unix_lines(text@),
{
    let chars = chars_of(text);
    let mut out = String::new();
    let mut i: usize = 0;
    assert(chars@.take(0) =~= Seq::<char>::empty());
    while i < chars.len()
        invariant
            i <= chars@.len(),
            i > 0 && i < chars@.len() && chars@[i as int] == '\n' ==> chars@[i as int - 1] != '\r',
            out@ == unix_lines(chars@.take(i as int)),
        decreases chars@.len() - i,
    {
        let ghost next = chars@.take(i as int + 1);
        assert(next.drop_last() =~= chars@.take(i as int));
        assert(next.last() == chars@[i as int]);
        if i + 1 < chars.len() && chars[i] == '\r' && chars[i + 1] == '\n' {
            let ghost both = chars@.take(i as int + 2);
            assert(both.take(both.len() - 2) =~= chars@.take(i as int));
            assert(both.last() == '\n' && both[both.len() - 2] == '\r');
            out.push('\n');
            i += 2;
        } else {
            if i > 0 {
                assert(next[next.len() - 2] == chars@[i as int - 1]);
            }
            out.push(chars[i]);
            i += 1;
        }
    }
    assert(chars@.take(i as int) =~= chars@);
    out
}

/// What came of the file with which the output of a run is compared.
pub enum Golden {
    /// There is none.
    Absent,
    /// It was written anew.
    Blessed,
    /// It could not be written.
    NotBlessed(String),
    /// It could not be read.
    Unreadable(String),
    /// It holds this.
    Expected(String),
}

/// What came of the file, with text as characters.
pub enum GoldenModel {
    Absent,
    Blessed,
    NotBlessed(Seq<char>),
    Unreadable(Seq<char>),
    Expected(Seq<char>),
}

impl View for Golden {
    type V = GoldenModel;

    open spec fn view(&self) -> GoldenModel {
        match self {
            Golden::Absent => GoldenModel::Absent,
            Golden::Blessed => GoldenModel::Blessed,
            Golden::NotBlessed(e) => GoldenModel::NotBlessed(e@),
            Golden::Unreadable(e) => GoldenModel::Unreadable(e@),
            Golden::Expected(text) => GoldenModel::Expected(text@),
        }
    }
}

/// What is told of a run at its end, and whether it was a success: its commands
/// were, and its output is what was expected.
pub open spec fn judged(
    golden: GoldenModel,
    path: Seq<char>,
    actual: Seq<char>,
    script_ok: bool,
) -> (Seq<char>, bool) {
    match golden {
        GoldenModel::Absent => if script_ok {
            (Seq::empty(), true)
        } else {
            ("One or more commands failed.\n"@, false)
        },
        GoldenModel::Blessed => ("Blessed golden file '"@ + path + "'.\n"@, true),
        GoldenModel::NotBlessed(e) => (
            "Could not write golden file '"@ + path + "': "@ + e + "\n"@,
            false,
        ),
        GoldenModel::Unreadable(e) => (
            "Could not read golden file '"@ + path + "': "@ + e + "\n"@,
            false,
        ),
        GoldenModel::Expected(text) => if unix_lines(text) == actual {
            ("Golden match: "@ + path + "\n"@, script_ok)
        } else {
            (
                "Golden MISMATCH: "@ + path + "\n--- expected (golden) ---\n"@ + unix_lines(text)
                    + "--- actual ---\n"@ + actual,
                false,
            )
        },
    }
}

/// Judges a run by its output. Returns what is told of it, and whether it was a
/// success.
pub fn judge_batch(golden: &Golden, path: &str, actual: &str, script_ok: bool) -> (r: (String, bool))
    ensures
        (r.0@, r.1) == judged(golden@, path@, actual@, script_ok),
{
    match golden {
        Golden::Absent => if script_ok {
            (String::new(), true)
        } else {
            ("One or more commands failed.\n".to_string(), false)
        },
        Golden::Blessed => (cat3("Blessed golden file '", path, "'.\n"), true),
        Golden::NotBlessed(e) => (
            cat5("Could not write golden file '", path, "': ", e.as_str(), "\n"),
            false,
        ),
        Golden::Unreadable(e) => (
            cat5("Could not read golden file '", path, "': ", e.as_str(), "\n"),
            false,
        ),
        Golden::Expected(text) => {
            let expected = to_unix_lines(text.as_str());
            if same(expected.as_str(), actual) {
                (cat3("Golden match: ", path, "\n"), script_ok)
            } else {
                let head = cat3("Golden MISMATCH: ", path, "\n--- expected (golden) ---\n");
                (cat4(head.as_str(), expected.as_str(), "--- actual ---\n", actual), false)
            }
        },
    }
}

// ---------------------------------------------------------------------------
// Laws
// ---------------------------------------------------------------------------

/// A text with a carriage return in front of every line end.
pub open spec fn with_returns(text: Seq<char>) -> Seq<char>
    decreases text.len(),
{
    if text.len() == 0 {
        text
    } else if text.last() == '\n' {
        with_returns(text.drop_last()).push('\r').push('\n')
    } else {
        with_returns(text.drop_last()).push(text.last())
    }
}

/// A text without carriage returns is what it is compared as, with them in front of its
/// line ends or without.
proof fn returns_are_left_out(text: Seq<char>)
    requires
        !text.contains('\r'),
    ensures
        unix_lines(text) == text,
        unix_lines(with_returns(text)) == text,
        with_returns(text).len() > 0 ==> with_returns(text).last() != '\r',
    decreases text.len(),
{
    if text.len() > 0 {
        let rest = text.drop_last();
        assert(text[text.len() - 1] != '\r');
        assert(!rest.contains('\r')) by {
            if rest.contains('\r') {
                let i = choose|i: int| 0 <= i < rest.len() && rest[i] == '\r';
                assert(text[i] == '\r');
            }
        }
        returns_are_left_out(rest);
        assert(rest.push(text.last()) =~= text);
        let all = with_returns(text);
        if text.len() > 1 {
            assert(text[text.len() - 2] != '\r');
        }
        if text.last() == '\n' {
            assert(all.take(all.len() - 2) =~= with_returns(rest));
            assert(all[all.len() - 2] == '\r');
        } else {
            assert(all.drop_last() =~= with_returns(rest));
        }
    }
}

/// Output is as expected whichever way the lines of the file end, and only if every
/// character is the same. A script passes if it ran without an error and its output, if
/// one is expected, is as expected.
pub proof fn line_ends_make_no_difference(
    expected: Seq<char>,
    path: Seq<char>,
    actual: Seq<char>,
    script_ok: bool,
)
    requires
        !expected.contains('\r'),
    ensures
        judged(GoldenModel::Expected(with_returns(expected)), path, actual, script_ok) == judged(
            GoldenModel::Expected(expected),
            path,
            actual,
            script_ok,
        ),
        judged(GoldenModel::Expected(expected), path, actual, script_ok).1 == (script_ok
            && expected == actual),
        judged(GoldenModel::Absent, path, actual, script_ok).1 == script_ok,
{
    returns_are_left_out(expected);
}

/// White space around a command makes no difference, a line of a comment or of white
/// space is none, and neither is a mark at the start of a script.
pub proof fn comments_and_blanks_are_no_commands(
    front: Seq<char>,
    command: Seq<char>,
    back: Seq<char>,
    is_first: bool,
)
    requires
        all_white(front),
        all_white(back),
        is_tight(command),
        command.len() > 0,
        !occurs_at(command, "--"@, 0),
    ensures
        command_in(front + command + back, false) == Some(command),
        command[0] != '\u{feff}' ==> command_in(seq!['\u{feff}'] + command, true) == Some(command),
        command_in("--"@ + command, is_first) is None,
        command_in(front, false) is None,
{
    reveal_strlit("--");
    trimming_takes_white_space_away(front, command, back);
    let none = Seq::<char>::empty();
    trimming_takes_white_space_away(front, none, none);
    assert(front + none + none =~= front);
    let marked = seq!['\u{feff}'] + command;
    assert(marked.drop_first() =~= command);
    assert(without_marks(command) == command || command[0] == '\u{feff}');
    let comment = "--"@ + command;
    assert(comment[0] == '-');
    assert(comment.last() == command.last());
    trimming_takes_white_space_away(none, comment, none);
    assert(comment.subrange(0, 2) =~= "--"@);
}

} // verus!

//! How the installer is called, and how what it prints is shown.

use vstd::prelude::*;

use crate::protocol::Text;
use crate::text::{chars_of, control_char, digit_char, is_control, is_digit};

verus! {

/// The place of the install script.
pub const INSTALLER_URL: &'static str =
    "https://raw.githubusercontent.com/kvc0/tracing-console/main/install.sh";

/// How many bytes of the installer's output are shown, about.
pub const MAX_BYTES: usize = 4096;

/// A version made of digits and points alone, and not too long.
pub open spec fn is_safe_version(v: Text) -> bool {
    &&& 0 < v.len() < 32
    &&& forall|i: int| 0 <= i < v.len() ==> is_digit(#[trigger] v[i]) || v[i] == '.'
}

/// Whether a version is made of digits and points alone, and not too long.
pub fn version_is_safe(v: &str) -> (r: bool)
    ensures
        r == is_safe_version(v@),
{
    let chars = chars_of(v);
    if chars.len() == 0 || chars.len() >= 32 {
        return false;
    }
    let mut i: usize = 0;
    while i < chars.len()
        invariant
            chars@ == v@,
            i <= chars@.len(),
            forall|j: int| 0 <= j < i ==> is_digit(#[trigger] v@[j]) || v@[j] == '.',
        decreases chars@.len() - i,
    {
        if !digit_char(chars[i]) && chars[i] != '.' {
            assert(!(is_digit(v@[i as int]) || v@[i as int] == '.'));
            return false;
        }
        i = i + 1;
    }
    true
}

/// The command that fetches and runs the installer for a version, or for the
/// latest. Its exit status tells of a failure on either side of the pipe.
pub open spec fn install_command(version: Option<Text>) -> Text {
    let fetch = "set -o pipefail; curl -fsSL "@ + INSTALLER_URL@ + " | bash"@;
    match version {
        None => fetch,
        Some(v) => fetch + " -s -- "@ + v,
    }
}

pub open spec fn version_model(version: Option<&str>) -> Option<Text> {
    match version {
        Some(v) => Some(v@),
        None => None,
    }
}

/// The command that fetches and runs the installer.
pub fn installer_command(version: Option<&str>) -> (r: String)
    ensures
        r@ == install_command(version_model(version)),
{
    let mut s: String = "set -o pipefail; curl -fsSL ".to_owned();
    s.append(INSTALLER_URL);
    s.append(" | bash");
    if let Some(v) = version {
        s.append(" -s -- ");
        s.append(v);
    }
    s
}

/// The command to run for a version, unless it is not safe.
pub fn installer_plan(version: Option<&str>) -> (r: Option<String>)
    ensures
        match r {
            Some(command) => command@ == install_command(version_model(version)) && (version is Some
                ==> is_safe_version(version->0@)),
            None => version is Some && !is_safe_version(version->0@),
        },
{
    if let Some(v) = version {
        if !version_is_safe(v) {
            return None;
        }
    }
    Some(installer_command(version))
}

/// A character that a shell gives a meaning.
pub open spec fn is_shell_meta(c: char) -> bool {
    ||| c == ' '
    ||| c == '\t'
    ||| c == '\n'
    ||| c == ';'
    ||| c == '&'
    ||| c == '|'
    ||| c == '<'
    ||| c == '>'
    ||| c == '('
    ||| c == ')'
    ||| c == '$'
    ||| c == '`'
    ||| c == '\\'
    ||| c == '"'
    ||| c == '\''
    ||| c == '*'
    ||| c == '?'
    ||| c == '['
    ||| c == ']'
    ||| c == '#'
    ||| c == '~'
    ||| c == '='
    ||| c == '%'
    ||| c == '!'
    ||| c == '{'
    ||| c == '}'
}

/// A safe version holds nothing that a shell gives a meaning.
pub proof fn safe_versions_mean_nothing_to_a_shell(v: Text, i: int)
    requires
        is_safe_version(v),
        0 <= i < v.len(),
    ensures
        !is_shell_meta(v[i]),
{
}

/// How many bytes a character takes.
pub open spec fn byte_len(c: char) -> nat {
    if c <= '\u{7f}' {
        1
    } else if c <= '\u{7ff}' {
        2
    } else if c <= '\u{ffff}' {
        3
    } else {
        4
    }
}

fn bytes_of(c: char) -> (n: usize)
    ensures
        n == byte_len(c),
{
    if c <= '\u{7f}' {
        1
    } else if c <= '\u{7ff}' {
        2
    } else if c <= '\u{ffff}' {
        3
    } else {
        4
    }
}

/// The character ends a control sequence.
pub open spec fn ends_sequence(c: char) -> bool {
    '@' <= c <= '~'
}

/// What follows a control sequence.
pub open spec fn after_sequence(rest: Text) -> Text
    decreases rest.len(),
{
    if rest.len() == 0 {
        rest
    } else if ends_sequence(rest[0]) {
        rest.skip(1)
    } else {
        after_sequence(rest.skip(1))
    }
}

/// What stands for a character: itself, or a blank for a control character
/// other than the end of a line and the tabulator.
pub open spec fn shown_char(c: char) -> char {
    if c == '\n' || c == '\t' {
        c
    } else if is_control(c) {
        ' '
    } else {
        c
    }
}

proof fn after_sequence_is_shorter(rest: Text)
    ensures
        after_sequence(rest).len() <= rest.len(),
    decreases rest.len(),
{
    if rest.len() > 0 && !ends_sequence(rest[0]) {
        after_sequence_is_shorter(rest.skip(1));
    }
}

/// What is shown of a text, where `bytes` bytes are shown before it. Control
/// sequences are left out. Once there is enough, a note ends it.
pub open spec fn shown(rest: Text, bytes: nat) -> Text
    decreases rest.len(), 0nat,
    via shown_shrinks
{
    if rest.len() == 0 {
        Seq::empty()
    } else if bytes >= MAX_BYTES {
        "\n\u{2026}(truncated)"@
    } else if rest[0] == '\u{1b}' {
        if rest.len() > 1 && rest[1] == '[' {
            shown(after_sequence(rest.skip(2)), bytes)
        } else {
            shown(rest.skip(1), bytes)
        }
    } else {
        seq![shown_char(rest[0])] + shown(rest.skip(1), bytes + byte_len(shown_char(rest[0])))
    }
}

#[via_fn]
proof fn shown_shrinks(rest: Text, bytes: nat) {
    if rest.len() > 1 {
        after_sequence_is_shorter(rest.skip(2));
    }
}

/// What is shown of the installer's output.
pub fn sanitize_for_modal(s: &str) -> (r: String)
    ensures
        r@ == shown(s@, 0),
{
    let chars = chars_of(s);
    let n: usize = chars.len();
    let mut out = String::new();
    let mut bytes: usize = 0;
    let mut i: usize = 0;
    assert(chars@.skip(0) =~= chars@);
    assert(out@ + shown(chars@, 0) =~= shown(chars@, 0));
    while i < n
        invariant
            chars@ == s@,
            n == chars@.len(),
            i <= n,
            bytes <= MAX_BYTES + 4,
            out@ + shown(chars@.skip(i as int), bytes as nat) == shown(chars@, 0),
        decreases n - i,
    {
        let ghost rest = chars@.skip(i as int);
        if bytes >= MAX_BYTES {
            out.append("\n\u{2026}(truncated)");
            return out;
        }
        let c: char = chars[i];
        assert(rest.skip(1) =~= chars@.skip(i + 1));
        if c == '\u{1b}' {
            if i + 1 < n && chars[i + 1] == '[' {
                assert(rest[1] == '[');
                assert(rest.skip(2) =~= chars@.skip(i + 2));
                i = skip_sequence(&chars, i + 2);
            } else {
                i = i + 1;
            }
        } else {
            let d: char = if c == '\n' || c == '\t' {
                c
            } else if control_char(c) {
                ' '
            } else {
                c
            };
            let ghost before = out@;
            out.push(d);
            let ghost tail = shown(rest.skip(1), bytes as nat + byte_len(d));
            assert(before + (seq![d] + tail) =~= out@ + tail);
            bytes = bytes + bytes_of(d);
            i = i + 1;
        }
    }
    assert(chars@.skip(i as int).len() == 0);
    assert(out@ + Seq::<char>::empty() =~= out@);
    out
}

/// Where a control sequence is over that goes on at `start`.
fn skip_sequence(chars: &Vec<char>, start: usize) -> (end: usize)
    requires
        start <= chars@.len(),
    ensures
        start <= end <= chars@.len(),
        chars@.skip(end as int) == after_sequence(chars@.skip(start as int)),
{
    let mut i: usize = start;
    while i < chars.len()
        invariant
            start <= i <= chars@.len(),
            after_sequence(chars@.skip(i as int)) == after_sequence(chars@.skip(start as int)),
        decreases chars@.len() - i,
    {
        let c: char = chars[i];
        assert(chars@.skip(i as int).skip(1) =~= chars@.skip(i + 1));
        assert(chars@.skip(i as int)[0] == c);
        if '@' <= c && c <= '~' {
            return i + 1;
        }
        i = i + 1;
    }
    i
}

/// Nothing that is shown can disturb the terminal.
pub proof fn nothing_shown_is_control(rest: Text, bytes: nat, i: int)
    requires
        0 <= i < shown(rest, bytes).len(),
    ensures
        !is_control(shown(rest, bytes)[i]) || shown(rest, bytes)[i] == '\n' || shown(
            rest,
            bytes,
        )[i] == '\t',
    decreases rest.len(),
{
    if rest.len() == 0 {
    } else if bytes >= MAX_BYTES {
        reveal_strlit("\n\u{2026}(truncated)");
    } else if rest[0] == '\u{1b}' {
        if rest.len() > 1 && rest[1] == '[' {
            after_sequence_is_shorter(rest.skip(2));
            nothing_shown_is_control(after_sequence(rest.skip(2)), bytes, i);
        } else {
            nothing_shown_is_control(rest.skip(1), bytes, i);
        }
    } else if i > 0 {
        nothing_shown_is_control(
            rest.skip(1),
            bytes + byte_len(shown_char(rest[0])),
            i - 1,
        );
    }
}

/// How many bytes a text takes.
pub open spec fn text_bytes(s: Text) -> nat
    decreases s.len(),
{
    if s.len() == 0 {
        0
    } else {
        byte_len(s[0]) + text_bytes(s.skip(1))
    }
}

/// However much the installer prints, little more than the limit is shown.
pub proof fn little_is_shown(rest: Text, bytes: nat)
    requires
        bytes <= MAX_BYTES + 3,
    ensures
        bytes + text_bytes(shown(rest, bytes)) <= MAX_BYTES + 3 + text_bytes(
            "\n\u{2026}(truncated)"@,
        ),
    decreases rest.len(),
{
    if rest.len() > 0 && bytes < MAX_BYTES {
        if rest[0] == '\u{1b}' {
            if rest.len() > 1 && rest[1] == '[' {
                after_sequence_is_shorter(rest.skip(2));
                little_is_shown(after_sequence(rest.skip(2)), bytes);
            } else {
                little_is_shown(rest.skip(1), bytes);
            }
        } else {
            let d = shown_char(rest[0]);
            little_is_shown(rest.skip(1), bytes + byte_len(d));
            let tail = shown(rest.skip(1), bytes + byte_len(d));
            assert((seq![d] + tail).skip(1) =~= tail);
        }
    }
}

/// Everything that the installer printed: first what it printed as errors,
/// then, on a line of its own, the rest.
pub open spec fn all_output(stderr: Text, stdout: Text) -> Text {
    if stdout.len() == 0 {
        stderr
    } else if stderr.len() > 0 && stderr.last() != '\n' {
        stderr.push('\n') + stdout
    } else {
        stderr + stdout
    }
}

/// What is shown of everything that the installer printed.
pub fn combined_output(stderr: &str, stdout: &str) -> (r: String)
    ensures
        r@ == shown(all_output(stderr@, stdout@), 0),
{
    let mut combined: String = stderr.to_owned();
    if !stdout.is_empty() {
        let chars = chars_of(stderr);
        let n: usize = chars.len();
        if n > 0 && chars[n - 1] != '\n' {
            combined.push('\n');
        }
        combined.append(stdout);
    }
    sanitize_for_modal(combined.as_str())
}

/// What holds no control characters and is not too long is shown as it is.
pub proof fn plain_text_is_shown_as_it_is(rest: Text, bytes: nat)
    requires
        forall|i: int| 0 <= i < rest.len() ==> !is_control(#[trigger] rest[i]),
        bytes + text_bytes(rest) <= MAX_BYTES,
    ensures
        shown(rest, bytes) == rest,
    decreases rest.len(),
{
    if rest.len() > 0 {
        let tail = rest.skip(1);
        let c = rest[0];
        assert(!is_control(rest[0]));
        assert(c != '\u{1b}');
        assert(shown_char(c) == c);
        assert forall|i: int| 0 <= i < tail.len() implies !is_control(#[trigger] tail[i]) by {
            assert(!is_control(rest[i + 1]));
        }
        plain_text_is_shown_as_it_is(tail, bytes + byte_len(c));
        assert(shown(rest, bytes) =~= rest);
    } else {
        assert(shown(rest, bytes) =~= rest);
    }
}

/// Whatever came before it, a control sequence is left out as a whole: what
/// stands before its end is not shown, and what follows it is.
pub proof fn sequences_are_left_out(inner: Text, end: char, rest: Text, bytes: nat)
    requires
        bytes < MAX_BYTES,
        ends_sequence(end),
        forall|i: int| 0 <= i < inner.len() ==> !ends_sequence(#[trigger] inner[i]),
    ensures
        shown(seq!['\u{1b}', '['] + inner + seq![end] + rest, bytes) == shown(rest, bytes),
{
    let all = seq!['\u{1b}', '['] + inner + seq![end] + rest;
    let body = inner + seq![end] + rest;
    assert(all.skip(2) =~= body);
    sequences_end(inner, end, rest);
}

proof fn sequences_end(inner: Text, end: char, rest: Text)
    requires
        ends_sequence(end),
        forall|i: int| 0 <= i < inner.len() ==> !ends_sequence(#[trigger] inner[i]),
    ensures
        after_sequence(inner + seq![end] + rest) == rest,
    decreases inner.len(),
{
    let body = inner + seq![end] + rest;
    if inner.len() == 0 {
        assert(body[0] == end);
        assert(body.skip(1) =~= rest);
    } else {
        assert(body[0] == inner[0]);
        assert(body.skip(1) =~= inner.skip(1) + seq![end] + rest);
        assert forall|i: int| 0 <= i < inner.skip(1).len() implies !ends_sequence(
            #[trigger] inner.skip(1)[i],
        ) by {
            assert(!ends_sequence(inner[i + 1]));
        }
        sequences_end(inner.skip(1), end, rest);
    }
}

/// What the installer printed as errors comes first, and all else last, each
/// as it was printed; at most the end of a line comes between them.
pub proof fn errors_come_before_the_rest(stderr: Text, stdout: Text)
    ensures
        ({
            let all = all_output(stderr, stdout);
            &&& all.take(stderr.len() as int) == stderr
            &&& all.skip(all.len() - stdout.len()) == stdout
            &&& all.len() <= stderr.len() + stdout.len() + 1
            &&& stdout.len() > 0 && stderr.len() > 0 ==> all[all.len() - stdout.len() - 1] == '\n'
        }),
{
    let all = all_output(stderr, stdout);
    assert(all.take(stderr.len() as int) =~= stderr);
    assert(all.skip(all.len() - stdout.len()) =~= stdout);
}

/// The command runs the installer for the version asked for: the version is
/// its last word. Without a version the command names none.
pub proof fn commands_end_with_the_version(v: Text)
    ensures
        ({
            let (with, without) = (install_command(Some(v)), install_command(None));
            &&& with.skip(with.len() - v.len()) == v
            &&& with.take(without.len() as int) == without
            &&& with.len() == without.len() + 7 + v.len()
        }),
{
    reveal_strlit(" -s -- ");
    let (with, without) = (install_command(Some(v)), install_command(None));
    assert(with.skip(with.len() - v.len()) =~= v);
    assert(with.take(without.len() as int) =~= without);
}

} // verus!

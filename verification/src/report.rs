//! The texts that a process inspection reports: where the process's data is
//! found, what is said about its memory, its command line and its
//! environment, and what is said when reading fails.

use crate::text::{decimal, decimal_nat, push_decimal, push_signed_decimal};
use vstd::prelude::*;

verus! {

/// The path of an entry of a process under `/proc`.
pub open spec fn proc_path_text(pid: int, entry: Seq<char>) -> Seq<char> {
    "/proc/"@ + decimal(pid) + "/"@ + entry
}

/// Builds the path under `/proc` of the given entry (`maps`, `mem`,
/// `cmdline`, `environ`) of process `pid`.
pub fn proc_path(pid: i32, entry: &str) -> (path: String)
    ensures
        path@ == proc_path_text(pid as int, entry@),
{
    let mut path = String::from_str("/proc/");
    push_signed_decimal(&mut path, pid as i64);
    path.append("/");
    path.append(entry);
    path
}

/// The closing line of the memory report.
pub open spec fn access_line(accessible: bool) -> Seq<char> {
    if accessible {
        "\nMemory accessible (root available)\n"@
    } else {
        "\nMemory not accessible (requires root)\n"@
    }
}

/// The memory report: a heading with the process number, the memory map
/// listing as it was read, and a line on whether the memory image itself can
/// be reached.
pub open spec fn memory_report_text(pid: int, maps: Seq<char>, accessible: bool) -> Seq<char> {
    "Memory maps for PID "@ + decimal(pid) + ":\n"@ + maps + access_line(accessible)
}

/// Composes the memory report of process `pid` from its memory map listing
/// and from whether its memory image is accessible.
pub fn memory_report(pid: i32, maps: &str, accessible: bool) -> (report: String)
    ensures
        report@ == memory_report_text(pid as int, maps@, accessible),
{
    let mut report = String::from_str("Memory maps for PID ");
    push_signed_decimal(&mut report, pid as i64);
    report.append(":\n");
    report.append(maps);
    if accessible {
        report.append("\nMemory accessible (root available)\n");
    } else {
        report.append("\nMemory not accessible (requires root)\n");
    }
    report
}

/// What is reported when the memory map listing cannot be read; `cause` is
/// the reason that the system gave.
pub fn maps_failure(cause: &str) -> (message: String)
    ensures
        message@ == "Failed to read maps: "@ + cause@ + " (requires root)"@,
{
    let mut message = String::from_str("Failed to read maps: ");
    message.append(cause);
    message.append(" (requires root)");
    message
}

/// What is reported when the command line cannot be read; `cause` is the
/// reason that the system gave.
pub fn cmdline_failure(cause: &str) -> (message: String)
    ensures
        message@ == "Failed to read cmdline: "@ + cause@,
{
    let mut message = String::from_str("Failed to read cmdline: ");
    message.append(cause);
    message
}

/// The text with a space in the place of each NUL character.
pub open spec fn spaced(text: Seq<char>) -> Seq<char> {
    Seq::new(text.len(), |i: int| if text[i] == '\0' { ' ' } else { text[i] })
}

/// Returns `text` with each NUL character replaced by a space, which turns
/// the NUL-separated arguments of a command line into one readable line.
pub fn space_out(text: &str) -> (line: String)
    ensures
        line@ == spaced(text@),
{
    let mut line = String::new();
    let chars = text.chars();
    for c in it: chars
        invariant
            it.seq() == text@,
            line@ == spaced(text@.take(it.index())),
    {
        if c == '\0' {
            line.push(' ');
        } else {
            line.push(c);
        }
        assert(line@ =~= spaced(text@.take(it.index() + 1)));
    }
    assert(text@.take(text@.len() as int) =~= text@);
    line
}

/// The first position at or after `from` that holds a NUL character; the
/// length of the block when there is none.
pub open spec fn entry_end(block: Seq<char>, from: int) -> int
    decreases block.len() - from,
{
    if 0 <= from < block.len() && block[from] != '\0' {
        entry_end(block, from + 1)
    } else {
        from
    }
}

/// The entries of a NUL-separated block from position `from` on: the
/// stretches between NUL characters, in order, without the empty ones.
pub open spec fn entries_from(block: Seq<char>, from: int) -> Seq<Seq<char>>
    decreases block.len() - from,
{
    if from < 0 || from >= block.len() {
        Seq::empty()
    } else if block[from] == '\0' {
        entries_from(block, from + 1)
    } else {
        let end = entry_end(block, from);
        proof {
            lemma_entry_end_bounds(block, from + 1);
        }
        seq![block.subrange(from, end)] + entries_from(block, end)
    }
}

/// The entries of a NUL-separated block, such as the environment of a
/// process: what a split at each NUL character gives, without the empty
/// pieces.
pub open spec fn nul_separated(block: Seq<char>) -> Seq<Seq<char>> {
    entries_from(block, 0)
}

/// `entry_end` never moves backwards and never leaves the block.
pub proof fn lemma_entry_end_bounds(block: Seq<char>, from: int)
    requires
        0 <= from <= block.len(),
    ensures
        from <= entry_end(block, from) <= block.len(),
    decreases block.len() - from,
{
    if from < block.len() && block[from] != '\0' {
        lemma_entry_end_bounds(block, from + 1);
    }
}

/// A stretch without NUL that stops at `end` has its `entry_end` there.
pub proof fn lemma_entry_end_is(block: Seq<char>, from: int, end: int)
    requires
        0 <= from <= end <= block.len(),
        forall|k: int| from <= k < end ==> #[trigger] block[k] != '\0',
        end == block.len() || block[end] == '\0',
    ensures
        entry_end(block, from) == end,
    decreases end - from,
{
    if from < end {
        lemma_entry_end_is(block, from + 1, end);
    }
}

/// Splits a NUL-separated block into its entries, in order, leaving out the
/// empty ones.
pub fn environment_entries(block: &str) -> (entries: Vec<String>)
    ensures
        entries.deep_view() == nul_separated(block@),
        forall|i: int|
            0 <= i < entries.len() ==> (#[trigger] entries[i])@.len() > 0 && !entries[i]@.contains(
                '\0',
            ),
{
    let mut entries: Vec<String> = Vec::new();
    let mut current = String::new();
    let mut pending = false;
    let ghost mut start: int = 0;
    let chars = block.chars();
    for c in it: chars
        invariant
            it.seq() == block@,
            0 <= start <= it.index(),
            pending == (start < it.index()),
            current@ == block@.subrange(start, it.index()),
            forall|k: int| start <= k < it.index() ==> #[trigger] block@[k] != '\0',
            entries.deep_view() + entries_from(block@, start) == nul_separated(block@),
            forall|i: int|
                0 <= i < entries.len() ==> (#[trigger] entries[i])@.len() > 0
                    && !entries[i]@.contains('\0'),
    {
        let ghost at = it.index();
        if c != '\0' {
            current.push(c);
            pending = true;
            assert(current@ =~= block@.subrange(start, at + 1));
        } else {
            proof {
                if pending {
                    lemma_entry_end_is(block@, start, at);
                }
                assert(entries_from(block@, at) == entries_from(block@, at + 1));
            }
            if pending {
                let ghost before = entries.deep_view();
                entries.push(current);
                proof {
                    let rest = entries_from(block@, at + 1);
                    assert(entries.deep_view() =~= before.push(current@));
                    assert(before + (seq![current@] + rest) =~= before.push(current@) + rest);
                }
            }
            current = String::new();
            pending = false;
            proof {
                start = at + 1;
            }
            assert(current@ =~= block@.subrange(start, at + 1));
        }
    }
    proof {
        let end = block@.len() as int;
        if pending {
            lemma_entry_end_is(block@, start, end);
        }
        assert(entries_from(block@, end) =~= Seq::empty());
    }
    if pending {
        let ghost before = entries.deep_view();
        entries.push(current);
        proof {
            assert(entries.deep_view() =~= before.push(current@));
            assert(before + seq![current@] =~= before.push(current@));
        }
    }
    assert(entries.deep_view() + Seq::<Seq<char>>::empty() =~= entries.deep_view());
    entries
}

/// One line for each entry: two spaces, the entry, and a line break.
pub open spec fn entry_lines(entries: Seq<Seq<char>>) -> Seq<char>
    decreases entries.len(),
{
    if entries.len() == 0 {
        Seq::empty()
    } else {
        entry_lines(entries.drop_last()) + "  "@ + entries.last() + "\n"@
    }
}

/// The part of the strings report on the environment: a heading, one line
/// for each entry of the block, and an empty line. When the environment
/// could not be read the part is left out altogether.
pub open spec fn environment_section(environ: Option<Seq<char>>) -> Seq<char> {
    match environ {
        Some(block) => "Environment variables:\n"@ + entry_lines(nul_separated(block)) + "\n"@,
        None => Seq::empty(),
    }
}

/// The first three lines of the strings report, and the empty line behind
/// them: the command line with its arguments separated by spaces, the
/// process number, and the threshold in use.
pub open spec fn strings_heading(pid: int, min_length: nat, cmdline: Seq<char>) -> Seq<char> {
    "Process: "@ + spaced(cmdline) + "\n"@ + "PID: "@ + decimal(pid) + "\n"@
        + "Minimum string length: "@ + decimal_nat(min_length) + "\n\n"@
}

/// The two lines that close the strings report.
pub open spec fn strings_note() -> Seq<char> {
    "Note: Full memory scanning requires root access\n"@
        + "Use Accessibility Service for non-root text extraction\n"@
}

/// The strings report: the heading, the environment if it could be read,
/// and the closing note.
pub open spec fn strings_report_text(
    pid: int,
    min_length: nat,
    cmdline: Seq<char>,
    environ: Option<Seq<char>>,
) -> Seq<char> {
    strings_heading(pid, min_length, cmdline) + environment_section(environ) + strings_note()
}

/// The text of the environment block, where there is one.
pub open spec fn block_view(environ: Option<&str>) -> Option<Seq<char>> {
    match environ {
        Some(block) => Some(block@),
        None => None,
    }
}

/// Composes the strings report of process `pid` from its command line and,
/// where it could be read, its environment block. Both are taken as they
/// were read, with NUL characters between their parts.
pub fn strings_report(
    pid: i32,
    min_length: usize,
    cmdline: &str,
    environ: Option<&str>,
) -> (report: String)
    ensures
        report@ == strings_report_text(
            pid as int,
            min_length as nat,
            cmdline@,
            block_view(environ),
        ),
{
    let mut report = String::from_str("Process: ");
    let line = space_out(cmdline);
    report.append(line.as_str());
    report.append("\n");
    report.append("PID: ");
    push_signed_decimal(&mut report, pid as i64);
    report.append("\n");
    report.append("Minimum string length: ");
    push_decimal(&mut report, min_length as u64);
    report.append("\n\n");
    let ghost heading = report@;
    assert(heading == strings_heading(pid as int, min_length as nat, cmdline@));
    match environ {
        Some(block) => {
            report.append("Environment variables:\n");
            let entries = environment_entries(block);
            let ghost texts = entries.deep_view();
            let mut i: usize = 0;
            while i < entries.len()
                invariant
                    i <= entries.len(),
                    texts == entries.deep_view(),
                    report@ == heading + "Environment variables:\n"@ + entry_lines(
                        texts.take(i as int),
                    ),
                decreases entries.len() - i,
            {
                let ghost before = report@;
                report.append("  ");
                report.append(entries[i].as_str());
                report.append("\n");
                proof {
                    let shown = texts.take(i + 1);
                    assert(shown.drop_last() =~= texts.take(i as int));
                    assert(shown.last() == entries[i as int]@);
                    assert(report@ =~= heading + "Environment variables:\n"@ + entry_lines(shown));
                }
                i = i + 1;
            }
            report.append("\n");
            proof {
                assert(texts.take(entries.len() as int) =~= texts);
                assert(report@ =~= heading + environment_section(Some(block@)));
            }
        },
        None => {
            assert(report@ =~= heading + environment_section(None));
        },
    }
    let ghost body = report@;
    report.append("Note: Full memory scanning requires root access\n");
    report.append("Use Accessibility Service for non-root text extraction\n");
    assert(report@ =~= body + strings_note());
    report
}

/// What is said about root access.
pub open spec fn root_access_text(has_root: bool) -> Seq<char> {
    if has_root {
        "Root access available"@
    } else {
        "Root access not available - native memory extraction will be limited"@
    }
}

/// The message on whether root access is available.
pub fn root_access_message(has_root: bool) -> (message: &'static str)
    ensures
        message@ == root_access_text(has_root),
{
    if has_root {
        "Root access available"
    } else {
        "Root access not available - native memory extraction will be limited"
    }
}

/// What is handed to the caller for the outcome of an inspection: the report
/// itself, or the failure behind the words of `prefix`.
pub open spec fn reply_text(prefix: Seq<char>, outcome: Result<Seq<char>, Seq<char>>) -> Seq<char> {
    match outcome {
        Ok(report) => report,
        Err(failure) => prefix + failure,
    }
}

/// The view of an outcome: the text of the report or of the failure.
pub open spec fn outcome_view(outcome: Result<String, String>) -> Result<Seq<char>, Seq<char>> {
    match outcome {
        Ok(report) => Ok(report@),
        Err(failure) => Err(failure@),
    }
}

/// Turns the outcome of reading a process's memory into the text for the
/// caller: the report as it is, or the failure with its heading.
pub fn memory_reply(outcome: Result<String, String>) -> (reply: String)
    ensures
        reply@ == reply_text("Error reading process memory: "@, outcome_view(outcome)),
{
    match outcome {
        Ok(report) => report,
        Err(failure) => {
            let mut reply = String::from_str("Error reading process memory: ");
            reply.append(failure.as_str());
            reply
        },
    }
}

/// Turns the outcome of extracting a process's strings into the text for the
/// caller: the report as it is, or the failure with its heading.
pub fn strings_reply(outcome: Result<String, String>) -> (reply: String)
    ensures
        reply@ == reply_text("Error extracting strings: "@, outcome_view(outcome)),
{
    match outcome {
        Ok(report) => report,
        Err(failure) => {
            let mut reply = String::from_str("Error extracting strings: ");
            reply.append(failure.as_str());
            reply
        },
    }
}

} // verus!

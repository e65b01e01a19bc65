//! Shell execution: what is run, and what is reported of it.
use crate::json;
use crate::json::{Json, JsonModel, JsonObject};
use crate::text;
use crate::tools;
use crate::tools::{arg_str, OutputModel, ToolOutput};
use vstd::prelude::*;

verus! {

/// Captured output above this is cut in the middle: the head shows what ran, the
/// tail how it ended.
pub const MAX_CAPTURE: usize = 32768;

pub const DESCRIPTION: &'static str =
    "Run a shell command and return its stdout, stderr and exit code. \
Use this for anything the other tools do not cover. Prefer `glob` and `grep` for \
finding files and searching contents.";

pub open spec fn schema_model() -> JsonModel {
    tools::object_schema(
        JsonModel::object().with(
            "command"@,
            tools::property("string"@, "Shell command to run."@),
        ).with(
            "cwd"@,
            tools::property(
                "string"@,
                "Working directory. Defaults to the session directory."@,
            ),
        ),
        seq![JsonModel::Str("command"@)],
    )
}

pub(crate) fn schema() -> (r: Json)
    ensures
        r@ == schema_model(),
{
    let required: Vec<Json> = vec![Json::string("command")];
    assert(json::models(required@) =~= seq![JsonModel::Str("command"@)]);
    tools::make_schema(
        JsonObject::new().with(
            "command",
            tools::make_property("string", "Shell command to run."),
        ).with(
            "cwd",
            tools::make_property(
                "string",
                "Working directory. Defaults to the session directory.",
            ),
        ),
        required,
    )
}

/// A command and the directory to run it in.
#[derive(Debug, PartialEq)]
pub struct Command {
    pub command: String,
    pub cwd: String,
}

/// What the arguments ask to run.
pub fn command(args: &Json, cwd: &str) -> (r: Result<Command, ToolOutput>)
    ensures
        match r {
            Ok(c) => args@.str_at("command"@) == Some(c.command@) && c.cwd@ == tools::dir_arg(
                args@,
                "cwd"@,
                cwd@,
            ),
            Err(e) => args@.str_at("command"@) is None && e@ == tools::missing("command"@),
        },
{
    match arg_str(args, "command") {
        Ok(c) => Ok(
            Command { command: c.to_owned(), cwd: tools::resolve_arg(args, "cwd", cwd) },
        ),
        Err(e) => Err(e),
    }
}

/// What is answered where the command could not be started.
pub fn spawn_failed(reason: &str) -> (r: ToolOutput)
    ensures
        r@ == OutputModel::err("failed to spawn command: "@ + reason@),
{
    let mut out = "failed to spawn command: ".to_owned();
    out.push_str(reason);
    ToolOutput::err(out)
}

/// What is answered where the command ran too long.
pub fn timed_out(secs: u64) -> (r: ToolOutput)
    ensures
        r@ == OutputModel::err(
            "command timed out after "@ + text::decimal(secs as nat) + "s and was killed"@,
        ),
{
    let mut out = "command timed out after ".to_owned();
    let n = text::decimal_of(secs);
    out.push_str(n.as_str());
    out.push_str("s and was killed");
    ToolOutput::err(out)
}

/// What was captured, put together.
pub open spec fn captured(stdout: Seq<char>, stderr: Seq<char>) -> Seq<char> {
    if stderr.len() > 0 {
        if stdout.len() > 0 {
            stdout.push('\n') + "stderr:\n"@ + stderr
        } else {
            "stderr:\n"@ + stderr
        }
    } else if stdout.len() > 0 {
        stdout
    } else {
        "(no output)"@
    }
}

/// What is answered of a command that ended. A failing exit is an error, so that
/// the model does not read it as success; a command ended by a signal has none
/// and counts as -1.
pub open spec fn outcome(code: Option<i32>, stdout: Seq<char>, stderr: Seq<char>) -> OutputModel {
    let n = match code {
        Some(c) => c as int,
        None => -1,
    };
    let body = captured(
        truncated_middle(stdout, MAX_CAPTURE as int),
        truncated_middle(stderr, MAX_CAPTURE as int),
    );
    if n == 0 {
        OutputModel::ok(body)
    } else {
        OutputModel::err(body + "\n\nexit code: "@ + text::signed_decimal(n))
    }
}

/// What is answered of a command that ended with `code` and wrote these bytes.
pub fn finished(code: Option<i32>, stdout: &[u8], stderr: &[u8]) -> (r: ToolOutput)
    ensures
        r@ == outcome(code, text::utf8_lossy(stdout@), text::utf8_lossy(stderr@)),
{
    let out = text::lossy(stdout);
    let err = text::lossy(stderr);
    report(code, out.as_str(), err.as_str())
}

/// What is answered of a command that ended with `code` and wrote this.
pub fn report(code: Option<i32>, stdout: &str, stderr: &str) -> (r: ToolOutput)
    ensures
        r@ == outcome(code, stdout@, stderr@),
{
    let n: i32 = match code {
        Some(c) => c,
        None => -1,
    };
    let out = truncate_middle(stdout, MAX_CAPTURE);
    let err = truncate_middle(stderr, MAX_CAPTURE);
    let mut body;
    if !err.as_str().is_empty() {
        if !out.as_str().is_empty() {
            body = out;
            body.push('\n');
            body.push_str("stderr:\n");
        } else {
            body = "stderr:\n".to_owned();
        }
        body.push_str(err.as_str());
    } else if !out.as_str().is_empty() {
        body = out;
    } else {
        body = "(no output)".to_owned();
    }
    if n == 0 {
        return ToolOutput::ok(body);
    }
    body.push_str("\n\nexit code: ");
    let d = text::signed_decimal_of(n as i64);
    body.push_str(d.as_str());
    ToolOutput::err(body)
}

/// As much of the head of `s` as fits half of `max` bytes.
pub open spec fn head_of(s: Seq<char>, max: int) -> Seq<char> {
    s.take(text::fitting(s, max / 2))
}

/// As much of the tail of `s` as fits half of `max` bytes.
pub open spec fn tail_of(s: Seq<char>, max: int) -> Seq<char> {
    s.skip(s.len() - text::fitting_back(s, max / 2))
}

/// How many bytes of `s` are in neither its head nor its tail.
pub open spec fn omitted_bytes(s: Seq<char>, max: int) -> nat {
    (text::byte_len(s) - text::byte_len(head_of(s, max)) - text::byte_len(tail_of(s, max))) as nat
}

/// `s` where it takes at most `max` bytes; else its head and its tail, and between
/// them how many bytes are left out.
pub open spec fn truncated_middle(s: Seq<char>, max: int) -> Seq<char> {
    if text::byte_len(s) <= max {
        s
    } else {
        head_of(s, max) + "\n\n... ["@ + text::decimal(omitted_bytes(s, max))
            + " bytes omitted] ...\n\n"@ + tail_of(s, max)
    }
}

/// What is cut out of a long text is its middle: the head and the tail that are
/// kept take `max` bytes at most, and what is left out between them takes as many
/// bytes as are said to be omitted.
pub proof fn law_only_the_middle_is_left_out(s: Seq<char>, max: int)
    requires
        0 <= max < text::byte_len(s),
    ensures
        text::byte_len(head_of(s, max)) + text::byte_len(tail_of(s, max)) <= max,
        exists|middle: Seq<char>|
            {
                &&& s == #[trigger] (head_of(s, max) + middle) + tail_of(s, max)
                &&& text::byte_len(middle) == omitted_bytes(s, max)
            },
{
    let a = text::fitting(s, max / 2);
    let b = text::fitting_back(s, max / 2);
    text::law_fitting_is_longest(s, max / 2);
    text::law_fitting_back_is_longest(s, max / 2);
    let head = head_of(s, max);
    let tail = tail_of(s, max);
    if a + b > s.len() {
        let c = s.len() - b;
        assert(head =~= s.take(c) + s.subrange(c, a));
        assert(s =~= s.take(c) + tail);
        text::lemma_byte_len_concat(s.take(c), s.subrange(c, a));
        text::lemma_byte_len_concat(s.take(c), tail);
    }
    let middle = s.subrange(a, s.len() - b);
    assert(s =~= (head + middle) + tail);
    text::lemma_byte_len_concat(head, middle);
    text::lemma_byte_len_concat(head + middle, tail);
}

/// Keeps the head and the tail, drops the middle, and says how much was dropped.
pub fn truncate_middle(s: &str, max: usize) -> (r: String)
    ensures
        r@ == truncated_middle(s@, max as int),
{
    let len = text::byte_count(s);
    if len <= max {
        return s.to_owned();
    }
    let half = max / 2;
    let cs = text::chars_of(s);
    let a = text::count_fitting(cs.as_slice(), half);
    let b = text::count_fitting_back(cs.as_slice(), half);
    let mut out = text::slice_of(cs.as_slice(), 0, a);
    let tail = text::slice_of(cs.as_slice(), cs.len() - b, cs.len());
    assert(out@ =~= head_of(s@, max as int));
    assert(tail@ =~= tail_of(s@, max as int));
    proof {
        text::law_fitting_is_longest(s@, half as int);
        text::law_fitting_back_is_longest(s@, half as int);
    }
    let omitted = len - text::byte_count(out.as_str()) - text::byte_count(tail.as_str());
    out.push_str("\n\n... [");
    let n = text::decimal_of(omitted as u64);
    out.push_str(n.as_str());
    out.push_str(" bytes omitted] ...\n\n");
    out.push_str(tail.as_str());
    out
}

/// What a command wrote is reported: all of it where it is short enough, first what went
/// to its output and behind it what went to its errors. It failed exactly where it did
/// not exit with zero, and the exit code is then told last.
pub proof fn law_output_is_reported(code: Option<i32>, stdout: Seq<char>, stderr: Seq<char>)
    requires
        text::byte_len(stdout) <= MAX_CAPTURE,
        text::byte_len(stderr) <= MAX_CAPTURE,
    ensures
        ({
            let r = outcome(code, stdout, stderr);
            let apart = if stdout.len() > 0 {
                "\n"@
            } else {
                Seq::<char>::empty()
            };
            let told = if code == Some(0i32) {
                Seq::<char>::empty()
            } else {
                "\n\nexit code: "@ + text::signed_decimal(
                    match code {
                        Some(c) => c as int,
                        None => -1,
                    },
                )
            };
            &&& r.is_error <==> code != Some(0i32)
            &&& stderr.len() > 0 ==> r.content == stdout + apart + "stderr:\n"@ + stderr + told
            &&& stderr.len() == 0 && stdout.len() > 0 ==> r.content == stdout + told
            &&& stderr.len() == 0 && stdout.len() == 0 ==> r.content == "(no output)"@ + told
        }),
{
    reveal_strlit("\n");
    let r = outcome(code, stdout, stderr);
    let none = Seq::<char>::empty();
    assert(stdout.push('\n') =~= stdout + "\n"@);
    assert(stdout.len() == 0 ==> stdout + none =~= none);
    assert(none + "stderr:\n"@ =~= "stderr:\n"@);
    assert(stdout + none =~= stdout);
    assert("(no output)"@ + none =~= "(no output)"@);
    if stderr.len() > 0 && code == Some(0i32) {
        let apart = if stdout.len() > 0 {
            "\n"@
        } else {
            none
        };
        assert(stdout + apart + "stderr:\n"@ + stderr + none =~= r.content);
    }
    if stderr.len() > 0 && code != Some(0i32) {
        let said = "\n\nexit code: "@;
        let n = match code {
            Some(c) => c as int,
            None => -1,
        };
        let body = captured(stdout, stderr);
        assert(body + said + text::signed_decimal(n) =~= body + (said + text::signed_decimal(n)));
    }
    if stderr.len() == 0 && code != Some(0i32) {
        let said = "\n\nexit code: "@;
        let n = match code {
            Some(c) => c as int,
            None => -1,
        };
        let body = captured(stdout, stderr);
        assert(body + said + text::signed_decimal(n) =~= body + (said + text::signed_decimal(n)));
    }
}

/// Of what is too long, as much is kept at either end as half the room holds: one
/// character more at the end of the one or at the beginning of the other would not fit.
/// Between them stands how many bytes were left out.
pub proof fn law_both_ends_are_kept(s: Seq<char>, max: int)
    requires
        0 <= max < text::byte_len(s),
    ensures
        ({
            let h = head_of(s, max);
            let t = tail_of(s, max);
            &&& h == s.take(h.len() as int)
            &&& t == s.skip(s.len() - t.len())
            &&& text::byte_len(h) <= max / 2
            &&& text::byte_len(t) <= max / 2
            &&& h.len() < s.len() && text::byte_len(s.take(h.len() as int + 1)) > max / 2
            &&& t.len() < s.len() && text::byte_len(s.skip(s.len() - t.len() - 1)) > max / 2
            &&& truncated_middle(s, max) == h + "\n\n... ["@ + text::decimal(
                (text::byte_len(s) - text::byte_len(h) - text::byte_len(t)) as nat,
            ) + " bytes omitted] ...\n\n"@ + t
        }),
{
    text::law_fitting_is_longest(s, max / 2);
    text::law_fitting_back_is_longest(s, max / 2);
    let h = head_of(s, max);
    let t = tail_of(s, max);
    assert(h =~= s.take(h.len() as int));
    assert(t =~= s.skip(s.len() - t.len()));
    if h.len() == s.len() {
        assert(h =~= s);
    }
    if t.len() == s.len() {
        assert(t =~= s);
    }
}

} // verus!

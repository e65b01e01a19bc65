use rustclaw::json::{parse, Json};
use rustclaw::tools::edit;
use rustclaw::tools::exec;
use rustclaw::tools::exec::truncate_middle;
use rustclaw::tools::fetch;
use rustclaw::tools::fetch::{collapse_whitespace, strip_html};
use rustclaw::tools::fs;
use rustclaw::tools::fs::DirEntry;
use rustclaw::tools::search;
use rustclaw::tools::search::{GlobSearch, GrepSearch};
use rustclaw::tools::{arg_str, cannot, find, resolve, schemas, tools, unknown, ToolKind, ToolOutput};

fn json(s: &str) -> Json {
    parse(s).unwrap()
}

// --- the registry

#[test]
fn every_tool_advertises_an_object_schema_with_required_fields() {
    for t in tools() {
        let s = t.schema();
        assert_eq!(s.str_at("type"), Some("object"), "{} must be an object schema", t.name);
        assert!(s.get("properties").is_some(), "{} has no properties", t.name);
        assert!(!t.description.is_empty(), "{} has no description", t.name);
    }
}

#[test]
fn tool_names_are_unique_and_findable() {
    let mut names: Vec<_> = tools().iter().map(|t| t.name).collect();
    let count = names.len();
    names.sort_unstable();
    names.dedup();
    assert_eq!(names.len(), count, "duplicate tool name");
    assert!(find("exec").is_some());
    assert!(find("nope").is_none());
}

#[test]
fn tools_are_listed_in_their_order() {
    let names: Vec<_> = tools().iter().map(|t| t.name).collect();
    assert_eq!(names, ["exec", "read", "write", "edit", "ls", "glob", "grep", "web_fetch"]);
    assert_eq!(find("grep").unwrap().kind, ToolKind::Grep);
    let all = schemas();
    assert_eq!(all.len(), 8);
    assert_eq!(
        all[3].input_schema.get("required"),
        Some(&json(r#"["path","old","new"]"#))
    );
    assert_eq!(all[4].input_schema.get("required"), None);
    assert_eq!(
        all[0].input_schema,
        json(
            r#"{"type":"object","properties":{
                "command":{"type":"string","description":"Shell command to run."},
                "cwd":{"type":"string","description":"Working directory. Defaults to the session directory."}},
                "required":["command"]}"#
        )
    );
}

#[test]
fn an_unknown_tool_names_the_known_ones() {
    let out = unknown("teleport");
    assert!(out.is_error);
    assert_eq!(
        out.content,
        "unknown tool `teleport`; available: exec, read, write, edit, ls, glob, grep, web_fetch"
    );
}

#[test]
fn arguments_and_paths_are_resolved() {
    let args = json(r#"{"path":"x","n":1}"#);
    assert_eq!(arg_str(&args, "path"), Ok("x"));
    let missing = arg_str(&args, "n").unwrap_err();
    assert_eq!(missing.content, "missing required string argument `n`");
    assert!(missing.is_error);
    assert_eq!(resolve("/w", "a/b"), "/w/a/b");
    assert_eq!(resolve("/w/", "a"), "/w/a");
    assert_eq!(resolve("/w", "/a"), "/a");
    assert_eq!(cannot("read", "/a", "denied").content, "cannot read /a: denied");
    assert_eq!(ToolOutput::ok("x".into()), ToolOutput { content: "x".into(), is_error: false });
}

// --- exec

#[test]
fn truncation_keeps_both_ends_and_respects_char_boundaries() {
    let s = "á".repeat(10_000);
    let out = truncate_middle(&s, 1000);
    assert!(out.starts_with('á'));
    assert!(out.ends_with('á'));
    assert!(out.contains("bytes omitted"));
    // The real test: slicing a multi-byte string must not panic, and the
    // result must still be valid UTF-8.
    assert!(out.is_char_boundary(0));
}

#[test]
fn short_output_is_returned_untouched() {
    assert_eq!(truncate_middle("hello", 1000), "hello");
}

#[test]
fn the_omitted_bytes_are_counted() {
    assert_eq!(truncate_middle("abcdefghij", 4), "ab\n\n... [6 bytes omitted] ...\n\nij");
    assert_eq!(truncate_middle("aáááá", 4), "a\n\n... [6 bytes omitted] ...\n\ná");
    assert_eq!(truncate_middle("ab", 1), "\n\n... [2 bytes omitted] ...\n\n");
}

#[test]
fn reports_stdout_and_success() {
    let out = exec::finished(Some(0), b"hola\n", b"");
    assert!(!out.is_error);
    assert!(out.content.contains("hola"));
}

#[test]
fn a_non_zero_exit_is_flagged_as_an_error_with_its_code() {
    let out = exec::finished(Some(3), b"", b"oops\n");
    assert!(out.is_error, "non-zero exit must not read as success");
    assert!(out.content.contains("exit code: 3"));
    assert!(out.content.contains("oops"));
    assert_eq!(out.content, "stderr:\noops\n\n\nexit code: 3");
}

#[test]
fn a_hanging_command_is_killed_at_the_timeout() {
    let out = exec::timed_out(120);
    assert!(out.is_error);
    assert!(out.content.contains("timed out"));
    assert_eq!(out.content, "command timed out after 120s and was killed");
}

#[test]
fn missing_command_argument_is_reported_not_panicked() {
    let out = exec::command(&json("{}"), "/w").unwrap_err();
    assert!(out.is_error);
    assert!(out.content.contains("command"));
}

#[test]
fn a_command_runs_where_it_is_told_to() {
    let c = exec::command(&json(r#"{"command":"ls","cwd":"sub"}"#), "/w").unwrap();
    assert_eq!((c.command.as_str(), c.cwd.as_str()), ("ls", "/w/sub"));
    let c = exec::command(&json(r#"{"command":"ls"}"#), "/w").unwrap();
    assert_eq!(c.cwd, "/w");
    assert_eq!(exec::spawn_failed("x").content, "failed to spawn command: x");
}

#[test]
fn silence_and_signals_are_reported() {
    assert_eq!(exec::finished(Some(0), b"", b"").content, "(no output)");
    let killed = exec::finished(None, b"a", b"b");
    assert!(killed.is_error);
    assert_eq!(killed.content, "a\nstderr:\nb\n\nexit code: -1");
    assert_eq!(exec::finished(Some(0), &[255], b"").content, "\u{fffd}");
}

// --- edit

fn edit_in(body: &str, args: &str) -> Result<(String, usize), ToolOutput> {
    let q = edit::request(&json(args), "/w")?;
    edit::apply(&q, body)
}

#[test]
fn replaces_a_unique_string() {
    let out = edit_in("alpha beta gamma", r#"{"path":"f.txt","old":"beta","new":"DELTA"}"#);
    assert_eq!(out, Ok(("alpha DELTA gamma".to_string(), 1)));
    assert_eq!(edit::replaced("/w/f.txt", 1).content, "replaced 1 occurrence in /w/f.txt");
}

#[test]
fn refuses_an_ambiguous_edit_and_leaves_the_file_untouched() {
    let out = edit_in("x\nx\n", r#"{"path":"f.txt","old":"x","new":"y"}"#).unwrap_err();
    assert!(out.is_error);
    assert!(out.content.contains("appears 2 times"));
}

#[test]
fn replace_all_overrides_the_uniqueness_check() {
    let args = r#"{"path":"f.txt","old":"x","new":"y","replace_all":true}"#;
    assert_eq!(edit_in("x\nx\n", args), Ok(("y\ny\n".to_string(), 2)));
    assert_eq!(edit::replaced("/w/f.txt", 2).content, "replaced 2 occurrences in /w/f.txt");
}

#[test]
fn a_missing_target_string_explains_how_to_fix_it() {
    let out = edit_in("hello", r#"{"path":"f.txt","old":"nope","new":"y"}"#).unwrap_err();
    assert!(out.is_error);
    assert!(out.content.contains("not found"));
    assert_eq!(
        out.content,
        "`old` was not found in /w/f.txt. Read the file and copy the text exactly, including indentation."
    );
}

#[test]
fn a_no_op_edit_is_rejected() {
    let out = edit_in("hello", r#"{"path":"f.txt","old":"a","new":"a"}"#).unwrap_err();
    assert!(out.is_error);
    assert_eq!(out.content, "`old` and `new` are identical; nothing to do");
}

#[test]
fn overlapping_places_make_an_edit_ambiguous() {
    let out = edit_in("aaa", r#"{"path":"f.txt","old":"aa","new":"b"}"#).unwrap_err();
    assert!(out.is_error);
    assert!(out.content.contains("appears 2 times"), "{}", out.content);
    let out = edit_in("xaaaaax", r#"{"path":"f.txt","old":"aa","new":"b"}"#).unwrap_err();
    assert!(out.content.contains("appears 2 times"), "{}", out.content);
    let all = r#"{"path":"f.txt","old":"aa","new":"b","replace_all":true}"#;
    assert_eq!(edit_in("aaa", all), Ok(("ba".to_string(), 1)));
    assert_eq!(edit_in("aab", r#"{"path":"f","old":"aa","new":"c"}"#), Ok(("cb".to_string(), 1)));
    // Where the file is empty, the empty text stands at one place only.
    assert_eq!(edit_in("", r#"{"path":"f","old":"","new":"c"}"#), Ok(("c".to_string(), 1)));
    assert!(edit_in("a", r#"{"path":"f","old":"","new":"c"}"#).is_err());
}

#[test]
fn an_edit_needs_all_its_arguments() {
    let out = edit_in("", r#"{"old":"a","new":"b"}"#).unwrap_err();
    assert_eq!(out.content, "missing required string argument `path`");
    let out = edit_in("", r#"{"path":"f","old":"a"}"#).unwrap_err();
    assert_eq!(out.content, "missing required string argument `new`");
}

// --- fetch

#[test]
fn strips_tags_and_keeps_the_prose() {
    let html = "<html><body><h1>Title</h1><p>Hello <b>world</b>.</p></body></html>";
    assert_eq!(strip_html(html), "Title Hello world .");
}

#[test]
fn drops_script_and_style_bodies_entirely() {
    let html = "<p>keep</p><script>var secret = 1;</script><style>.a{color:red}</style><p>also</p>";
    let out = strip_html(html);
    assert!(out.contains("keep"));
    assert!(out.contains("also"));
    assert!(!out.contains("secret"), "script body leaked: {out}");
    assert!(!out.contains("color"), "style body leaked: {out}");
}

#[test]
fn decodes_the_common_entities() {
    assert_eq!(strip_html("<p>a &amp; b &lt;c&gt;</p>"), "a & b <c>");
}

#[test]
fn handles_multibyte_text_without_panicking() {
    let out = strip_html("<p>árbol… 日本語</p>");
    assert!(out.contains("árbol"));
    assert!(out.contains("日本語"));
}

#[test]
fn an_unterminated_tag_does_not_loop_forever() {
    assert_eq!(strip_html("text <unclosed"), "text");
}

#[test]
fn an_unterminated_script_hides_the_rest() {
    assert_eq!(strip_html("a<SCRIPT>b"), "a");
    assert_eq!(strip_html("a\n\n\n<p>b</p>\n"), "a\n\nb");
}

#[test]
fn collapsing_white_space_keeps_the_words_and_is_done_once() {
    let text = "\n\n  uno \t dos\r\n\n \n\u{a0}\n tres\n\ncuatro  \n\n";
    let once = collapse_whitespace(text);
    assert_eq!(once, "uno dos\n\ntres\n\ncuatro");
    assert_eq!(collapse_whitespace(&once), once);
    assert!(once.split_whitespace().eq(text.split_whitespace()));
    assert_eq!(collapse_whitespace(" \n \n"), "");
}

#[test]
fn rejects_a_non_http_scheme() {
    let out = fetch::url(&json(r#"{"url":"file:///etc/passwd"}"#)).unwrap_err();
    assert!(out.is_error);
    assert_eq!(out.content, "url must start with http:// or https://");
    assert_eq!(fetch::url(&json(r#"{"url":"http://x"}"#)), Ok("http://x".to_string()));
    assert!(fetch::url(&json("{}")).is_err());
}

#[test]
fn a_response_is_stripped_only_where_it_is_html() {
    let ok = fetch::fetched(true, "200 OK", "text/html; charset=utf-8", "<b>x</b>");
    assert_eq!(ok, ToolOutput { content: "x".into(), is_error: false });
    let raw = fetch::fetched(true, "200 OK", "application/json", "<b>");
    assert_eq!(raw.content, "<b>");
    let bad = fetch::fetched(false, "404 Not Found", "text/plain", "gone");
    assert_eq!(bad, ToolOutput { content: "HTTP 404 Not Found\n\ngone".into(), is_error: true });
    assert_eq!(fetch::request_failed("e").content, "request failed: e");
    assert_eq!(fetch::body_failed("e").content, "could not read response body: e");
}

// --- read, write, ls

#[test]
fn write_then_read_round_trips_with_line_numbers() {
    let (path, content) =
        fs::write_request(&json(r#"{"path":"a/b.txt","content":"one\ntwo\n"}"#), "/w").unwrap();
    assert_eq!(path, "/w/a/b.txt");
    assert_eq!(fs::wrote(&path, &content).content, "wrote 8 bytes to /w/a/b.txt");
    let args = json(r#"{"path":"a/b.txt"}"#);
    assert_eq!(fs::read_path(&args, "/w"), Ok(path.clone()));
    let r = fs::read(&args, &path, content.as_bytes());
    assert!(r.content.contains("     1\tone"));
    assert!(r.content.contains("     2\ttwo"));
    assert_eq!(r.content, "     1\tone\n     2\ttwo\n");
}

#[test]
fn read_pages_with_offset_and_limit() {
    let body: String = (1..=100).map(|i| format!("line{i}\n")).collect();
    let r = fs::read(&json(r#"{"path":"big.txt","offset":50,"limit":2}"#), "/w/big.txt", body.as_bytes());
    assert!(r.content.contains("line50"));
    assert!(r.content.contains("line51"));
    assert!(!r.content.contains("line52"));
    assert!(r.content.contains("of 100"));
    assert_eq!(
        r.content,
        "    50\tline50\n    51\tline51\n\n[showing lines 50-51 of 100]"
    );
}

#[test]
fn reading_a_directory_points_at_ls_instead_of_failing_opaquely() {
    let r = fs::refuse_read("/w", true, 0).unwrap();
    assert!(r.is_error);
    assert!(r.content.contains("use `ls`"));
}

#[test]
fn binary_files_are_refused() {
    let r = fs::read(&json(r#"{"path":"bin"}"#), "/w/bin", &[0u8, 1, 2, 0]);
    assert!(r.is_error);
    assert!(r.content.contains("binary"));
}

#[test]
fn ls_marks_directories() {
    let entries = vec![
        DirEntry { name: "sub".into(), is_dir: true },
        DirEntry { name: "f.txt".into(), is_dir: false },
    ];
    let out = fs::ls("/w", &entries);
    assert!(out.content.contains("sub/"));
    assert!(out.content.contains("f.txt"));
    assert_eq!(out.content, "f.txt\nsub/");
    assert_eq!(fs::ls("/w", &vec![]).content, "/w is empty");
    assert_eq!(fs::ls_path(&json("{}"), "/w"), "/w");
    assert_eq!(fs::ls_path(&json(r#"{"path":"x"}"#), "/w"), "/w/x");
}

#[test]
fn missing_file_is_an_error_result_not_a_panic() {
    let r = cannot("read", "/w/nope.txt", "No such file or directory (os error 2)");
    assert!(r.is_error);
    let r = fs::read_path(&json("{}"), "/w").unwrap_err();
    assert!(r.is_error);
}

#[test]
fn reading_past_the_end_says_so() {
    let r = fs::read(&json(r#"{"path":"f","offset":9}"#), "/w/f", b"a\nb\n");
    assert!(!r.is_error);
    assert_eq!(r.content, "no lines at offset 9 (2 lines total)");
    assert_eq!(fs::read(&json("{}"), "/w/f", b"").content, "/w/f is empty");
    let huge = fs::refuse_read("/w/f", false, 1_048_577).unwrap();
    assert_eq!(
        huge.content,
        "/w/f is 1048577 bytes, over the 1048576 byte limit; read it in chunks with \
         `offset`/`limit` or filter it with `grep`"
    );
    assert!(fs::refuse_read("/w/f", false, 1_048_576).is_none());
}

#[test]
fn an_offset_of_zero_is_the_first_line() {
    let r = fs::read(&json(r#"{"offset":0,"limit":1}"#), "/w/f", b"a\nb\n");
    assert_eq!(r.content, "     1\ta\n\n[showing lines 1-1 of 2]");
}

// --- glob and grep

/// The files of a small project, as a walk meets them.
fn walk() -> Vec<(&'static str, &'static str)> {
    let all = vec![
        ("src/main.rs", "fn main() {\n    let needle = 1;\n}\n"),
        ("src/lib.rs", "pub fn helper() {}\n"),
        ("README.md", "needle in the docs\n"),
        ("node_modules/pkg/index.js", "needle\n"),
    ];
    all.into_iter()
        .filter(|(rel, _)| {
            let dirs: Vec<&str> = rel.split('/').collect();
            !dirs[..dirs.len() - 1]
                .iter()
                .enumerate()
                .any(|(i, d)| search::is_skipped(i + 1, true, d))
        })
        .collect()
}

fn glob(args: &str) -> ToolOutput {
    let q = match search::glob_request(&json(args), "/w") {
        Ok(q) => q,
        Err(e) => return e,
    };
    let mut found = GlobSearch::new();
    for (rel, _) in walk() {
        found.visit(&q.set, rel);
    }
    search::glob(&q.pattern, &q.root, &found.finish())
}

fn grep(args: &str) -> ToolOutput {
    let q = match search::grep_request(&json(args), "/w") {
        Ok(q) => q,
        Err(e) => return e,
    };
    let mut hits = GrepSearch::new();
    for (rel, body) in walk() {
        if search::is_wanted(&q.filter, rel) {
            hits.visit(&q.re, rel, body);
        }
    }
    search::grep(&q.pattern, &q.root, &hits.finish())
}

#[test]
fn glob_matches_recursively_and_skips_vendor_dirs() {
    let out = glob(r#"{"pattern":"**/*.rs"}"#);
    assert!(out.content.contains("src/main.rs"));
    assert!(out.content.contains("src/lib.rs"));
    assert_eq!(out.content, "src/lib.rs\nsrc/main.rs");
    let js = glob(r#"{"pattern":"**/*.js"}"#);
    assert!(js.content.contains("no files match"), "node_modules must be skipped: {}", js.content);
    assert_eq!(js.content, "no files match `**/*.js` under /w");
}

#[test]
fn a_bare_extension_glob_works_without_a_double_star_prefix() {
    let out = glob(r#"{"pattern":"*.rs"}"#);
    assert!(out.content.contains("main.rs"), "got: {}", out.content);
}

#[test]
fn grep_reports_file_and_line_and_honours_include() {
    let out = grep(r#"{"pattern":"needle"}"#);
    assert!(out.content.contains("src/main.rs:2:"));
    assert!(out.content.contains("README.md:1:"));
    assert_eq!(
        out.content,
        "src/main.rs:2:     let needle = 1;\nREADME.md:1: needle in the docs"
    );

    let scoped = grep(r#"{"pattern":"needle","include":"*.rs"}"#);
    assert!(scoped.content.contains("main.rs"));
    assert!(!scoped.content.contains("README.md"));
}

#[test]
fn grep_supports_case_insensitive_search() {
    let out = grep(r#"{"pattern":"NEEDLE","ignore_case":true}"#);
    assert!(out.content.contains("main.rs"));
    assert!(grep(r#"{"pattern":"NEEDLE"}"#).content.contains("no matches"));
}

#[test]
fn an_invalid_regex_is_reported_rather_than_panicking() {
    let out = grep(r#"{"pattern":"[unclosed"}"#);
    assert!(out.is_error);
    assert!(out.content.contains("invalid regex"));
    assert!(out.content.starts_with("invalid regex `[unclosed`: "));
}

#[test]
fn no_matches_reads_as_success_not_failure() {
    let out = grep(r#"{"pattern":"zzzznotpresent"}"#);
    assert!(!out.is_error);
    assert!(out.content.contains("no matches"));
    assert_eq!(out.content, "no matches for `zzzznotpresent` under /w");
}

#[test]
fn an_invalid_glob_is_reported() {
    let out = glob(r#"{"pattern":"a{"}"#);
    assert!(out.is_error);
    assert!(out.content.starts_with("invalid glob `a{`: "), "{}", out.content);
    let out = grep(r#"{"pattern":"x","include":"a{"}"#);
    assert!(out.is_error);
    assert!(out.content.starts_with("invalid include glob: "), "{}", out.content);
    assert_eq!(search::invalid("glob", "a", "why").content, "invalid glob `a`: why");
    assert_eq!(search::invalid_include("why").content, "invalid include glob: why");
    assert!(glob("{}").is_error);
    assert!(grep("{}").is_error);
}

#[test]
fn the_search_root_itself_is_never_skipped() {
    assert!(!search::is_skipped(0, true, "target"));
    assert!(search::is_skipped(1, true, "target"));
    assert!(!search::is_skipped(1, false, "target"));
    assert!(!search::is_skipped(1, true, "src"));
}

#[test]
fn results_are_capped() {
    let mut found = GlobSearch::new();
    for i in 0..600 {
        if found.is_full() {
            break;
        }
        found.add(&format!("f{i:03}"), true);
    }
    assert!(found.is_full());
    let all = found.finish();
    assert_eq!(all.len(), 501);
    let out = search::glob("*", "/w", &all);
    assert_eq!(out.content.lines().count(), 502);
    assert!(out.content.ends_with("f499\n\n[first 500 matches; narrow the pattern for more]"));

    let mut hits = GrepSearch::new();
    let lines: Vec<String> = (0..600).map(|i| format!("l{i}")).collect();
    hits.add("f", &lines, &vec![true; 600]);
    let hits = hits.finish();
    assert_eq!(hits.len(), 501);
    assert!(search::grep("l", "/w", &hits)
        .content
        .ends_with("\n\n[first 500 matches; narrow the search for more]"));
}

#[test]
fn a_hit_is_shown_trimmed_and_bounded() {
    let mut hits = GrepSearch::new();
    let long = format!("{}  ", "y".repeat(400));
    hits.add("f", &vec![long, " x \t".to_string()], &vec![true, true]);
    assert_eq!(hits.finish(), vec![format!("f:1: {}", "y".repeat(300)), "f:2:  x".to_string()]);
}

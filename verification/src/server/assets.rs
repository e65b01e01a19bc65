//! The files of the page: their names and types.
use crate::text;
use vstd::prelude::*;

verus! {

pub const JAVASCRIPT: &'static str = "text/javascript; charset=utf-8";

pub const CSS: &'static str = "text/css; charset=utf-8";

/// The type of the page itself.
pub const HTML: &'static str = "text/html; charset=utf-8";

/// The files change only when the program does, so a browser may keep them.
pub const CACHE_CONTROL: &'static str = "public, max-age=3600";

/// The scripts of the page.
pub open spec fn scripts() -> Seq<Seq<char>> {
    seq![
        "app.js"@,
        "vendor/preact.mjs"@,
        "vendor/hooks.mjs"@,
        "vendor/htm.mjs"@,
        "vendor/marked.mjs"@,
        "vendor/hl/core.mjs"@,
        "vendor/hl/rust.mjs"@,
        "vendor/hl/javascript.mjs"@,
        "vendor/hl/typescript.mjs"@,
        "vendor/hl/python.mjs"@,
        "vendor/hl/bash.mjs"@,
        "vendor/hl/json.mjs"@,
        "vendor/hl/xml.mjs"@,
        "vendor/hl/css.mjs"@,
        "vendor/hl/sql.mjs"@,
        "vendor/hl/yaml.mjs"@,
        "vendor/hl/markdown.mjs"@,
        "vendor/hl/ini.mjs"@,
        "vendor/hl/diff.mjs"@,
    ]
}

/// The style sheets of the page.
pub open spec fn sheets() -> Seq<Seq<char>> {
    seq!["styles.css"@, "vendor/hl/theme-light.css"@, "vendor/hl/theme-dark.css"@]
}

fn is_script(path: &str) -> (r: bool)
    ensures
        r == scripts().contains(path@),
{
    let names: [&str; 19] = [
        "app.js",
        "vendor/preact.mjs",
        "vendor/hooks.mjs",
        "vendor/htm.mjs",
        "vendor/marked.mjs",
        "vendor/hl/core.mjs",
        "vendor/hl/rust.mjs",
        "vendor/hl/javascript.mjs",
        "vendor/hl/typescript.mjs",
        "vendor/hl/python.mjs",
        "vendor/hl/bash.mjs",
        "vendor/hl/json.mjs",
        "vendor/hl/xml.mjs",
        "vendor/hl/css.mjs",
        "vendor/hl/sql.mjs",
        "vendor/hl/yaml.mjs",
        "vendor/hl/markdown.mjs",
        "vendor/hl/ini.mjs",
        "vendor/hl/diff.mjs",
    ];
    assert(Seq::new(19, |i: int| names@[i]@) =~= scripts());
    let mut i: usize = 0;
    while i < 19
        invariant
            i <= 19,
            Seq::new(19, |j: int| names@[j]@) == scripts(),
            forall|j: int| 0 <= j < i ==> #[trigger] scripts()[j] != path@,
        decreases 19 - i,
    {
        assert(scripts()[i as int] == names@[i as int]@);
        if text::str_eq(names[i], path) {
            assert(scripts()[i as int] == path@);
            return true;
        }
        i += 1;
    }
    false
}

fn is_sheet(path: &str) -> (r: bool)
    ensures
        r == sheets().contains(path@),
{
    let r = text::str_eq(path, "styles.css") || text::str_eq(path, "vendor/hl/theme-light.css")
        || text::str_eq(path, "vendor/hl/theme-dark.css");
    proof {
        assert(sheets()[0] == "styles.css"@ && sheets()[1] == "vendor/hl/theme-light.css"@
            && sheets()[2] == "vendor/hl/theme-dark.css"@);
    }
    r
}

/// The type of the file at `path`; a path that names none has none, and is answered
/// as not found.
pub fn content_type(path: &str) -> (r: Option<&'static str>)
    ensures
        match r {
            Some(mime) => (scripts().contains(path@) && mime@ == JAVASCRIPT@) || (sheets().contains(
                path@,
            ) && mime@ == CSS@),
            None => !scripts().contains(path@) && !sheets().contains(path@),
        },
{
    if is_script(path) {
        Some(JAVASCRIPT)
    } else if is_sheet(path) {
        Some(CSS)
    } else {
        None
    }
}

} // verus!

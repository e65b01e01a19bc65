//! Paths as text, put together the way Unix reads them.
use crate::text;
use vstd::prelude::*;

verus! {

/// `rel` as seen from `base`: an absolute `rel` stands for itself, any other is
/// appended behind a slash.
pub open spec fn joined(base: Seq<char>, rel: Seq<char>) -> Seq<char> {
    if rel.len() > 0 && rel[0] == '/' {
        rel
    } else if base.len() == 0 || base.last() == '/' {
        base + rel
    } else {
        base.push('/') + rel
    }
}

/// `rel` as seen from `base`.
pub fn join(base: &str, rel: &str) -> (r: String)
    ensures
        r@ == joined(base@, rel@),
{
    let b = text::chars_of(base);
    let p = text::chars_of(rel);
    if p.len() > 0 && p[0] == '/' {
        return rel.to_owned();
    }
    let mut out = base.to_owned();
    if b.len() > 0 && b[b.len() - 1] != '/' {
        out.push('/');
    }
    out.push_str(rel);
    out
}

/// A path that begins at the root stands by itself; any other is found below the base,
/// behind one slash.
pub proof fn law_joined_path_is_below_its_base(base: Seq<char>, rel: Seq<char>)
    ensures
        rel.len() > 0 && rel[0] == '/' ==> joined(base, rel) == rel,
        !(rel.len() > 0 && rel[0] == '/') ==> {
            &&& base.is_prefix_of(joined(base, rel))
            &&& base.len() == 0 || base.last() == '/' ==> joined(base, rel) == base + rel
            &&& base.len() > 0 && base.last() != '/' ==> joined(base, rel) == base + seq!['/']
                + rel
        },
{
    assert(base.push('/') + rel =~= base + seq!['/'] + rel);
}

} // verus!

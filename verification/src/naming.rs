//! What files and engines are called where the user does not say.

use vstd::prelude::*;

verus! {

/// The extension of a container.
pub open spec fn is_container_extension(extension: Option<&str>) -> bool {
    match extension {
        Some(e) => e@ == "mo"@,
        None => false,
    }
}

/// What is appended to the name of a file to name its container.
pub fn container_suffix() -> (s: &'static str)
    ensures
        s@ == ".mo"@,
{
    ".mo"
}

/// How the restored file is named after the file that it was restored from,
/// which has this extension: `None` drops the extension, `Some` keeps the whole
/// name and appends the suffix.
pub fn restored_suffix(extension: Option<&str>) -> (suffix: Option<&'static str>)
    ensures
        suffix is None <==> (extension is Some && extension->0@ == "mo"@),
        is_container_extension(extension) ==> suffix is None,
        !is_container_extension(extension) ==> suffix is Some && suffix->0@ == ".out"@,
{
    match extension {
        Some(e) => {
            proof {
                reveal_strlit("mo");
            }
            if e.unicode_len() == 2 && e.get_char(0) == 'm' && e.get_char(1) == 'o' {
                assert(e@ == "mo"@);
                None
            } else {
                Some(".out")
            }
        },
        None => Some(".out"),
    }
}

/// The name of the engine that compresses.
pub fn engine(ai: bool) -> (s: &'static str)
    ensures
        s@ == (if ai {
            "ai context-mixer"@
        } else {
            "middle-out lz"@
        }),
{
    if ai {
        "ai context-mixer"
    } else {
        "middle-out lz"
    }
}

} // verus!

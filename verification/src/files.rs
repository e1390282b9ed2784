//! File attachment handling: validation of client-supplied filenames and
//! the server-controlled storage location of an attachment.
//!
//! A stored attachment always lives under
//! `<attachment-root>/<slug-of-paste-id>/<sanitized-name>`; the only
//! client-controlled part is the basename, and it is accepted only when
//! it cannot name another directory.

use vstd::prelude::*;
use vstd::string::*;
use crate::error::CoreError;
use crate::pasta::PastaFile;
use crate::text::str_eq;

verus! {

/// A filename is safe when it is non-empty, holds no path separator, and
/// is not a current- or parent-directory reference.
pub open spec fn spec_safe_name(n: Seq<char>) -> bool {
    &&& n.len() > 0
    &&& (forall|i: int| 0 <= i < n.len() ==> n[i] != '/' && n[i] != '\\')
    &&& n != "."@
    &&& n != ".."@
}

/// Accepts a client-supplied filename exactly when it is safe, handing
/// it back unchanged; an unsafe name is a validation error, on which the
/// enclosing creation simply proceeds without the attachment.
pub fn sanitize_filename(name: &str) -> (r: Result<String, CoreError>)
    ensures
        r matches Ok(s) ==> s@ == name@ && spec_safe_name(name@),
        r is Err ==> r == Err::<String, CoreError>(CoreError::Validation)
            && !spec_safe_name(name@),
{
    let n = name.unicode_len();
    if n == 0 {
        return Err(CoreError::Validation);
    }
    let mut i: usize = 0;
    while i < n
        invariant
            n == name@.len(),
            0 <= i <= n,
            forall|k: int| 0 <= k < i ==> name@[k] != '/' && name@[k] != '\\',
        decreases n - i,
    {
        let c = name.get_char(i);
        if c == '/' || c == '\\' {
            return Err(CoreError::Validation);
        }
        i += 1;
    }
    if str_eq(name, ".") || str_eq(name, "..") {
        return Err(CoreError::Validation);
    }
    Ok(name.to_owned())
}

impl PastaFile {
    /// Builds attachment metadata from an unsanitized client filename;
    /// the size is filled in once the bytes are stored.
    pub fn from_unsanitized(name: &str) -> (r: Result<PastaFile, CoreError>)
        ensures
            r matches Ok(f) ==> f.name@ == name@ && spec_safe_name(name@) && f.size == 0,
            r is Err ==> r == Err::<PastaFile, CoreError>(CoreError::Validation)
                && !spec_safe_name(name@),
    {
        match sanitize_filename(name) {
            Ok(s) => Ok(PastaFile { name: s, size: 0 }),
            Err(e) => Err(e),
        }
    }
}

/// The path segments an attachment is stored under, relative to the
/// attachment root: the paste's slug directory, then the sanitized
/// basename. Both are server-controlled values.
pub fn storage_segments(slug: &String, f: &PastaFile) -> (v: Vec<String>)
    ensures
        v@.len() == 2,
        v@[0]@ == slug@,
        v@[1]@ == f.name@,
{
    let mut v: Vec<String> = Vec::new();
    v.push(slug.clone());
    v.push(f.name.clone());
    v
}

/// A safe filename cannot traverse out of its directory: it holds no
/// separator, so it names no nested location, and it is not the parent
/// reference, so joining it to the slug directory stays below the
/// attachment root.
pub proof fn lemma_no_path_traversal(name: Seq<char>)
    requires
        spec_safe_name(name),
    ensures
        name.len() > 0,
        forall|i: int| 0 <= i < name.len() ==> name[i] != '/' && name[i] != '\\',
        name != ".."@,
{
}

} // verus!

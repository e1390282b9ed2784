//! Data model of the paste service: the `Pasta` record, its optional file
//! attachment, and the pure field-parsing rules applied when a submission
//! form is turned into a record.

use vstd::prelude::*;
use crate::text::{str_eq, starts_with_str};

verus! {

/// Content kind of a paste, derived from its body at creation time.
#[derive(Clone, Copy, Debug, PartialEq, Eq, Structural)]
pub enum PastaKind {
    Text,
    Url,
}

/// Metadata of the single optional file attachment a paste may own.
/// `name` is a sanitized basename; `size` is the stored size in bytes.
pub struct PastaFile {
    pub name: String,
    pub size: u64,
}

/// A stored paste record.
///
/// Timestamps are epoch seconds. `expiration == 0` means the paste never
/// expires. `burn_after_reads == 0` disables burn-after-read; a positive
/// value `n` lets the record serve exactly `n` successful reads before it
/// is removed.
pub struct Pasta {
    pub id: u64,
    pub content: String,
    pub file: Option<PastaFile>,
    pub extension: String,
    pub private: bool,
    pub editable: bool,
    pub created: u64,
    pub expiration: u64,
    pub burn_after_reads: u64,
    pub read_count: u64,
    pub last_read: u64,
    pub kind: PastaKind,
}

impl Clone for PastaFile {
    fn clone(&self) -> (r: Self)
        ensures
            r == *self,
    {
        PastaFile { name: self.name.clone(), size: self.size }
    }
}

impl Clone for Pasta {
    fn clone(&self) -> (r: Self)
        ensures
            r == *self,
    {
        let file = match &self.file {
            Some(f) => Some(f.clone()),
            None => None,
        };
        let r = Pasta {
            id: self.id,
            content: self.content.clone(),
            file,
            extension: self.extension.clone(),
            private: self.private,
            editable: self.editable,
            created: self.created,
            expiration: self.expiration,
            burn_after_reads: self.burn_after_reads,
            read_count: self.read_count,
            last_read: self.last_read,
            kind: self.kind,
        };
        proof {
            assert(r.file == self.file);
        }
        r
    }
}

/// Seconds a paste lives under the fallback expiry of one week.
pub const WEEK_SECONDS: u64 = 604800;

/// Expiration timestamp a submission field value stands for: a known
/// offset from `now`, `0` for `never` while eternal pastes are allowed,
/// and the one-week fallback for `never` otherwise and for any unknown
/// value.
pub open spec fn spec_expiration(v: Seq<char>, now: u64, no_eternal: bool) -> int {
    if v == "1min"@ {
        now + 60
    } else if v == "10min"@ {
        now + 600
    } else if v == "1hour"@ {
        now + 3600
    } else if v == "24hour"@ {
        now + 86400
    } else if v == "3days"@ {
        now + 259200
    } else if v == "1week"@ {
        now + 604800
    } else if v == "never"@ {
        if no_eternal {
            now + 604800
        } else {
            0
        }
    } else {
        now + 604800
    }
}

/// Burn-after-read counter a submission field value stands for. A `"1"`
/// becomes two reads, absorbing the redirect-to-view that immediately
/// follows creation; `"0"` and any unknown value disable the mechanism.
pub open spec fn spec_burn_after(v: Seq<char>) -> u64 {
    if v == "1"@ {
        2
    } else if v == "10"@ {
        10
    } else if v == "100"@ {
        100
    } else if v == "1000"@ {
        1000
    } else if v == "10000"@ {
        10000
    } else {
        0
    }
}

/// A body is treated as a URL when it starts with an HTTP scheme.
pub open spec fn spec_is_url(c: Seq<char>) -> bool {
    ||| (c.len() >= "http://"@.len() && c.subrange(0, "http://"@.len() as int) == "http://"@)
    ||| (c.len() >= "https://"@.len() && c.subrange(0, "https://"@.len() as int) == "https://"@)
}

/// Turns the `expiration` form field into an absolute timestamp.
pub fn parse_expiration(value: &str, now: u64, no_eternal: bool) -> (r: u64)
    requires
        now <= u64::MAX - WEEK_SECONDS,
    ensures
        r as int == spec_expiration(value@, now, no_eternal),
{
    if str_eq(value, "1min") {
        now + 60
    } else if str_eq(value, "10min") {
        now + 600
    } else if str_eq(value, "1hour") {
        now + 3600
    } else if str_eq(value, "24hour") {
        now + 86400
    } else if str_eq(value, "3days") {
        now + 259200
    } else if str_eq(value, "1week") {
        now + 604800
    } else if str_eq(value, "never") {
        if no_eternal {
            now + 604800
        } else {
            0
        }
    } else {
        now + 604800
    }
}

/// Turns the `burn_after` form field into a remaining-reads counter.
pub fn parse_burn_after(value: &str) -> (r: u64)
    ensures
        r == spec_burn_after(value@),
{
    if str_eq(value, "1") {
        2
    } else if str_eq(value, "10") {
        10
    } else if str_eq(value, "100") {
        100
    } else if str_eq(value, "1000") {
        1000
    } else if str_eq(value, "10000") {
        10000
    } else {
        0
    }
}

/// Classifies a body as URL or plain text.
pub fn classify_content(content: &str) -> (r: PastaKind)
    ensures
        r == (if spec_is_url(content@) {
            PastaKind::Url
        } else {
            PastaKind::Text
        }),
{
    if starts_with_str(content, "http://") || starts_with_str(content, "https://") {
        PastaKind::Url
    } else {
        PastaKind::Text
    }
}

/// The record a submission starts from before its form fields are
/// applied: a placeholder body, no attachment, eternal, burn disabled.
pub fn default_pasta(now: u64) -> (p: Pasta)
    ensures
        p.id == 0,
        p.content@ == "No Text Content"@,
        p.file is None,
        p.extension@ == ""@,
        !p.private,
        !p.editable,
        p.created == now,
        p.expiration == 0,
        p.burn_after_reads == 0,
        p.read_count == 0,
        p.last_read == now,
        p.kind == PastaKind::Text,
{
    Pasta {
        id: 0,
        content: "No Text Content".to_owned(),
        file: None,
        extension: "".to_owned(),
        private: false,
        editable: false,
        created: now,
        expiration: 0,
        burn_after_reads: 0,
        read_count: 0,
        last_read: now,
        kind: PastaKind::Text,
    }
}

/// Applies one text form field of a submission to the record under
/// construction, mirroring the creation endpoint's dispatch: boolean
/// flags by presence, expiry and burn counters by value, a non-empty
/// `content` replaces the body and reclassifies it, `syntax-highlight`
/// sets the extension. Returns whether the field name was recognized;
/// an unknown field leaves the record unchanged.
pub fn apply_text_field(
    p: &mut Pasta,
    name: &str,
    value: &str,
    now: u64,
    no_eternal: bool,
) -> (known: bool)
    requires
        now <= u64::MAX - WEEK_SECONDS,
    ensures
        known == (name@ == "editable"@ || name@ == "private"@ || name@ == "expiration"@
            || name@ == "burn_after"@ || name@ == "content"@ || name@ == "syntax-highlight"@),
        final(p).id == old(p).id,
        final(p).file == old(p).file,
        final(p).created == old(p).created,
        final(p).read_count == old(p).read_count,
        final(p).last_read == old(p).last_read,
        final(p).editable == (old(p).editable || name@ == "editable"@),
        final(p).private == (old(p).private || name@ == "private"@),
        final(p).expiration as int == (if name@ == "expiration"@ {
            spec_expiration(value@, now, no_eternal)
        } else {
            old(p).expiration as int
        }),
        final(p).burn_after_reads == (if name@ == "burn_after"@ {
            spec_burn_after(value@)
        } else {
            old(p).burn_after_reads
        }),
        (name@ == "content"@ && value@.len() > 0) ==> final(p).content@ == value@,
        !(name@ == "content"@ && value@.len() > 0) ==> final(p).content == old(p).content,
        final(p).kind == (if name@ == "content"@ && value@.len() > 0 {
            if spec_is_url(value@) {
                PastaKind::Url
            } else {
                PastaKind::Text
            }
        } else {
            old(p).kind
        }),
        name@ == "syntax-highlight"@ ==> final(p).extension@ == value@,
        name@ != "syntax-highlight"@ ==> final(p).extension == old(p).extension,
{
    proof {
        reveal_strlit("editable");
        reveal_strlit("private");
        reveal_strlit("expiration");
        reveal_strlit("burn_after");
        reveal_strlit("content");
        reveal_strlit("syntax-highlight");
        assert("editable"@.len() == 8);
        assert("private"@.len() == 7);
        assert("expiration"@[0] == 'e' && "burn_after"@[0] == 'b');
        assert("content"@[0] == 'c' && "private"@[0] == 'p');
    }
    if str_eq(name, "editable") {
        p.editable = true;
        true
    } else if str_eq(name, "private") {
        p.private = true;
        true
    } else if str_eq(name, "expiration") {
        p.expiration = parse_expiration(value, now, no_eternal);
        true
    } else if str_eq(name, "burn_after") {
        p.burn_after_reads = parse_burn_after(value);
        true
    } else if str_eq(name, "content") {
        if !value.is_empty() {
            p.content = value.to_owned();
            p.kind = classify_content(value);
        }
        true
    } else if str_eq(name, "syntax-highlight") {
        p.extension = value.to_owned();
        true
    } else {
        false
    }
}

/// Hands an uploaded attachment to the record; the body kind falls back
/// to plain text, as a record with a file is rendered as text.
pub fn attach_file(p: &mut Pasta, f: PastaFile)
    ensures
        *final(p) == (Pasta { file: Some(f), kind: PastaKind::Text, ..*old(p) }),
{
    p.file = Some(f);
    p.kind = PastaKind::Text;
}

} // verus!

//! Persistence format: the whole record set as one byte string, written
//! on every mutation and reloaded at startup.
//!
//! The format is length-prefixed and binary: a record count, then each
//! record's fixed-width numeric fields, flag bytes, and length-prefixed
//! UTF-8 strings. The contracts state that serializing and then parsing
//! reproduces every field of every record exactly; a malformed input
//! parses to `None`, which a caller treats as fatal at startup.

use vstd::prelude::*;
use vstd::bytes::*;
use vstd::string::*;
use vstd::utf8::*;
use crate::pasta::{Pasta, PastaFile, PastaKind};
use crate::store::{PastaStore, unique_ids};

verus! {

/// Serialized form of one number: eight little-endian bytes.
pub open spec fn ser_u64(x: u64) -> Seq<u8> {
    spec_u64_to_le_bytes(x)
}

/// Serialized form of one flag: a single `0` or `1` byte.
pub open spec fn ser_bool(b: bool) -> Seq<u8> {
    seq![if b { 1u8 } else { 0u8 }]
}

/// Serialized form of a string: byte length, then its UTF-8 bytes.
pub open spec fn ser_string(s: Seq<char>) -> Seq<u8> {
    ser_u64(encode_utf8(s).len() as u64) + encode_utf8(s)
}

/// Serialized form of the optional attachment: a presence byte, then
/// name and size.
pub open spec fn ser_file(f: Option<PastaFile>) -> Seq<u8> {
    match f {
        None => seq![0u8],
        Some(pf) => seq![1u8] + ser_string(pf.name@) + ser_u64(pf.size),
    }
}

/// Serialized form of one record: every field, in a fixed order.
pub open spec fn ser_record(p: Pasta) -> Seq<u8> {
    ser_u64(p.id) + ser_u64(p.created) + ser_u64(p.expiration) + ser_u64(p.burn_after_reads)
        + ser_u64(p.read_count) + ser_u64(p.last_read) + ser_bool(p.private)
        + ser_bool(p.editable) + ser_bool(p.kind == PastaKind::Url)
        + ser_string(p.content@) + ser_string(p.extension@) + ser_file(p.file)
}

/// Serialized forms of a record sequence, concatenated in order.
pub open spec fn ser_records(s: Seq<Pasta>) -> Seq<u8>
    decreases s.len(),
{
    if s.len() == 0 {
        Seq::<u8>::empty()
    } else {
        ser_record(s[0]) + ser_records(s.drop_first())
    }
}

/// Serialized form of the whole store: record count, then the records.
pub open spec fn ser_store(s: Seq<Pasta>) -> Seq<u8> {
    ser_u64(s.len() as u64) + ser_records(s)
}

/// A record whose variable-length fields have representable lengths.
pub open spec fn rec_bounded(p: Pasta) -> bool {
    &&& encode_utf8(p.content@).len() <= u64::MAX
    &&& encode_utf8(p.extension@).len() <= u64::MAX
    &&& (p.file matches Some(f) ==> encode_utf8(f.name@).len() <= u64::MAX)
}

/// A record set the format can represent.
pub open spec fn store_bounded(s: Seq<Pasta>) -> bool {
    &&& s.len() <= u64::MAX
    &&& forall|i: int| 0 <= i < s.len() ==> rec_bounded(#[trigger] s[i])
}

/// Two records agree on every field, strings by their characters.
pub open spec fn rec_eq(a: Pasta, b: Pasta) -> bool {
    &&& a.id == b.id
    &&& a.content@ == b.content@
    &&& (match (a.file, b.file) {
        (None, None) => true,
        (Some(x), Some(y)) => x.name@ == y.name@ && x.size == y.size,
        _ => false,
    })
    &&& a.extension@ == b.extension@
    &&& a.private == b.private
    &&& a.editable == b.editable
    &&& a.created == b.created
    &&& a.expiration == b.expiration
    &&& a.burn_after_reads == b.burn_after_reads
    &&& a.read_count == b.read_count
    &&& a.last_read == b.last_read
    &&& a.kind == b.kind
}

/// Two record sequences agree record for record.
pub open spec fn recs_eq(a: Seq<Pasta>, b: Seq<Pasta>) -> bool {
    &&& a.len() == b.len()
    &&& forall|i: int| 0 <= i < a.len() ==> rec_eq(#[trigger] a[i], b[i])
}

/// `chunk` sits in `bytes` starting at `pos`.
pub open spec fn prefix_at(bytes: Seq<u8>, pos: int, chunk: Seq<u8>) -> bool {
    &&& 0 <= pos
    &&& pos + chunk.len() <= bytes.len()
    &&& bytes.subrange(pos, pos + chunk.len()) == chunk
}

/// Relies on String::from_utf8: it returns the string with exactly the
/// given bytes when they are valid UTF-8, and fails exactly otherwise.
#[verifier::external_body]
fn string_from_utf8(v: Vec<u8>) -> (r: Option<String>)
    ensures
        r matches Some(s) ==> encode_utf8(s@) == v@,
        r is Some <==> valid_utf8(v@),
{
    String::from_utf8(v).ok()
}

/// Appends one number in serialized form.
fn push_u64(out: &mut Vec<u8>, x: u64)
    ensures
        final(out)@ == old(out)@ + ser_u64(x),
{
    let mut b = u64_to_le_bytes(x);
    out.append(&mut b);
}

/// Appends one flag in serialized form.
fn push_bool(out: &mut Vec<u8>, b: bool)
    ensures
        final(out)@ == old(out)@ + ser_bool(b),
{
    out.push(if b {
        1
    } else {
        0
    });
    proof {
        assert(out@ =~= old(out)@ + ser_bool(b));
    }
}

/// Appends one string in serialized form.
fn push_string(out: &mut Vec<u8>, s: &String)
    ensures
        final(out)@ == old(out)@ + ser_string(s@),
        encode_utf8(s@).len() <= u64::MAX,
{
    let bs = s.as_str().as_bytes_vec();
    let n = bs.len() as u64;
    push_u64(out, n);
    let mut b = bs;
    out.append(&mut b);
}

/// Appends one record in serialized form.
#[verifier::rlimit(80)]
fn push_record(out: &mut Vec<u8>, p: &Pasta)
    ensures
        final(out)@ == old(out)@ + ser_record(*p),
        rec_bounded(*p),
{
    push_u64(out, p.id);
    push_u64(out, p.created);
    push_u64(out, p.expiration);
    push_u64(out, p.burn_after_reads);
    push_u64(out, p.read_count);
    push_u64(out, p.last_read);
    push_bool(out, p.private);
    push_bool(out, p.editable);
    push_bool(out, matches!(p.kind, PastaKind::Url));
    push_string(out, &p.content);
    push_string(out, &p.extension);
    match &p.file {
        None => {
            out.push(0);
            proof {
                assert(out@ =~= old(out)@ + ser_record(*p));
            }
        },
        Some(f) => {
            out.push(1);
            push_string(out, &f.name);
            push_u64(out, f.size);
            proof {
                assert(out@ =~= old(out)@ + ser_record(*p));
            }
        },
    }
}

/// Serializes the whole record set. The output is exactly the abstract
/// serialized form of the records, so parsing it restores them.
pub fn serialize_records(records: &Vec<Pasta>) -> (out: Vec<u8>)
    ensures
        out@ == ser_store(records@),
        store_bounded(records@),
{
    let mut out: Vec<u8> = Vec::new();
    push_u64(&mut out, records.len() as u64);
    let mut i: usize = 0;
    while i < records.len()
        invariant
            0 <= i <= records@.len(),
            out@ == ser_u64(records@.len() as u64) + ser_records(records@.take(i as int)),
            forall|k: int| 0 <= k < i ==> rec_bounded(#[trigger] records@[k]),
        decreases records.len() - i,
    {
        push_record(&mut out, &records[i]);
        proof {
            lemma_ser_records_take_succ(records@, i as int);
        }
        i += 1;
    }
    proof {
        assert(records@.take(records@.len() as int) =~= records@);
    }
    out
}

/// Serializes a store's live records.
pub fn serialize_store(store: &PastaStore) -> (out: Vec<u8>)
    ensures
        out@ == ser_store(store@),
        store_bounded(store@),
{
    serialize_records(store.records())
}

/// Copy of the byte range `[a, b)`.
fn copy_range(bytes: &Vec<u8>, a: usize, b: usize) -> (out: Vec<u8>)
    requires
        a <= b <= bytes@.len(),
    ensures
        out@ == bytes@.subrange(a as int, b as int),
{
    let mut out: Vec<u8> = Vec::new();
    let mut i: usize = a;
    while i < b
        invariant
            a <= i <= b <= bytes@.len(),
            out@ == bytes@.subrange(a as int, i as int),
        decreases b - i,
    {
        out.push(bytes[i]);
        i += 1;
        proof {
            assert(out@ =~= bytes@.subrange(a as int, i as int));
        }
    }
    proof {
        assert(out@ =~= bytes@.subrange(a as int, b as int));
    }
    out
}

/// Reads one number; succeeds exactly when eight bytes remain.
fn parse_u64(bytes: &Vec<u8>, pos: usize) -> (r: Option<(u64, usize)>)
    ensures
        r is Some <==> pos + 8 <= bytes@.len(),
        r matches Some(t) ==> t.0 == spec_u64_from_le_bytes(
            bytes@.subrange(pos as int, pos as int + 8),
        ) && t.1 == pos + 8,
{
    if bytes.len() >= 8 && pos <= bytes.len() - 8 {
        let chunk = copy_range(bytes, pos, pos + 8);
        let x = u64_from_le_bytes(chunk.as_slice());
        Some((x, pos + 8))
    } else {
        None
    }
}

/// Reads one flag byte; succeeds exactly on a `0` or `1` in range.
fn parse_bool(bytes: &Vec<u8>, pos: usize) -> (r: Option<(bool, usize)>)
    ensures
        r matches Some(t) ==> pos + 1 <= bytes@.len()
            && (bytes@[pos as int] == 0 || bytes@[pos as int] == 1)
            && t.0 == (bytes@[pos as int] == 1) && t.1 == pos + 1,
        r is None ==> pos + 1 > bytes@.len()
            || (bytes@[pos as int] != 0 && bytes@[pos as int] != 1),
{
    if pos < bytes.len() {
        let b = bytes[pos];
        if b == 0 {
            Some((false, pos + 1))
        } else if b == 1 {
            Some((true, pos + 1))
        } else {
            None
        }
    } else {
        None
    }
}

/// A chunk that sits in `bytes` splits into its two halves in place.
proof fn lemma_prefix_split(bytes: Seq<u8>, pos: int, a: Seq<u8>, b: Seq<u8>)
    requires
        prefix_at(bytes, pos, a + b),
    ensures
        prefix_at(bytes, pos, a),
        prefix_at(bytes, pos + a.len(), b),
{
    let c = a + b;
    assert forall|j: int| 0 <= j < a.len() implies bytes[pos + j] == a[j] by {
        assert(bytes.subrange(pos, pos + c.len() as int)[j] == bytes[pos + j]);
        assert(c[j] == a[j]);
    }
    assert forall|j: int| 0 <= j < b.len() implies bytes[pos + a.len() + j] == b[j] by {
        assert(bytes.subrange(pos, pos + c.len() as int)[a.len() + j]
            == bytes[pos + a.len() + j]);
        assert(c[a.len() + j] == b[j]);
    }
    assert(bytes.subrange(pos, pos + a.len() as int) =~= a);
    assert(bytes.subrange(pos + a.len() as int, pos + a.len() + b.len()) =~= b);
}

/// A serialized number in place is read back as the number.
proof fn lemma_u64_in_place(bytes: Seq<u8>, pos: int, x: u64)
    requires
        prefix_at(bytes, pos, ser_u64(x)),
    ensures
        pos + 8 <= bytes.len(),
        spec_u64_from_le_bytes(bytes.subrange(pos, pos + 8)) == x,
        ser_u64(x).len() == 8,
{
    lemma_auto_spec_u64_to_from_le_bytes();
    assert(bytes.subrange(pos, pos + 8) == ser_u64(x));
}

/// A serialized flag in place is its one byte.
proof fn lemma_bool_in_place(bytes: Seq<u8>, pos: int, b: bool)
    requires
        prefix_at(bytes, pos, ser_bool(b)),
    ensures
        pos + 1 <= bytes.len(),
        bytes[pos] == (if b { 1u8 } else { 0u8 }),
{
    assert(bytes[pos] == bytes.subrange(pos, pos + 1)[0]);
}

/// Where each field of a serialized record sits.
proof fn lemma_record_layout(bytes: Seq<u8>, pos: int, p: Pasta)
    requires
        prefix_at(bytes, pos, ser_record(p)),
    ensures
        prefix_at(bytes, pos, ser_u64(p.id)),
        prefix_at(bytes, pos + 8, ser_u64(p.created)),
        prefix_at(bytes, pos + 16, ser_u64(p.expiration)),
        prefix_at(bytes, pos + 24, ser_u64(p.burn_after_reads)),
        prefix_at(bytes, pos + 32, ser_u64(p.read_count)),
        prefix_at(bytes, pos + 40, ser_u64(p.last_read)),
        prefix_at(bytes, pos + 48, ser_bool(p.private)),
        prefix_at(bytes, pos + 49, ser_bool(p.editable)),
        prefix_at(bytes, pos + 50, ser_bool(p.kind == PastaKind::Url)),
        prefix_at(bytes, pos + 51, ser_string(p.content@)),
        prefix_at(bytes, pos + 51 + ser_string(p.content@).len(), ser_string(p.extension@)),
        prefix_at(
            bytes,
            pos + 51 + ser_string(p.content@).len() + ser_string(p.extension@).len(),
            ser_file(p.file),
        ),
        ser_record(p).len() == 51 + ser_string(p.content@).len()
            + ser_string(p.extension@).len() + ser_file(p.file).len(),
{
    lemma_auto_spec_u64_to_from_le_bytes();
    let c1 = ser_u64(p.id);
    let c2 = ser_u64(p.created);
    let c3 = ser_u64(p.expiration);
    let c4 = ser_u64(p.burn_after_reads);
    let c5 = ser_u64(p.read_count);
    let c6 = ser_u64(p.last_read);
    let c7 = ser_bool(p.private);
    let c8 = ser_bool(p.editable);
    let c9 = ser_bool(p.kind == PastaKind::Url);
    let c10 = ser_string(p.content@);
    let c11 = ser_string(p.extension@);
    let c12 = ser_file(p.file);
    let x11 = c1 + c2 + c3 + c4 + c5 + c6 + c7 + c8 + c9 + c10 + c11;
    lemma_prefix_split(bytes, pos, x11, c12);
    let x10 = c1 + c2 + c3 + c4 + c5 + c6 + c7 + c8 + c9 + c10;
    lemma_prefix_split(bytes, pos, x10, c11);
    let x9 = c1 + c2 + c3 + c4 + c5 + c6 + c7 + c8 + c9;
    lemma_prefix_split(bytes, pos, x9, c10);
    let x8 = c1 + c2 + c3 + c4 + c5 + c6 + c7 + c8;
    lemma_prefix_split(bytes, pos, x8, c9);
    let x7 = c1 + c2 + c3 + c4 + c5 + c6 + c7;
    lemma_prefix_split(bytes, pos, x7, c8);
    let x6 = c1 + c2 + c3 + c4 + c5 + c6;
    lemma_prefix_split(bytes, pos, x6, c7);
    let x5 = c1 + c2 + c3 + c4 + c5;
    lemma_prefix_split(bytes, pos, x5, c6);
    let x4 = c1 + c2 + c3 + c4;
    lemma_prefix_split(bytes, pos, x4, c5);
    let x3 = c1 + c2 + c3;
    lemma_prefix_split(bytes, pos, x3, c4);
    let x2 = c1 + c2;
    lemma_prefix_split(bytes, pos, x2, c3);
    lemma_prefix_split(bytes, pos, c1, c2);
}

/// Reads one length-prefixed string. Wherever some character sequence
/// is serialized at `pos`, the read succeeds and restores exactly it.
fn parse_string(bytes: &Vec<u8>, pos: usize) -> (r: Option<(String, usize)>)
    ensures
        forall|v: Seq<char>|
            (#[trigger] prefix_at(bytes@, pos as int, ser_string(v)))
                && encode_utf8(v).len() <= u64::MAX ==> (r matches Some(t) && t.0@ == v
                && t.1 == pos + ser_string(v).len()),
{
    let first = match parse_u64(bytes, pos) {
        Some(t) => t,
        None => {
            proof {
                lemma_auto_spec_u64_to_from_le_bytes();
            }
            return None;
        },
    };
    let len_u = first.0;
    let p1 = first.1;
    let rem = bytes.len() - p1;
    if len_u > rem as u64 {
        proof {
            assert forall|v: Seq<char>|
                !((#[trigger] prefix_at(bytes@, pos as int, ser_string(v)))
                    && encode_utf8(v).len() <= u64::MAX) by {
                if prefix_at(bytes@, pos as int, ser_string(v))
                    && encode_utf8(v).len() <= u64::MAX {
                    let enc = encode_utf8(v);
                    lemma_prefix_split(bytes@, pos as int, ser_u64(enc.len() as u64), enc);
                    lemma_u64_in_place(bytes@, pos as int, enc.len() as u64);
                    assert(false);
                }
            }
        }
        return None;
    }
    let len = len_u as usize;
    let chunk = copy_range(bytes, p1, p1 + len);
    match string_from_utf8(chunk) {
        Some(s) => {
            let r = Some((s, p1 + len));
            proof {
                let t = r.unwrap();
                assert forall|v: Seq<char>|
                    (#[trigger] prefix_at(bytes@, pos as int, ser_string(v)))
                        && encode_utf8(v).len() <= u64::MAX implies (t.0@ == v
                        && t.1 == pos + ser_string(v).len()) by {
                    let enc = encode_utf8(v);
                    lemma_prefix_split(bytes@, pos as int, ser_u64(enc.len() as u64), enc);
                    lemma_u64_in_place(bytes@, pos as int, enc.len() as u64);
                    assert(len == enc.len());
                    assert(bytes@.subrange(p1 as int, p1 as int + enc.len()) == enc);
                    assert(encode_utf8(t.0@) == enc);
                    encode_utf8_decode_utf8(t.0@);
                    encode_utf8_decode_utf8(v);
                    assert(t.0@ == v);
                }
            }
            r
        },
        None => {
            proof {
                assert forall|v: Seq<char>|
                    !((#[trigger] prefix_at(bytes@, pos as int, ser_string(v)))
                        && encode_utf8(v).len() <= u64::MAX) by {
                    if prefix_at(bytes@, pos as int, ser_string(v))
                        && encode_utf8(v).len() <= u64::MAX {
                        let enc = encode_utf8(v);
                        lemma_prefix_split(bytes@, pos as int, ser_u64(enc.len() as u64), enc);
                        lemma_u64_in_place(bytes@, pos as int, enc.len() as u64);
                        assert(len == enc.len());
                        assert(bytes@.subrange(p1 as int, p1 as int + enc.len()) == enc);
                        encode_utf8_valid_utf8(v);
                        assert(false);
                    }
                }
            }
            None
        },
    }
}

/// Reads the optional attachment. Wherever one is serialized at `pos`,
/// the read succeeds and restores it field for field.
fn parse_file(bytes: &Vec<u8>, pos: usize) -> (r: Option<(Option<PastaFile>, usize)>)
    ensures
        forall|f: Option<PastaFile>|
            (#[trigger] prefix_at(bytes@, pos as int, ser_file(f)))
                && (f matches Some(pf) ==> encode_utf8(pf.name@).len() <= u64::MAX) ==> (
                r matches Some(t) && file_eq(t.0, f) && t.1 == pos + ser_file(f).len()),
{
    let tag = match parse_bool(bytes, pos) {
        Some(t) => t,
        None => {
            proof {
                assert forall|f: Option<PastaFile>|
                    !((#[trigger] prefix_at(bytes@, pos as int, ser_file(f)))
                        && (f matches Some(pf) ==> encode_utf8(pf.name@).len()
                            <= u64::MAX)) by {
                    if prefix_at(bytes@, pos as int, ser_file(f)) {
                        match f {
                            None => {
                                lemma_bool_in_place(bytes@, pos as int, false);
                            },
                            Some(pf) => {
                                assert(ser_file(f) =~= seq![1u8] + (ser_string(pf.name@)
                                    + ser_u64(pf.size)));
                                lemma_prefix_split(
                                    bytes@,
                                    pos as int,
                                    seq![1u8],
                                    ser_string(pf.name@) + ser_u64(pf.size),
                                );
                                lemma_bool_in_place(bytes@, pos as int, true);
                            },
                        }
                        assert(false);
                    }
                }
            }
            return None;
        },
    };
    if !tag.0 {
        let r = Some((None::<PastaFile>, tag.1));
        proof {
            assert forall|f: Option<PastaFile>|
                (#[trigger] prefix_at(bytes@, pos as int, ser_file(f)))
                    && (f matches Some(pf) ==> encode_utf8(pf.name@).len() <= u64::MAX)
                implies (file_eq(None::<PastaFile>, f) && tag.1 == pos + ser_file(f).len()) by {
                match f {
                    None => {
                        lemma_bool_in_place(bytes@, pos as int, false);
                    },
                    Some(pf) => {
                        assert(ser_file(f) =~= seq![1u8] + (ser_string(pf.name@)
                            + ser_u64(pf.size)));
                        lemma_prefix_split(
                            bytes@,
                            pos as int,
                            seq![1u8],
                            ser_string(pf.name@) + ser_u64(pf.size),
                        );
                        lemma_bool_in_place(bytes@, pos as int, true);
                        assert(false);
                    },
                }
            }
        }
        return r;
    }
    let name = match parse_string(bytes, tag.1) {
        Some(t) => t,
        None => {
            proof {
                assert forall|f: Option<PastaFile>|
                    !((#[trigger] prefix_at(bytes@, pos as int, ser_file(f)))
                        && (f matches Some(pf) ==> encode_utf8(pf.name@).len()
                            <= u64::MAX)) by {
                    if prefix_at(bytes@, pos as int, ser_file(f))
                        && (f matches Some(pf) ==> encode_utf8(pf.name@).len() <= u64::MAX) {
                        match f {
                            None => {
                                lemma_bool_in_place(bytes@, pos as int, false);
                            },
                            Some(pf) => {
                                assert(ser_file(f) =~= seq![1u8] + (ser_string(pf.name@)
                                    + ser_u64(pf.size)));
                                lemma_prefix_split(
                                    bytes@,
                                    pos as int,
                                    seq![1u8],
                                    ser_string(pf.name@) + ser_u64(pf.size),
                                );
                                lemma_prefix_split(
                                    bytes@,
                                    pos as int + 1,
                                    ser_string(pf.name@),
                                    ser_u64(pf.size),
                                );
                            },
                        }
                        assert(false);
                    }
                }
            }
            return None;
        },
    };
    let size = match parse_u64(bytes, name.1) {
        Some(t) => t,
        None => {
            proof {
                assert forall|f: Option<PastaFile>|
                    !((#[trigger] prefix_at(bytes@, pos as int, ser_file(f)))
                        && (f matches Some(pf) ==> encode_utf8(pf.name@).len()
                            <= u64::MAX)) by {
                    if prefix_at(bytes@, pos as int, ser_file(f))
                        && (f matches Some(pf) ==> encode_utf8(pf.name@).len() <= u64::MAX) {
                        match f {
                            None => {
                                lemma_bool_in_place(bytes@, pos as int, false);
                            },
                            Some(pf) => {
                                assert(ser_file(f) =~= seq![1u8] + (ser_string(pf.name@)
                                    + ser_u64(pf.size)));
                                lemma_prefix_split(
                                    bytes@,
                                    pos as int,
                                    seq![1u8],
                                    ser_string(pf.name@) + ser_u64(pf.size),
                                );
                                lemma_prefix_split(
                                    bytes@,
                                    pos as int + 1,
                                    ser_string(pf.name@),
                                    ser_u64(pf.size),
                                );
                                lemma_u64_in_place(
                                    bytes@,
                                    pos as int + 1 + ser_string(pf.name@).len() as int,
                                    pf.size,
                                );
                            },
                        }
                        assert(false);
                    }
                }
            }
            return None;
        },
    };
    let r = Some((Some(PastaFile { name: name.0, size: size.0 }), size.1));
    proof {
        let t = r.unwrap();
        assert forall|f: Option<PastaFile>|
            (#[trigger] prefix_at(bytes@, pos as int, ser_file(f)))
                && (f matches Some(pf) ==> encode_utf8(pf.name@).len() <= u64::MAX)
            implies (file_eq(t.0, f) && t.1 == pos + ser_file(f).len()) by {
            match f {
                None => {
                    lemma_bool_in_place(bytes@, pos as int, false);
                    assert(false);
                },
                Some(pf) => {
                    assert(ser_file(f) =~= seq![1u8] + (ser_string(pf.name@)
                        + ser_u64(pf.size)));
                    lemma_prefix_split(
                        bytes@,
                        pos as int,
                        seq![1u8],
                        ser_string(pf.name@) + ser_u64(pf.size),
                    );
                    lemma_prefix_split(
                        bytes@,
                        pos as int + 1,
                        ser_string(pf.name@),
                        ser_u64(pf.size),
                    );
                    lemma_u64_in_place(
                        bytes@,
                        pos as int + 1 + ser_string(pf.name@).len(),
                        pf.size,
                    );
                },
            }
        }
    }
    r
}

/// Two optional attachments agree field for field.
pub open spec fn file_eq(a: Option<PastaFile>, b: Option<PastaFile>) -> bool {
    match (a, b) {
        (None, None) => true,
        (Some(x), Some(y)) => x.name@ == y.name@ && x.size == y.size,
        _ => false,
    }
}

/// Serializing one more record extends the serialized prefix.
proof fn lemma_ser_records_take_succ(s: Seq<Pasta>, k: int)
    requires
        0 <= k < s.len(),
    ensures
        ser_records(s.take(k + 1)) == ser_records(s.take(k)) + ser_record(s[k]),
    decreases k,
{
    if k == 0 {
        let t = s.take(1);
        assert(t.len() == 1 && t[0] == s[0]);
        assert(t.drop_first() =~= Seq::<Pasta>::empty());
        assert(ser_records(Seq::<Pasta>::empty()) == Seq::<u8>::empty());
        assert(ser_records(t) == ser_record(s[0]) + Seq::<u8>::empty());
        assert(ser_record(s[0]) + Seq::<u8>::empty() =~= ser_record(s[0]));
        assert(s.take(0) =~= Seq::<Pasta>::empty());
        assert(Seq::<u8>::empty() + ser_record(s[0]) =~= ser_record(s[0]));
    } else {
        let d = s.drop_first();
        lemma_ser_records_take_succ(d, k - 1);
        let t1 = s.take(k + 1);
        let t0 = s.take(k);
        assert(t1[0] == s[0]);
        assert(t1.drop_first() =~= d.take(k));
        assert(t0[0] == s[0]);
        assert(t0.drop_first() =~= d.take(k - 1));
        assert(d[k - 1] == s[k]);
        assert(ser_records(t1) == ser_record(s[0]) + ser_records(d.take(k)));
        assert(ser_records(d.take(k)) == ser_records(d.take(k - 1)) + ser_record(s[k]));
        assert(ser_record(s[0]) + (ser_records(d.take(k - 1)) + ser_record(s[k]))
            =~= (ser_record(s[0]) + ser_records(d.take(k - 1))) + ser_record(s[k]));
        assert(ser_records(t0) == ser_record(s[0]) + ser_records(d.take(k - 1)));
    }
}

/// Reads one record. Wherever a representable record is serialized at
/// `pos`, the read succeeds and restores it field for field.
#[verifier::rlimit(100)]
fn parse_record(bytes: &Vec<u8>, pos: usize) -> (r: Option<(Pasta, usize)>)
    ensures
        forall|p: Pasta|
            (#[trigger] prefix_at(bytes@, pos as int, ser_record(p))) && rec_bounded(p) ==> (
            r matches Some(t) && rec_eq(t.0, p) && t.1 == pos + ser_record(p).len()),
{
    let f_id = match parse_u64(bytes, pos) {
        Some(t) => t,
        None => {
            proof {
                assert forall|p: Pasta|
                    !((#[trigger] prefix_at(bytes@, pos as int, ser_record(p)))
                        && rec_bounded(p)) by {
                    if prefix_at(bytes@, pos as int, ser_record(p)) && rec_bounded(p) {
                        lemma_record_layout(bytes@, pos as int, p);
                        assert(false);
                    }
                }
            }
            return None;
        },
    };
    let f_created = match parse_u64(bytes, f_id.1) {
        Some(t) => t,
        None => {
            proof {
                assert forall|p: Pasta|
                    !((#[trigger] prefix_at(bytes@, pos as int, ser_record(p)))
                        && rec_bounded(p)) by {
                    if prefix_at(bytes@, pos as int, ser_record(p)) && rec_bounded(p) {
                        lemma_record_layout(bytes@, pos as int, p);
                        assert(false);
                    }
                }
            }
            return None;
        },
    };
    let f_exp = match parse_u64(bytes, f_created.1) {
        Some(t) => t,
        None => {
            proof {
                assert forall|p: Pasta|
                    !((#[trigger] prefix_at(bytes@, pos as int, ser_record(p)))
                        && rec_bounded(p)) by {
                    if prefix_at(bytes@, pos as int, ser_record(p)) && rec_bounded(p) {
                        lemma_record_layout(bytes@, pos as int, p);
                        assert(false);
                    }
                }
            }
            return None;
        },
    };
    let f_burn = match parse_u64(bytes, f_exp.1) {
        Some(t) => t,
        None => {
            proof {
                assert forall|p: Pasta|
                    !((#[trigger] prefix_at(bytes@, pos as int, ser_record(p)))
                        && rec_bounded(p)) by {
                    if prefix_at(bytes@, pos as int, ser_record(p)) && rec_bounded(p) {
                        lemma_record_layout(bytes@, pos as int, p);
                        assert(false);
                    }
                }
            }
            return None;
        },
    };
    let f_rc = match parse_u64(bytes, f_burn.1) {
        Some(t) => t,
        None => {
            proof {
                assert forall|p: Pasta|
                    !((#[trigger] prefix_at(bytes@, pos as int, ser_record(p)))
                        && rec_bounded(p)) by {
                    if prefix_at(bytes@, pos as int, ser_record(p)) && rec_bounded(p) {
                        lemma_record_layout(bytes@, pos as int, p);
                        assert(false);
                    }
                }
            }
            return None;
        },
    };
    let f_lr = match parse_u64(bytes, f_rc.1) {
        Some(t) => t,
        None => {
            proof {
                assert forall|p: Pasta|
                    !((#[trigger] prefix_at(bytes@, pos as int, ser_record(p)))
                        && rec_bounded(p)) by {
                    if prefix_at(bytes@, pos as int, ser_record(p)) && rec_bounded(p) {
                        lemma_record_layout(bytes@, pos as int, p);
                        assert(false);
                    }
                }
            }
            return None;
        },
    };
    let f_priv = match parse_bool(bytes, f_lr.1) {
        Some(t) => t,
        None => {
            proof {
                assert forall|p: Pasta|
                    !((#[trigger] prefix_at(bytes@, pos as int, ser_record(p)))
                        && rec_bounded(p)) by {
                    if prefix_at(bytes@, pos as int, ser_record(p)) && rec_bounded(p) {
                        lemma_record_layout(bytes@, pos as int, p);
                        lemma_bool_in_place(bytes@, pos as int + 48, p.private);
                        assert(false);
                    }
                }
            }
            return None;
        },
    };
    let f_edit = match parse_bool(bytes, f_priv.1) {
        Some(t) => t,
        None => {
            proof {
                assert forall|p: Pasta|
                    !((#[trigger] prefix_at(bytes@, pos as int, ser_record(p)))
                        && rec_bounded(p)) by {
                    if prefix_at(bytes@, pos as int, ser_record(p)) && rec_bounded(p) {
                        lemma_record_layout(bytes@, pos as int, p);
                        lemma_bool_in_place(bytes@, pos as int + 49, p.editable);
                        assert(false);
                    }
                }
            }
            return None;
        },
    };
    let f_url = match parse_bool(bytes, f_edit.1) {
        Some(t) => t,
        None => {
            proof {
                assert forall|p: Pasta|
                    !((#[trigger] prefix_at(bytes@, pos as int, ser_record(p)))
                        && rec_bounded(p)) by {
                    if prefix_at(bytes@, pos as int, ser_record(p)) && rec_bounded(p) {
                        lemma_record_layout(bytes@, pos as int, p);
                        lemma_bool_in_place(bytes@, pos as int + 50, p.kind == PastaKind::Url);
                        assert(false);
                    }
                }
            }
            return None;
        },
    };
    let f_content = match parse_string(bytes, f_url.1) {
        Some(t) => t,
        None => {
            proof {
                assert forall|p: Pasta|
                    !((#[trigger] prefix_at(bytes@, pos as int, ser_record(p)))
                        && rec_bounded(p)) by {
                    if prefix_at(bytes@, pos as int, ser_record(p)) && rec_bounded(p) {
                        lemma_record_layout(bytes@, pos as int, p);
                        assert(false);
                    }
                }
            }
            return None;
        },
    };
    let f_ext = match parse_string(bytes, f_content.1) {
        Some(t) => t,
        None => {
            proof {
                assert forall|p: Pasta|
                    !((#[trigger] prefix_at(bytes@, pos as int, ser_record(p)))
                        && rec_bounded(p)) by {
                    if prefix_at(bytes@, pos as int, ser_record(p)) && rec_bounded(p) {
                        lemma_record_layout(bytes@, pos as int, p);
                        assert(false);
                    }
                }
            }
            return None;
        },
    };
    let f_file = match parse_file(bytes, f_ext.1) {
        Some(t) => t,
        None => {
            proof {
                assert forall|p: Pasta|
                    !((#[trigger] prefix_at(bytes@, pos as int, ser_record(p)))
                        && rec_bounded(p)) by {
                    if prefix_at(bytes@, pos as int, ser_record(p)) && rec_bounded(p) {
                        lemma_record_layout(bytes@, pos as int, p);
                        assert(false);
                    }
                }
            }
            return None;
        },
    };
    let kind = if f_url.0 {
        PastaKind::Url
    } else {
        PastaKind::Text
    };
    let rec = Pasta {
        id: f_id.0,
        content: f_content.0,
        file: f_file.0,
        extension: f_ext.0,
        private: f_priv.0,
        editable: f_edit.0,
        created: f_created.0,
        expiration: f_exp.0,
        burn_after_reads: f_burn.0,
        read_count: f_rc.0,
        last_read: f_lr.0,
        kind,
    };
    let r = Some((rec, f_file.1));
    proof {
        let t = r.unwrap();
        assert forall|p: Pasta|
            (#[trigger] prefix_at(bytes@, pos as int, ser_record(p))) && rec_bounded(p)
            implies (rec_eq(t.0, p) && t.1 == pos + ser_record(p).len()) by {
            lemma_record_layout(bytes@, pos as int, p);
            lemma_u64_in_place(bytes@, pos as int, p.id);
            lemma_u64_in_place(bytes@, pos as int + 8, p.created);
            lemma_u64_in_place(bytes@, pos as int + 16, p.expiration);
            lemma_u64_in_place(bytes@, pos as int + 24, p.burn_after_reads);
            lemma_u64_in_place(bytes@, pos as int + 32, p.read_count);
            lemma_u64_in_place(bytes@, pos as int + 40, p.last_read);
            lemma_bool_in_place(bytes@, pos as int + 48, p.private);
            lemma_bool_in_place(bytes@, pos as int + 49, p.editable);
            lemma_bool_in_place(bytes@, pos as int + 50, p.kind == PastaKind::Url);
        }
    }
    r
}

/// A record sequence serializes as its first `k` records followed by
/// the rest.
proof fn lemma_ser_records_split(s: Seq<Pasta>, k: int)
    requires
        0 <= k <= s.len(),
    ensures
        ser_records(s) == ser_records(s.take(k)) + ser_records(s.skip(k)),
    decreases k,
{
    if k == 0 {
        assert(s.take(0) =~= Seq::<Pasta>::empty());
        assert(s.skip(0) =~= s);
        assert(ser_records(Seq::<Pasta>::empty()) == Seq::<u8>::empty());
        assert(Seq::<u8>::empty() + ser_records(s) =~= ser_records(s));
    } else {
        let d = s.drop_first();
        lemma_ser_records_split(d, k - 1);
        assert(ser_records(s) == ser_record(s[0]) + ser_records(d));
        assert(s.take(k)[0] == s[0]);
        assert(s.take(k).drop_first() =~= d.take(k - 1));
        assert(ser_records(s.take(k)) == ser_record(s[0]) + ser_records(d.take(k - 1)));
        assert(s.skip(k) =~= d.skip(k - 1));
        assert(ser_record(s[0]) + (ser_records(d.take(k - 1)) + ser_records(d.skip(k - 1)))
            =~= (ser_record(s[0]) + ser_records(d.take(k - 1))) + ser_records(d.skip(k - 1)));
    }
}

/// The serialized store starts with the record count.
proof fn lemma_store_head(bytes: Seq<u8>, s: Seq<Pasta>)
    requires
        bytes == ser_store(s),
        s.len() <= u64::MAX,
    ensures
        8 <= bytes.len(),
        spec_u64_from_le_bytes(bytes.subrange(0, 8)) == s.len() as u64,
{
    lemma_auto_spec_u64_to_from_le_bytes();
    assert(bytes.subrange(0, bytes.len() as int) =~= bytes);
    assert(prefix_at(bytes, 0, ser_u64(s.len() as u64) + ser_records(s)));
    lemma_prefix_split(bytes, 0, ser_u64(s.len() as u64), ser_records(s));
    lemma_u64_in_place(bytes, 0, s.len() as u64);
}

/// Where record `k` sits in the serialized store.
proof fn lemma_store_layout(bytes: Seq<u8>, s: Seq<Pasta>, k: int)
    requires
        bytes == ser_store(s),
        0 <= k < s.len(),
    ensures
        prefix_at(bytes, 8 + ser_records(s.take(k)).len() as int, ser_record(s[k])),
{
    lemma_auto_spec_u64_to_from_le_bytes();
    lemma_ser_records_split(s, k);
    let a = ser_records(s.take(k));
    let rest = s.skip(k);
    assert(rest[0] == s[k]);
    assert(rest.drop_first() =~= s.skip(k + 1));
    assert(ser_records(rest) == ser_record(s[k]) + ser_records(s.skip(k + 1)));
    let n = ser_u64(s.len() as u64);
    let b = ser_record(s[k]);
    let c = ser_records(s.skip(k + 1));
    assert(bytes =~= ((n + a) + b) + c);
    assert(bytes.subrange(0, bytes.len() as int) =~= bytes);
    assert(prefix_at(bytes, 0, ((n + a) + b) + c));
    lemma_prefix_split(bytes, 0, (n + a) + b, c);
    lemma_prefix_split(bytes, 0, n + a, b);
}

/// Parses a whole serialized record set. Whatever representable record
/// set the bytes are the serialization of, parsing succeeds and
/// restores it record for record; a malformed input yields `None`.
pub fn parse_store(bytes: &Vec<u8>) -> (r: Option<Vec<Pasta>>)
    ensures
        forall|s: Seq<Pasta>|
            bytes@ == (#[trigger] ser_store(s)) && store_bounded(s) ==> (r matches Some(v)
                && recs_eq(v@, s)),
{
    let head = match parse_u64(bytes, 0) {
        Some(t) => t,
        None => {
            proof {
                assert forall|s: Seq<Pasta>|
                    !(bytes@ == (#[trigger] ser_store(s)) && store_bounded(s)) by {
                    if bytes@ == ser_store(s) && store_bounded(s) {
                        lemma_store_head(bytes@, s);
                        assert(false);
                    }
                }
            }
            return None;
        },
    };
    let n = head.0;
    let mut pos: usize = head.1;
    let mut acc: Vec<Pasta> = Vec::new();
    let mut k: u64 = 0;
    while k < n
        invariant
            k <= n,
            acc@.len() == k,
            8 <= bytes@.len(),
            n == spec_u64_from_le_bytes(bytes@.subrange(0, 8)),
            forall|s: Seq<Pasta>|
                bytes@ == (#[trigger] ser_store(s)) && store_bounded(s) ==> (k <= s.len()
                    && pos == 8 + ser_records(s.take(k as int)).len()
                    && recs_eq(acc@, s.take(k as int))),
        decreases n - k,
    {
        let ghost pre_pos = pos;
        let ghost pre_acc = acc@;
        let ghost pre_k = k;
        let step = match parse_record(bytes, pos) {
            Some(t) => t,
            None => {
                proof {
                    assert forall|s: Seq<Pasta>|
                        !(bytes@ == (#[trigger] ser_store(s)) && store_bounded(s)) by {
                        if bytes@ == ser_store(s) && store_bounded(s) {
                            lemma_store_head(bytes@, s);
                            assert(k < s.len());
                            lemma_store_layout(bytes@, s, k as int);
                            assert(false);
                        }
                    }
                }
                return None;
            },
        };
        acc.push(step.0);
        pos = step.1;
        k = k + 1;
        proof {
            assert forall|s: Seq<Pasta>|
                bytes@ == (#[trigger] ser_store(s)) && store_bounded(s) implies (k <= s.len()
                    && pos == 8 + ser_records(s.take(k as int)).len()
                    && recs_eq(acc@, s.take(k as int))) by {
                lemma_store_head(bytes@, s);
                assert(pre_k < s.len());
                lemma_store_layout(bytes@, s, pre_k as int);
                assert(prefix_at(bytes@, pre_pos as int, ser_record(s[pre_k as int])));
                assert(rec_bounded(s[pre_k as int]));
                lemma_ser_records_take_succ(s, pre_k as int);
                assert(rec_eq(step.0, s[pre_k as int]));
                assert(acc@ == pre_acc.push(step.0));
                assert forall|i: int| 0 <= i < acc@.len() implies rec_eq(
                    #[trigger] acc@[i],
                    s.take(k as int)[i],
                ) by {
                    if i < pre_k {
                        assert(rec_eq(pre_acc[i], s.take(pre_k as int)[i]));
                        assert(s.take(pre_k as int)[i] == s.take(k as int)[i]);
                    } else {
                        assert(acc@[i] == step.0);
                        assert(s.take(k as int)[i] == s[pre_k as int]);
                    }
                }
            }
        }
    }
    let r = Some(acc);
    proof {
        let v = r.unwrap();
        assert forall|s: Seq<Pasta>|
            bytes@ == (#[trigger] ser_store(s)) && store_bounded(s) implies recs_eq(v@, s) by {
            lemma_store_head(bytes@, s);
            assert(k == s.len());
            assert(s.take(k as int) =~= s);
        }
    }
    r
}

/// Loads a store from its serialized form: parses the records and
/// rebuilds the store, whose invariant holds again because identifiers
/// round-trip exactly.
pub fn load_store(bytes: &Vec<u8>) -> (r: Option<PastaStore>)
    ensures
        forall|s: Seq<Pasta>|
            bytes@ == (#[trigger] ser_store(s)) && store_bounded(s) && unique_ids(s) ==> (
            r matches Some(st) && recs_eq(st@, s) && st.wf()),
{
    let records = match parse_store(bytes) {
        Some(v) => v,
        None => {
            return None;
        },
    };
    let r = PastaStore::from_records(records);
    proof {
        assert forall|s: Seq<Pasta>|
            bytes@ == (#[trigger] ser_store(s)) && store_bounded(s) && unique_ids(s) implies (
            r matches Some(st) && recs_eq(st@, s) && st.wf()) by {
            assert(recs_eq(records@, s));
            assert forall|i: int, j: int| 0 <= i < j < records@.len() implies
                records@[i].id != records@[j].id by {
                assert(rec_eq(records@[i], s[i]));
                assert(rec_eq(records@[j], s[j]));
            }
            assert(unique_ids(records@));
        }
    }
    r
}

} // verus!

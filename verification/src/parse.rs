//! The object parser: the structural inverse of the canonical encoder.
//!
//! Given decompressed bytes, it locates the header up to the first NUL.  A
//! `"tree <size>"` header is followed by back-to-back entries, each
//! `"<mode> <path>\0"` plus exactly 20 hash bytes, with no delimiter
//! between one entry's hash and the next entry's mode.  Any other input is
//! parsed as a single entry, whose hash is everything after the first NUL
//! (empty hash bytes mark a deletion).  Malformed input is an
//! unrecoverable parse error; no partial object is ever returned.

use vstd::prelude::*;
use vstd::slice::slice_subrange;
use vstd::slice::slice_to_vec;
use vstd::utf8::decode_utf8;
use vstd::utf8::encode_utf8;
use vstd::utf8::encode_utf8_decode_utf8;
use vstd::utf8::valid_utf8;

use crate::ext::string_from_utf8;
use crate::model::GitObject;
use crate::model::Mode;
use crate::model::ObjType;
use crate::model::dec_value;
use crate::model::is_digits;
use crate::model::is_mode_code;
use crate::model::spec_tree_tag;

verus! {

/// An unrecoverable defect in stored-object bytes.
#[derive(Clone, Copy, Debug, PartialEq, Eq, Structural)]
pub enum ParseError {
    /// A size or mode field is not a decimal number that fits.
    NotANumber,
    /// A numeric mode code is not one of the valid codes.
    InvalidMode,
    /// An entry is missing its name or hash field.
    NoNameOrSha,
    /// Fewer than 20 hash bytes follow an entry inside a tree body.
    TruncatedHash,
    /// An entry name is not valid UTF-8.
    InvalidUtf8,
}

/// A parsed entry, at the byte level: the mode, the raw name bytes, and
/// the raw hash bytes (`None` for a deletion marker).
pub struct RawEntry {
    pub mode: Mode,
    pub name: Seq<u8>,
    pub sha: Option<Seq<u8>>,
}

/// What a parse returns: a tree header with its entries, or one entry.
pub enum ParsedShape {
    TreeShape { size: nat, entries: Seq<RawEntry> },
    EntryShape { entry: RawEntry },
}

/// The index of the first occurrence of `x` in `b`.
pub open spec fn spec_find(b: Seq<u8>, x: u8) -> Option<int>
    decreases b.len(),
{
    if b.len() == 0 {
        None
    } else if b[0] == x {
        Some(0)
    } else {
        match spec_find(b.drop_first(), x) {
            Some(i) => Some(i + 1),
            None => None,
        }
    }
}

/// `spec_find` returns exactly the first occurrence, if any.
pub proof fn lemma_spec_find(b: Seq<u8>, x: u8)
    ensures
        match spec_find(b, x) {
            Some(i) => 0 <= i < b.len() && b[i] == x && forall|j: int|
                0 <= j < i ==> b[j] != x,
            None => forall|j: int| 0 <= j < b.len() ==> b[j] != x,
        },
    decreases b.len(),
{
    if b.len() > 0 && b[0] != x {
        let d = b.drop_first();
        lemma_spec_find(d, x);
        match spec_find(d, x) {
            Some(i) => {
                assert(b[i + 1] == d[i]);
                assert forall|j: int| 0 <= j < i + 1 implies b[j] != x by {
                    if j > 0 {
                        assert(b[j] == d[j - 1]);
                    }
                }
            },
            None => {
                assert forall|j: int| 0 <= j < b.len() implies b[j] != x by {
                    if j > 0 {
                        assert(b[j] == d[j - 1]);
                    }
                }
            },
        }
    }
}

/// A position that holds `x`, with nothing but other bytes before it, is
/// exactly what `spec_find` returns.
pub proof fn lemma_spec_find_is(b: Seq<u8>, x: u8, i: int)
    requires
        0 <= i < b.len(),
        b[i] == x,
        forall|j: int| 0 <= j < i ==> b[j] != x,
    ensures
        spec_find(b, x) == Some(i),
{
    lemma_spec_find(b, x);
}

/// The mode field of the next entry: the bytes before the first space, or
/// the whole input when there is no space.
pub open spec fn spec_mode_field(b: Seq<u8>) -> Seq<u8> {
    match spec_find(b, 32u8) {
        Some(i) => b.take(i),
        None => b,
    }
}

/// Whether the mode field parses as a number that fits.
pub open spec fn mode_field_numeric(b: Seq<u8>) -> bool {
    is_digits(spec_mode_field(b)) && dec_value(spec_mode_field(b)) <= usize::MAX as int
}

/// One entry at the head of a tree body, and how many bytes it occupies:
/// `"<mode> <path>\0"` plus exactly 20 hash bytes.
pub open spec fn spec_stream_step(b: Seq<u8>) -> Result<(RawEntry, int), ParseError>
    recommends
        b.len() > 0,
{
    if !mode_field_numeric(b) {
        Err(ParseError::NotANumber)
    } else if !is_mode_code(dec_value(spec_mode_field(b)) as nat) {
        Err(ParseError::InvalidMode)
    } else {
        let mode = dec_value(spec_mode_field(b));
        match spec_find(b, 32u8) {
            None => Err(ParseError::NoNameOrSha),
            Some(sp) => {
                let rest = b.skip(sp + 1);
                match spec_find(rest, 0u8) {
                    None => Err(ParseError::NoNameOrSha),
                    Some(k) => {
                        let name = rest.take(k);
                        let after = rest.skip(k + 1);
                        if after.len() < 20 {
                            Err(ParseError::TruncatedHash)
                        } else if !valid_utf8(name) {
                            Err(ParseError::InvalidUtf8)
                        } else {
                            let entry = RawEntry {
                                mode: spec_mode_of(mode),
                                name,
                                sha: Some(after.take(20)),
                            };
                            Ok((entry, sp + 1 + k + 1 + 20))
                        }
                    },
                }
            },
        }
    }
}

/// The back-to-back entries of a tree body: entry boundaries are recovered
/// by consuming exactly 20 hash bytes after each NUL and treating the
/// following byte as the start of the next mode.
pub open spec fn spec_parse_entries(b: Seq<u8>) -> Result<Seq<RawEntry>, ParseError>
    decreases b.len(),
    via spec_parse_entries_decreases
{
    if b.len() == 0 {
        Ok(Seq::empty())
    } else {
        match spec_stream_step(b) {
            Err(e) => Err(e),
            Ok((entry, used)) => {
                match spec_parse_entries(b.skip(used)) {
                    Ok(es) => Ok(seq![entry] + es),
                    Err(e) => Err(e),
                }
            },
        }
    }
}

#[via_fn]
proof fn spec_parse_entries_decreases(b: Seq<u8>) {
    lemma_spec_find(b, 32u8);
    match spec_find(b, 32u8) {
        None => {},
        Some(sp) => {
            lemma_spec_find(b.skip(sp + 1), 0u8);
        },
    }
}

/// The mode enum for a valid numeric code.
pub open spec fn spec_mode_of(code: int) -> Mode
    recommends
        is_mode_code(code as nat),
{
    if code == 100644 {
        Mode::FileBlob
    } else if code == 100755 {
        Mode::ExeBlob
    } else if code == 40000 {
        Mode::SubDir
    } else if code == 160000 {
        Mode::SubMod
    } else {
        Mode::SymLink
    }
}

/// A single entry outside a tree body: the mode before the first space,
/// the name up to the first NUL, and everything after that NUL as the
/// hash (empty hash bytes mark a deletion).
pub open spec fn spec_parse_entry_form(b: Seq<u8>) -> Result<RawEntry, ParseError> {
    if !mode_field_numeric(b) {
        Err(ParseError::NotANumber)
    } else if !is_mode_code(dec_value(spec_mode_field(b)) as nat) {
        Err(ParseError::InvalidMode)
    } else {
        let mode = dec_value(spec_mode_field(b));
        match spec_find(b, 32u8) {
            None => Err(ParseError::NoNameOrSha),
            Some(sp) => {
                let rest = b.skip(sp + 1);
                match spec_find(rest, 0u8) {
                    None => Err(ParseError::NoNameOrSha),
                    Some(k) => {
                        let name = rest.take(k);
                        let sha_bytes = rest.skip(k + 1);
                        if !valid_utf8(name) {
                            Err(ParseError::InvalidUtf8)
                        } else {
                            Ok(
                                RawEntry {
                                    mode: spec_mode_of(mode),
                                    name,
                                    sha: if sha_bytes.len() == 0 {
                                        None
                                    } else {
                                        Some(sha_bytes)
                                    },
                                },
                            )
                        }
                    },
                }
            },
        }
    }
}

/// Whether a header (the bytes before the first NUL) has the shape
/// `"tree <size-field>"`: the tag, one space, and a size field with no
/// further space in it.
pub open spec fn spec_is_tree_header(h: Seq<u8>) -> bool {
    h.len() >= 5 && h.take(5) == spec_tree_tag() && !h.skip(5).contains(32u8)
}

/// What parsing a whole byte buffer yields: the tree form when the header
/// before the first NUL matches `"tree <size>"`, the single-entry form
/// otherwise.
pub open spec fn spec_parse(b: Seq<u8>) -> Result<ParsedShape, ParseError> {
    match spec_find(b, 0u8) {
        Some(h_end) => {
            let h = b.take(h_end);
            if spec_is_tree_header(h) {
                let size_bytes = h.skip(5);
                if !(is_digits(size_bytes) && dec_value(size_bytes) <= usize::MAX as int) {
                    Err(ParseError::NotANumber)
                } else {
                    match spec_parse_entries(b.skip(h_end + 1)) {
                        Ok(es) => Ok(
                            ParsedShape::TreeShape {
                                size: dec_value(size_bytes) as nat,
                                entries: es,
                            },
                        ),
                        Err(e) => Err(e),
                    }
                }
            } else {
                match spec_parse_entry_form(b) {
                    Ok(e) => Ok(ParsedShape::EntryShape { entry: e }),
                    Err(e) => Err(e),
                }
            }
        },
        None => {
            match spec_parse_entry_form(b) {
                Ok(e) => Ok(ParsedShape::EntryShape { entry: e }),
                Err(e) => Err(e),
            }
        },
    }
}

/// How a parsed object corresponds to a byte-level entry: same mode, the
/// path is the decoded name, the content is the empty placeholder, and the
/// hash bytes carry over.
pub open spec fn raw_matches(o: GitObject, e: RawEntry) -> bool {
    &&& o.mode == e.mode
    &&& match o.obj_type {
        ObjType::Blob { path, content } => {
            &&& path@ == decode_utf8(e.name)
            &&& encode_utf8(path@) == e.name
            &&& content@ == Seq::<u8>::empty()
        },
        _ => false,
    }
    &&& match (o.sha, e.sha) {
        (Some(s), Some(t)) => s@ == t,
        (None, None) => true,
        _ => false,
    }
}

/// How a parsed object corresponds to a parse result as a whole.
pub open spec fn obj_matches_shape(o: GitObject, shape: ParsedShape) -> bool {
    match shape {
        ParsedShape::TreeShape { size, entries } => {
            &&& o.mode == Mode::SubDir
            &&& o.sha is None
            &&& match o.obj_type {
                ObjType::Tree { path, size: sz, objs } => {
                    &&& path is None
                    &&& sz as nat == size
                    &&& objs@.len() == entries.len()
                    &&& forall|i: int|
                        0 <= i < entries.len() ==> raw_matches(#[trigger] objs@[i], entries[i])
                },
                _ => false,
            }
        },
        ParsedShape::EntryShape { entry } => raw_matches(o, entry),
    }
}

/// Nothing but digits ever has a negative value.
pub proof fn lemma_dec_value_nonneg(b: Seq<u8>)
    requires
        forall|i: int| 0 <= i < b.len() ==> crate::model::is_dec_digit(#[trigger] b[i]),
    ensures
        dec_value(b) >= 0,
    decreases b.len(),
{
    if b.len() > 0 {
        assert(forall|i: int|
            0 <= i < b.drop_last().len() ==> crate::model::is_dec_digit(
                #[trigger] b.drop_last()[i],
            ));
        lemma_dec_value_nonneg(b.drop_last());
    }
}

/// For a run of digits, the value of a longer prefix is at least the value
/// of a shorter one.
pub proof fn lemma_dec_value_take_monotonic(b: Seq<u8>, i: int, j: int)
    requires
        0 <= i <= j <= b.len(),
        forall|k: int| 0 <= k < b.len() ==> crate::model::is_dec_digit(#[trigger] b[k]),
    ensures
        dec_value(b.take(i)) <= dec_value(b.take(j)),
    decreases j - i,
{
    if i < j {
        lemma_dec_value_take_monotonic(b, i, j - 1);
        let t = b.take(j);
        assert(t.drop_last() =~= b.take(j - 1));
        assert(forall|k: int| 0 <= k < j - 1 ==> crate::model::is_dec_digit(#[trigger] b.take(j - 1)[k]));
        lemma_dec_value_nonneg(b.take(j - 1));
        assert(dec_value(t) == dec_value(b.take(j - 1)) * 10 + (t.last() - 48));
        assert(dec_value(b.take(j - 1)) * 10 >= dec_value(b.take(j - 1))) by (nonlinear_arith)
            requires
                dec_value(b.take(j - 1)) >= 0,
        ;
    }
}

/// Reads a decimal number from ASCII digit bytes.  Fails on anything but
/// a non-empty all-digit run whose value fits: the canonical format
/// writes sizes and modes as bare digits, so a leading sign — though a
/// general-purpose integer parser would take one — is deliberately
/// rejected as non-numeric.
pub fn usize_from_bytes(bytes: &[u8]) -> (r: Result<usize, ParseError>)
    ensures
        r is Ok <==> is_digits(bytes@) && dec_value(bytes@) <= usize::MAX as int,
        r matches Ok(v) ==> v as int == dec_value(bytes@),
        r is Err ==> r == Err::<usize, ParseError>(ParseError::NotANumber),
{
    let n = bytes.len();
    if n == 0 {
        return Err(ParseError::NotANumber);
    }
    let mut i: usize = 0;
    while i < n
        invariant
            n == bytes@.len(),
            0 <= i <= n,
            forall|k: int| 0 <= k < i ==> crate::model::is_dec_digit(#[trigger] bytes@[k]),
        decreases n - i,
    {
        let b = bytes[i];
        if b < 48 || b > 57 {
            return Err(ParseError::NotANumber);
        }
        i += 1;
    }
    let mut acc: usize = 0;
    let mut j: usize = 0;
    while j < n
        invariant
            n == bytes@.len(),
            n > 0,
            0 <= j <= n,
            forall|k: int| 0 <= k < n ==> crate::model::is_dec_digit(#[trigger] bytes@[k]),
            acc as int == dec_value(bytes@.take(j as int)),
        decreases n - j,
    {
        let d = bytes[j] - 48;
        proof {
            assert(bytes@.take(j + 1).drop_last() =~= bytes@.take(j as int));
            assert(bytes@.take(j + 1).last() == bytes@[j as int]);
            assert(dec_value(bytes@.take(j + 1)) == acc as int * 10 + d as int);
        }
        let limit = usize::MAX / 10;
        if acc > limit || (acc == limit && d as usize > usize::MAX % 10) {
            proof {
                assert(usize::MAX as int == (usize::MAX as int / 10) * 10 + usize::MAX as int
                    % 10);
                assert(acc as int * 10 + d as int > usize::MAX as int) by (nonlinear_arith)
                    requires
                        acc as int > usize::MAX as int / 10 || (acc as int == usize::MAX as int
                            / 10 && d as int > usize::MAX as int % 10),
                        usize::MAX as int == (usize::MAX as int / 10) * 10 + usize::MAX as int
                            % 10,
                        d as int >= 0,
                ;
                lemma_dec_value_take_monotonic(bytes@, j + 1, n as int);
                assert(bytes@.take(n as int) =~= bytes@);
            }
            return Err(ParseError::NotANumber);
        }
        proof {
            assert(acc as int * 10 + d as int <= usize::MAX as int) by (nonlinear_arith)
                requires
                    acc as int <= usize::MAX as int / 10,
                    d as int <= 9,
                    (acc as int == usize::MAX as int / 10) ==> (d as int <= usize::MAX as int
                        % 10),
                    usize::MAX as int == (usize::MAX as int / 10) * 10 + usize::MAX as int % 10,
            ;
        }
        acc = acc * 10 + d as usize;
        j += 1;
    }
    proof {
        assert(bytes@.take(n as int) =~= bytes@);
    }
    Ok(acc)
}

/// Whether the bytes before index `h_end` have the `"tree <size>"` shape.
fn header_is_tree(b: &[u8], h_end: usize) -> (r: bool)
    requires
        h_end as int <= b@.len(),
    ensures
        r == spec_is_tree_header(b@.take(h_end as int)),
{
    let ghost h = b@.take(h_end as int);
    if h_end < 5 {
        return false;
    }
    if b[0] != 116 || b[1] != 114 || b[2] != 101 || b[3] != 101 || b[4] != 32 {
        proof {
            assert(h.take(5) != spec_tree_tag());
        }
        return false;
    }
    let mut i: usize = 5;
    while i < h_end
        invariant
            5 <= i <= h_end,
            h_end as int <= b@.len(),
            h == b@.take(h_end as int),
            forall|j: int| 5 <= j < i ==> b@[j] != 32,
        decreases h_end - i,
    {
        if b[i] == 32 {
            proof {
                assert(h.skip(5)[i - 5] == 32u8);
            }
            return false;
        }
        i += 1;
    }
    proof {
        assert(h.take(5) =~= spec_tree_tag());
        assert(forall|j: int| 0 <= j < h.skip(5).len() ==> h.skip(5)[j] != 32u8);
    }
    true
}

/// The index of the first occurrence of `x` in `b`, if any.
pub fn find_byte(b: &[u8], x: u8) -> (r: Option<usize>)
    ensures
        match r {
            Some(i) => spec_find(b@, x) == Some(i as int),
            None => spec_find(b@, x) is None,
        },
{
    let n = b.len();
    let mut i: usize = 0;
    while i < n
        invariant
            n == b@.len(),
            0 <= i <= n,
            forall|j: int| 0 <= j < i ==> b@[j] != x,
        decreases n - i,
    {
        if b[i] == x {
            proof {
                lemma_spec_find(b@, x);
            }
            return Some(i);
        }
        i += 1;
    }
    proof {
        lemma_spec_find(b@, x);
    }
    None
}

/// Parses a single entry outside a tree body.
fn parse_entry_form(bytes: &[u8]) -> (r: Result<GitObject, ParseError>)
    ensures
        match spec_parse_entry_form(bytes@) {
            Ok(e) => r matches Ok(o) && raw_matches(o, e),
            Err(pe) => r == Err::<GitObject, ParseError>(pe),
        },
{
    let n = bytes.len();
    let sp_opt = find_byte(bytes, 32);
    let mode_end = match sp_opt {
        Some(i) => {
            proof {
                lemma_spec_find(bytes@, 32u8);
            }
            i
        },
        None => n,
    };
    let mode_bytes = slice_subrange(bytes, 0, mode_end);
    proof {
        assert(mode_bytes@ =~= spec_mode_field(bytes@));
    }
    let code = match usize_from_bytes(mode_bytes) {
        Ok(c) => c,
        Err(e) => {
            return Err(e);
        },
    };
    let mode = match Mode::from_code(code) {
        Some(m) => m,
        None => {
            return Err(ParseError::InvalidMode);
        },
    };
    proof {
        assert(mode == spec_mode_of(code as int));
    }
    let sp = match sp_opt {
        Some(i) => i,
        None => {
            return Err(ParseError::NoNameOrSha);
        },
    };
    proof {
        lemma_spec_find(bytes@, 32u8);
    }
    let rest = slice_subrange(bytes, sp + 1, bytes.len());
    proof {
        assert(rest@ =~= bytes@.skip(sp + 1));
    }
    let k = match find_byte(rest, 0) {
        Some(k) => {
            proof {
                lemma_spec_find(rest@, 0u8);
            }
            k
        },
        None => {
            return Err(ParseError::NoNameOrSha);
        },
    };
    let name_bytes = slice_to_vec(slice_subrange(rest, 0, k));
    let sha_tail = slice_subrange(rest, k + 1, rest.len());
    proof {
        assert(name_bytes@ == rest@.take(k as int));
        assert(sha_tail@ =~= rest@.skip(k + 1));
    }
    let path = match string_from_utf8(name_bytes) {
        Some(s) => s,
        None => {
            return Err(ParseError::InvalidUtf8);
        },
    };
    proof {
        encode_utf8_decode_utf8(path@);
    }
    let sha = if sha_tail.len() == 0 {
        None
    } else {
        Some(slice_to_vec(sha_tail))
    };
    Ok(GitObject { mode, obj_type: ObjType::Blob { path, content: Vec::new() }, sha })
}

/// Parses one entry at the head of a tree body, returning the object and
/// how many bytes the entry occupied.
fn parse_stream_entry(rest: &[u8]) -> (r: Result<(GitObject, usize), ParseError>)
    requires
        rest@.len() > 0,
    ensures
        match spec_stream_step(rest@) {
            Ok(p) => r matches Ok(q) && raw_matches(q.0, p.0) && q.1 as int == p.1 && 0 < p.1
                <= rest@.len(),
            Err(pe) => r == Err::<(GitObject, usize), ParseError>(pe),
        },
{
    let n = rest.len();
    let sp_opt = find_byte(rest, 32);
    let mode_end = match sp_opt {
        Some(i) => {
            proof {
                lemma_spec_find(rest@, 32u8);
            }
            i
        },
        None => n,
    };
    let mode_bytes = slice_subrange(rest, 0, mode_end);
    proof {
        assert(mode_bytes@ =~= spec_mode_field(rest@));
    }
    let code = match usize_from_bytes(mode_bytes) {
        Ok(c) => c,
        Err(e) => {
            return Err(e);
        },
    };
    let mode = match Mode::from_code(code) {
        Some(m) => m,
        None => {
            return Err(ParseError::InvalidMode);
        },
    };
    proof {
        assert(mode == spec_mode_of(code as int));
    }
    let sp = match sp_opt {
        Some(i) => i,
        None => {
            return Err(ParseError::NoNameOrSha);
        },
    };
    proof {
        lemma_spec_find(rest@, 32u8);
    }
    let tail = slice_subrange(rest, sp + 1, rest.len());
    proof {
        assert(tail@ =~= rest@.skip(sp + 1));
    }
    let k = match find_byte(tail, 0) {
        Some(k) => {
            proof {
                lemma_spec_find(tail@, 0u8);
            }
            k
        },
        None => {
            return Err(ParseError::NoNameOrSha);
        },
    };
    let after_start = k + 1;
    let after = slice_subrange(tail, after_start, tail.len());
    proof {
        assert(after@ =~= tail@.skip(k + 1));
    }
    if after.len() < 20 {
        return Err(ParseError::TruncatedHash);
    }
    let name_bytes = slice_to_vec(slice_subrange(tail, 0, k));
    proof {
        assert(name_bytes@ == tail@.take(k as int));
    }
    let path = match string_from_utf8(name_bytes) {
        Some(s) => s,
        None => {
            return Err(ParseError::InvalidUtf8);
        },
    };
    proof {
        encode_utf8_decode_utf8(path@);
    }
    let sha = slice_to_vec(slice_subrange(after, 0, 20));
    proof {
        assert(sha@ == after@.take(20));
    }
    let used = sp + 1 + k + 1 + 20;
    let o = GitObject {
        mode,
        obj_type: ObjType::Blob { path, content: Vec::new() },
        sha: Some(sha),
    };
    Ok((o, used))
}

/// Parses the body of a tree object whose header has been located.
#[verifier::loop_isolation(false)]
fn parse_tree_body(bytes: &[u8], h_end: usize) -> (r: Result<GitObject, ParseError>)
    requires
        spec_find(bytes@, 0u8) == Some(h_end as int),
        spec_is_tree_header(bytes@.take(h_end as int)),
    ensures
        match spec_parse(bytes@) {
            Ok(shape) => r matches Ok(o) && obj_matches_shape(o, shape),
            Err(e) => r == Err::<GitObject, ParseError>(e),
        },
{
    let n = bytes.len();
    proof {
        lemma_spec_find(bytes@, 0u8);
        assert(h_end < n);
    }
    let size_bytes = slice_subrange(bytes, 5, h_end);
    proof {
        assert(size_bytes@ =~= bytes@.take(h_end as int).skip(5));
    }
    let size = match usize_from_bytes(size_bytes) {
        Ok(s) => s,
        Err(e) => {
            return Err(e);
        },
    };
    let ghost start: int = h_end + 1;
    let mut pos: usize = h_end + 1;
    let mut objs: Vec<GitObject> = Vec::new();
    let ghost mut parsed: Seq<RawEntry> = Seq::empty();
    proof {
        assert(parsed + spec_unwrap_entries(bytes@.skip(pos as int)) =~= spec_unwrap_entries(
            bytes@.skip(pos as int),
        ));
    }
    while pos < bytes.len()
        invariant
            start == h_end + 1,
            start <= pos <= bytes@.len(),
            objs@.len() == parsed.len(),
            forall|i: int| 0 <= i < parsed.len() ==> raw_matches(#[trigger] objs@[i], parsed[i]),
            spec_parse_entries(bytes@.skip(start)) == (match spec_parse_entries(
                bytes@.skip(pos as int),
            ) {
                Ok(es) => Ok::<Seq<RawEntry>, ParseError>(parsed + es),
                Err(e) => Err::<Seq<RawEntry>, ParseError>(e),
            }),
        decreases bytes@.len() - pos,
    {
        let rest = slice_subrange(bytes, pos, bytes.len());
        proof {
            assert(rest@ =~= bytes@.skip(pos as int));
        }
        let (o, used) = match parse_stream_entry(rest) {
            Ok(p) => p,
            Err(e) => {
                proof {
                    assert(rest@.len() > 0);
                    assert(spec_parse_entries(rest@) == Err::<Seq<RawEntry>, ParseError>(e));
                    assert(spec_parse_entries(bytes@.skip(start)) == Err::<
                        Seq<RawEntry>,
                        ParseError,
                    >(e));
                    assert(spec_parse(bytes@) == Err::<ParsedShape, ParseError>(e));
                }
                return Err(e);
            },
        };
        let ghost entry = (match spec_stream_step(rest@) {
            Ok(p) => p,
            Err(_) => arbitrary(),
        }).0;
        let ghost old_parsed = parsed;
        objs.push(o);
        proof {
            parsed = old_parsed + seq![entry];
        }
        pos = pos + used;
        proof {
            assert(bytes@.skip(pos as int) =~= rest@.skip(used as int));
            match spec_parse_entries(rest@.skip(used as int)) {
                Ok(es) => {
                    assert(spec_parse_entries(rest@) == Ok::<Seq<RawEntry>, ParseError>(
                        seq![entry] + es,
                    ));
                    assert(old_parsed + (seq![entry] + es) =~= parsed + es);
                },
                Err(e) => {
                    assert(spec_parse_entries(rest@) == Err::<Seq<RawEntry>, ParseError>(e));
                },
            }
        }
    }
    proof {
        assert(bytes@.skip(pos as int) =~= Seq::<u8>::empty());
        assert(spec_parse_entries(bytes@.skip(pos as int)) == Ok::<Seq<RawEntry>, ParseError>(
            Seq::empty(),
        ));
        assert(parsed + Seq::<RawEntry>::empty() =~= parsed);
    }
    Ok(GitObject { mode: Mode::SubDir, obj_type: ObjType::Tree { path: None, size, objs }, sha: None })
}

/// What a sequence of entries parses to, assuming it parses.
pub open spec fn spec_unwrap_entries(b: Seq<u8>) -> Seq<RawEntry> {
    match spec_parse_entries(b) {
        Ok(es) => es,
        Err(_) => Seq::empty(),
    }
}

/// An unrecoverable defect in a stored object stream.
#[derive(Clone, Copy, Debug, PartialEq, Eq, Structural)]
pub enum ObjectError {
    /// The compressed stream is malformed.
    Decompress,
    /// The decompressed bytes are malformed.
    Parse(ParseError),
}

impl GitObject {
    /// Parses decompressed object bytes into a structured object: a
    /// shallow tree when the header matches `"tree <size>"`, a single
    /// entry otherwise.  Malformed bytes are rejected with the defect
    /// found; no partial object is returned.
    pub fn from_bytes(bytes: &[u8]) -> (r: Result<GitObject, ParseError>)
        ensures
            match spec_parse(bytes@) {
                Ok(shape) => r matches Ok(o) && obj_matches_shape(o, shape),
                Err(e) => r == Err::<GitObject, ParseError>(e),
            },
    {
        let found = find_byte(bytes, 0);
        if let Some(h_end) = found {
            proof {
                lemma_spec_find(bytes@, 0u8);
            }
            if header_is_tree(bytes, h_end) {
                return parse_tree_body(bytes, h_end);
            }
        }
        match parse_entry_form(bytes) {
            Ok(o) => Ok(o),
            Err(e) => Err(e),
        }
    }

    /// Decompresses a stored object stream and parses the result: the
    /// read path of the store, minus the file access itself.  A malformed
    /// compressed stream is reported as such, and never yields an object.
    pub fn parse_stored(compressed: &[u8]) -> (r: Result<GitObject, ObjectError>)
        ensures
            forall|s: Seq<u8>|
                compressed@ == crate::ext::deflate_of(s) ==> (match spec_parse(s) {
                    Ok(shape) => r matches Ok(o) && obj_matches_shape(o, shape),
                    Err(e) => r == Err::<GitObject, ObjectError>(ObjectError::Parse(e)),
                }),
            r == Err::<GitObject, ObjectError>(ObjectError::Decompress) <==> !crate::ext::zlib_valid(
                compressed@,
            ),
    {
        let data = match crate::ext::zlib_decompress(compressed) {
            Some(d) => d,
            None => {
                return Err(ObjectError::Decompress);
            },
        };
        let out = match GitObject::from_bytes(data.as_slice()) {
            Ok(o) => Ok(o),
            Err(e) => Err(ObjectError::Parse(e)),
        };
        proof {
            assert forall|s: Seq<u8>| compressed@ == crate::ext::deflate_of(s) implies (match
                spec_parse(s) {
                Ok(shape) => out matches Ok(o) && obj_matches_shape(o, shape),
                Err(e) => out == Err::<GitObject, ObjectError>(ObjectError::Parse(e)),
            }) by {
                assert(data@ == s);
            }
        }
        out
    }
}

} // verus!

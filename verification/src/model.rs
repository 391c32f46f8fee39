//! The object model and the canonical encoder.
//!
//! An object is a tagged variant over blob, tree and commit, carrying a
//! file mode and an optional 20-byte content hash.  The canonical per-entry
//! encoding is `"<mode> <path>\0"` followed by the raw hash bytes (or a
//! single NUL when the hash is absent, a deletion marker); the whole-object
//! encoding prefixes a `"blob <len>\0"` or `"tree <len>\0"` header.

use vstd::prelude::*;
use vstd::string::StringExecFns;
use vstd::utf8::encode_utf8;

use crate::ext::hex_encode;
use crate::ext::spec_hex_chars;

verus! {

/// The mode of a tree entry: a fixed, closed set of file kinds.
#[derive(Clone, Copy, Debug, PartialEq, Eq, Structural)]
pub enum Mode {
    FileBlob,
    ExeBlob,
    SubDir,
    SubMod,
    SymLink,
}

/// Either blob, tree, or commit.
#[derive(Debug)]
pub enum ObjType {
    Blob {
        /// The file referenced in the tree (final path component only).
        path: String,
        /// The content the file has; empty when the object was
        /// reconstructed from a parse and the content was not re-read.
        content: Vec<u8>,
    },
    Tree {
        /// The folder that this tree represents.
        ///
        /// Only the very top level tree will not have a path.
        path: Option<String>,
        /// Byte length of the concatenated child entry encodings.
        size: usize,
        /// All the objects in the tree, in sorted order.
        objs: Vec<GitObject>,
    },
    /// Reserved; no current operation produces it.
    Commit,
}

/// An object in a tree.
#[derive(Debug)]
pub struct GitObject {
    /// The file mode.
    pub mode: Mode,
    /// The kind of object this is.
    pub obj_type: ObjType,
    /// The 20-byte content hash of the object's canonical encoding, raw
    /// (not hex encoded).  `None` marks a pending deletion.
    pub sha: Option<Vec<u8>>,
}

/// The numeric code of a mode, as written in decimal in an entry encoding.
pub open spec fn mode_code(m: Mode) -> nat {
    match m {
        Mode::FileBlob => 100644,
        Mode::ExeBlob => 100755,
        Mode::SubDir => 40000,
        Mode::SubMod => 160000,
        Mode::SymLink => 120000,
    }
}

/// The valid numeric mode codes; any other code is a hard parse error.
pub open spec fn is_mode_code(n: nat) -> bool {
    n == 100644 || n == 100755 || n == 40000 || n == 160000 || n == 120000
}

impl Mode {
    /// The mode for a numeric code, `None` for an invalid code.
    pub fn from_code(kind: usize) -> (r: Option<Mode>)
        ensures
            r is Some <==> is_mode_code(kind as nat),
            r matches Some(m) ==> mode_code(m) == kind as nat,
    {
        match kind {
            100644 => Some(Mode::FileBlob),
            100755 => Some(Mode::ExeBlob),
            40000 => Some(Mode::SubDir),
            160000 => Some(Mode::SubMod),
            120000 => Some(Mode::SymLink),
            _ => None,
        }
    }

    /// The mode for a valid numeric code.
    pub fn new(kind: usize) -> (r: Mode)
        requires
            is_mode_code(kind as nat),
        ensures
            mode_code(r) == kind as nat,
    {
        match Mode::from_code(kind) {
            Some(m) => m,
            None => vstd::pervasive::unreached(),
        }
    }

    /// The numeric code of this mode.
    pub fn code(&self) -> (r: usize)
        ensures
            r as nat == mode_code(*self),
    {
        match self {
            Mode::FileBlob => 100644,
            Mode::ExeBlob => 100755,
            Mode::SubDir => 40000,
            Mode::SubMod => 160000,
            Mode::SymLink => 120000,
        }
    }
}

/// Whether a byte is an ASCII decimal digit.
pub open spec fn is_dec_digit(b: u8) -> bool {
    48 <= b <= 57
}

/// Whether a byte sequence is a non-empty run of ASCII decimal digits.
pub open spec fn is_digits(b: Seq<u8>) -> bool {
    b.len() > 0 && forall|i: int| 0 <= i < b.len() ==> is_dec_digit(#[trigger] b[i])
}

/// The decimal digits of `n`, most significant first, as ASCII bytes.
pub open spec fn dec_digits(n: nat) -> Seq<u8>
    decreases n,
{
    if n < 10 {
        seq![(48 + n) as u8]
    } else {
        dec_digits(n / 10).push((48 + n % 10) as u8)
    }
}

/// The numeric value of a run of ASCII decimal digits.
pub open spec fn dec_value(b: Seq<u8>) -> int
    recommends
        is_digits(b),
    decreases b.len(),
{
    if b.len() == 0 {
        0
    } else {
        dec_value(b.drop_last()) * 10 + (b.last() - 48)
    }
}

/// The decimal form of a number is a non-empty run of digits.
pub proof fn lemma_dec_digits_are_digits(n: nat)
    ensures
        is_digits(dec_digits(n)),
    decreases n,
{
    if n >= 10 {
        lemma_dec_digits_are_digits(n / 10);
    }
}

/// Reading the decimal form of a number back gives the number.
pub proof fn lemma_dec_value_of_digits(n: nat)
    ensures
        dec_value(dec_digits(n)) == n,
    decreases n,
{
    if n < 10 {
        assert(dec_digits(n).drop_last() =~= Seq::<u8>::empty());
        assert(dec_value(Seq::<u8>::empty()) == 0);
        assert(dec_digits(n).last() == (48 + n) as u8);
        assert((48 + n) as u8 - 48 == n);
        assert(dec_value(dec_digits(n)) == dec_value(dec_digits(n).drop_last()) * 10 + (dec_digits(
            n,
        ).last() - 48));
    } else {
        lemma_dec_value_of_digits(n / 10);
        assert(dec_digits(n).drop_last() =~= dec_digits(n / 10));
        assert(dec_digits(n).last() == (48 + n % 10) as u8);
        assert(n % 10 < 10);
        assert((48 + n % 10) as u8 - 48 == n % 10);
        assert(n == (n / 10) * 10 + n % 10) by (nonlinear_arith);
    }
}

/// The decimal digits of `n`, most significant first, as ASCII bytes.
pub fn dec_of_usize(n: usize) -> (r: Vec<u8>)
    ensures
        r@ == dec_digits(n as nat),
    decreases n,
{
    if n < 10 {
        let d: u8 = 48 + (n as u8);
        let r = vec![d];
        proof {
            assert(r@ =~= dec_digits(n as nat));
        }
        r
    } else {
        let mut r = dec_of_usize(n / 10);
        r.push(48 + ((n % 10) as u8));
        r
    }
}

/// Whether the object carries a defined path usable in an entry encoding
/// (everything but the synthetic pathless root tree and a commit).
pub open spec fn has_entry_path(o: GitObject) -> bool {
    match o.obj_type {
        ObjType::Blob { .. } => true,
        ObjType::Tree { path, .. } => path is Some,
        ObjType::Commit => false,
    }
}

/// The path component of an object, for objects that have one.
pub open spec fn entry_name(o: GitObject) -> Seq<char>
    recommends
        has_entry_path(o),
{
    match o.obj_type {
        ObjType::Blob { path, .. } => path@,
        ObjType::Tree { path, .. } => {
            match path {
                Some(p) => p@,
                None => Seq::empty(),
            }
        },
        ObjType::Commit => Seq::empty(),
    }
}

/// The hash field of an entry encoding: the raw hash bytes, or a single
/// NUL when the hash is absent (deletion marker).
pub open spec fn sha_field(o: GitObject) -> Seq<u8> {
    match o.sha {
        Some(s) => s@,
        None => seq![0u8],
    }
}

/// The canonical per-entry encoding:
/// `"<mode-as-decimal> <path>\0"` followed by the hash field.
pub open spec fn spec_entry_bytes(o: GitObject) -> Seq<u8>
    recommends
        has_entry_path(o),
{
    dec_digits(mode_code(o.mode)) + seq![32u8] + encode_utf8(entry_name(o)) + seq![0u8]
        + sha_field(o)
}

/// The concatenated entry encodings of a sequence of objects.
pub open spec fn spec_entries_bytes(objs: Seq<GitObject>) -> Seq<u8>
    decreases objs.len(),
{
    if objs.len() == 0 {
        Seq::empty()
    } else {
        spec_entry_bytes(objs[0]) + spec_entries_bytes(objs.drop_first())
    }
}

/// Appending one object appends its entry encoding.
pub proof fn lemma_entries_bytes_push(s: Seq<GitObject>, o: GitObject)
    ensures
        spec_entries_bytes(s.push(o)) == spec_entries_bytes(s) + spec_entry_bytes(o),
    decreases s.len(),
{
    if s.len() == 0 {
        assert(s.push(o)[0] == o);
        assert(s.push(o).drop_first() =~= Seq::<GitObject>::empty());
        assert(spec_entries_bytes(Seq::<GitObject>::empty()) =~= Seq::<u8>::empty());
        assert(spec_entries_bytes(s.push(o)) == spec_entry_bytes(o) + Seq::<u8>::empty());
        assert(spec_entry_bytes(o) + Seq::<u8>::empty() =~= spec_entry_bytes(o));
        assert(spec_entries_bytes(s) + spec_entry_bytes(o) =~= spec_entry_bytes(o));
    } else {
        let a = spec_entry_bytes(s[0]);
        let t = s.drop_first();
        assert(s.push(o).len() > 0);
        assert(s.push(o)[0] == s[0]);
        assert(s.push(o).drop_first() =~= t.push(o));
        lemma_entries_bytes_push(t, o);
        assert(spec_entries_bytes(s.push(o)) == a + spec_entries_bytes(t.push(o)));
        assert(spec_entries_bytes(t.push(o)) == spec_entries_bytes(t) + spec_entry_bytes(o));
        assert(a + (spec_entries_bytes(t) + spec_entry_bytes(o)) =~= (a + spec_entries_bytes(t))
            + spec_entry_bytes(o));
        assert(spec_entries_bytes(s) == a + spec_entries_bytes(t));
    }
}

/// `"blob "` as bytes.
pub open spec fn spec_blob_tag() -> Seq<u8> {
    seq![98u8, 108u8, 111u8, 98u8, 32u8]
}

/// `"tree "` as bytes.
pub open spec fn spec_tree_tag() -> Seq<u8> {
    seq![116u8, 114u8, 101u8, 101u8, 32u8]
}

/// The canonical whole-object encoding of a blob with the given content:
/// `"blob <len>\0"` followed by the content bytes.
pub open spec fn spec_blob_canonical(content: Seq<u8>) -> Seq<u8> {
    spec_blob_tag() + dec_digits(content.len()) + seq![0u8] + content
}

/// The canonical whole-object encoding of a tree with the given
/// concatenated child entry encodings: `"tree <len>\0"` followed by them.
pub open spec fn spec_tree_canonical(body: Seq<u8>) -> Seq<u8> {
    spec_tree_tag() + dec_digits(body.len()) + seq![0u8] + body
}

/// What `==` means for objects: equality of their content hashes.
pub open spec fn spec_sha_eq(a: GitObject, b: GitObject) -> bool {
    match (a.sha, b.sha) {
        (Some(x), Some(y)) => x@ == y@,
        (None, None) => true,
        _ => false,
    }
}

/// Whether two byte vectors hold the same bytes.
fn bytes_eq(a: &Vec<u8>, b: &Vec<u8>) -> (r: bool)
    ensures
        r == (a@ == b@),
{
    if a.len() != b.len() {
        proof {
            assert(a@ != b@);
        }
        return false;
    }
    let n = a.len();
    let mut i: usize = 0;
    while i < n
        invariant
            0 <= i <= n,
            n == a@.len() == b@.len(),
            forall|j: int| 0 <= j < i ==> a@[j] == b@[j],
        decreases n - i,
    {
        if a[i] != b[i] {
            proof {
                assert(a@[i as int] != b@[i as int]);
            }
            return false;
        }
        i += 1;
    }
    proof {
        assert(a@ =~= b@);
    }
    true
}

impl PartialEq for GitObject {
    /// Two objects are equal when their content hashes are: the hash is
    /// the content-addressing identity.
    fn eq(&self, other: &Self) -> (r: bool) {
        match (&self.sha, &other.sha) {
            (Some(x), Some(y)) => bytes_eq(x, y),
            (None, None) => true,
            _ => false,
        }
    }
}

impl vstd::std_specs::cmp::PartialEqSpecImpl for GitObject {
    open spec fn obeys_eq_spec() -> bool {
        true
    }

    open spec fn eq_spec(&self, other: &GitObject) -> bool {
        spec_sha_eq(*self, *other)
    }
}

impl Eq for GitObject {
}

/// The decimal digits of a mode code, as characters.
pub open spec fn spec_mode_chars(m: Mode) -> Seq<char> {
    match m {
        Mode::FileBlob => seq!['1', '0', '0', '6', '4', '4'],
        Mode::ExeBlob => seq!['1', '0', '0', '7', '5', '5'],
        Mode::SubDir => seq!['4', '0', '0', '0', '0'],
        Mode::SubMod => seq!['1', '6', '0', '0', '0', '0'],
        Mode::SymLink => seq!['1', '2', '0', '0', '0', '0'],
    }
}

/// The word for an object's kind.
pub open spec fn spec_type_chars(o: GitObject) -> Seq<char> {
    match o.obj_type {
        ObjType::Blob { .. } => seq!['b', 'l', 'o', 'b'],
        ObjType::Tree { .. } => seq!['t', 'r', 'e', 'e'],
        ObjType::Commit => seq!['c', 'o', 'm', 'm', 'i', 't'],
    }
}

/// The human-readable line for an object: mode, kind, then the hex hash
/// when one is present, then the path when one is defined.
pub open spec fn spec_full_string(o: GitObject) -> Seq<char> {
    spec_mode_chars(o.mode) + seq![' '] + spec_type_chars(o) + (match o.sha {
        Some(s) => seq![' '] + spec_hex_chars(s@),
        None => Seq::empty(),
    }) + (if has_entry_path(o) {
        seq![' '] + entry_name(o)
    } else {
        Seq::empty()
    })
}

/// Appends all of `b` to `out`.
pub fn push_bytes(out: &mut Vec<u8>, b: &[u8])
    ensures
        final(out)@ == old(out)@ + b@,
{
    let mut i: usize = 0;
    while i < b.len()
        invariant
            0 <= i <= b@.len(),
            out@ == old(out)@ + b@.take(i as int),
        decreases b@.len() - i,
    {
        out.push(b[i]);
        proof {
            assert(old(out)@ + b@.take(i as int) + seq![b@[i as int]] =~= old(out)@ + b@.take(
                i + 1,
            ));
        }
        i += 1;
    }
    proof {
        assert(b@.take(b@.len() as int) =~= b@);
    }
}

impl GitObject {
    /// The object's contribution to its parent tree's byte stream:
    /// `"<mode> <path>\0"` and the raw hash bytes (a single NUL when the
    /// hash is absent).
    pub fn tree_content_bytes(&self) -> (r: Vec<u8>)
        requires
            has_entry_path(*self),
        ensures
            r@ == spec_entry_bytes(*self),
    {
        let mut out = dec_of_usize(self.mode.code());
        out.push(32);
        let name: &str = match &self.obj_type {
            ObjType::Blob { path, .. } => path.as_str(),
            ObjType::Tree { path: Some(path), .. } => path.as_str(),
            ObjType::Tree { path: None, .. } => vstd::pervasive::unreached(),
            ObjType::Commit => vstd::pervasive::unreached(),
        };
        push_bytes(&mut out, name.as_bytes());
        out.push(0);
        match &self.sha {
            Some(s) => push_bytes(&mut out, s.as_slice()),
            None => out.push(0),
        }
        proof {
            assert(out@ =~= spec_entry_bytes(*self));
        }
        out
    }

    /// The human-readable line for an object:
    /// `"<mode> <kind>"`, then the hex hash when one is present, then the
    /// path when one is defined, separated by single spaces.
    pub fn to_full_string(&self) -> (r: String)
        ensures
            r@ == spec_full_string(*self),
    {
        let mut s = String::new();
        let mode_str: &str = match self.mode {
            Mode::FileBlob => "100644",
            Mode::ExeBlob => "100755",
            Mode::SubDir => "40000",
            Mode::SubMod => "160000",
            Mode::SymLink => "120000",
        };
        proof {
            reveal_strlit("100644");
            reveal_strlit("100755");
            reveal_strlit("40000");
            reveal_strlit("160000");
            reveal_strlit("120000");
            assert(mode_str@ =~= spec_mode_chars(self.mode));
        }
        s.append(mode_str);
        let type_str: &str = match &self.obj_type {
            ObjType::Blob { .. } => " blob",
            ObjType::Tree { .. } => " tree",
            ObjType::Commit => " commit",
        };
        proof {
            reveal_strlit(" blob");
            reveal_strlit(" tree");
            reveal_strlit(" commit");
            assert(type_str@ =~= seq![' '] + spec_type_chars(*self));
        }
        s.append(type_str);
        match &self.sha {
            Some(sha) => {
                proof {
                    reveal_strlit(" ");
                    assert(" "@ =~= seq![' ']);
                }
                s.append(" ");
                let hex = hex_encode(sha.as_slice());
                s.append(hex.as_str());
            },
            None => {},
        }
        match &self.obj_type {
            ObjType::Blob { path, .. } => {
                proof {
                    reveal_strlit(" ");
                    assert(" "@ =~= seq![' ']);
                }
                s.append(" ");
                s.append(path.as_str());
            },
            ObjType::Tree { path: Some(path), .. } => {
                proof {
                    reveal_strlit(" ");
                    assert(" "@ =~= seq![' ']);
                }
                s.append(" ");
                s.append(path.as_str());
            },
            _ => {},
        }
        proof {
            assert(s@ =~= spec_full_string(*self));
        }
        s
    }

    /// The object's path component, for objects that have one.
    pub fn as_path_str(&self) -> (r: &str)
        requires
            has_entry_path(*self),
        ensures
            r@ == entry_name(*self),
    {
        match &self.obj_type {
            ObjType::Blob { path, .. } => path.as_str(),
            ObjType::Tree { path: Some(path), .. } => path.as_str(),
            ObjType::Tree { path: None, .. } => vstd::pervasive::unreached(),
            ObjType::Commit => vstd::pervasive::unreached(),
        }
    }
}

} // verus!

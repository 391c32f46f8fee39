//! The laws the library guarantees: parsing is the inverse of the
//! canonical encoder on everything the builder produces, and building is
//! deterministic — independent of the order in which a directory's
//! entries were enumerated — which makes the content hash a pure function
//! of the directory's logical content.

use vstd::prelude::*;
use vstd::utf8::decode_utf8;
use vstd::utf8::encode_utf8;
use vstd::utf8::encode_utf8_decode_utf8;
use vstd::utf8::encode_utf8_valid_utf8;

use crate::model::GitObject;
use crate::model::Mode;
use crate::model::ObjType;
use crate::model::dec_digits;
use crate::model::entry_name;
use crate::model::has_entry_path;
use crate::model::is_mode_code;
use crate::model::lemma_dec_digits_are_digits;
use crate::model::lemma_dec_value_of_digits;
use crate::model::mode_code;
use crate::model::sha_field;
use crate::model::spec_blob_canonical;
use crate::model::spec_entries_bytes;
use crate::model::spec_entry_bytes;
use crate::model::spec_tree_canonical;
use crate::model::spec_tree_tag;
use crate::builder::spec_child_kept;
use crate::builder::spec_kept_children;
use crate::builder::tree_built_from;
use crate::order::lemma_obj_le_same_name;
use crate::order::obj_le;
use crate::order::objs_sorted;
use crate::order::sort_key;
use crate::parse::ParseError;
use crate::parse::ParsedShape;
use crate::parse::RawEntry;
use crate::parse::lemma_spec_find_is;
use crate::parse::mode_field_numeric;
use crate::parse::spec_is_tree_header;
use crate::parse::spec_mode_field;
use crate::parse::spec_mode_of;
use crate::parse::spec_parse;
use crate::parse::spec_parse_entries;
use crate::parse::spec_stream_step;

verus! {

/// What every entry of a freshly built tree satisfies: a defined path
/// whose byte encoding is NUL-free, and a 20-byte content hash.
pub open spec fn entry_encodable(o: GitObject) -> bool {
    &&& has_entry_path(o)
    &&& !sort_key(o).contains(0u8)
    &&& match o.sha {
        Some(s) => s@.len() == 20,
        None => false,
    }
}

/// The byte-level entry that encoding and re-parsing an object yields.
pub open spec fn raw_of(o: GitObject) -> RawEntry {
    RawEntry {
        mode: o.mode,
        name: encode_utf8(entry_name(o)),
        sha: match o.sha {
            Some(s) => Some(s@),
            None => None,
        },
    }
}

/// The byte-level entries for a sequence of objects, in order.
pub open spec fn raws_of(objs: Seq<GitObject>) -> Seq<RawEntry>
    decreases objs.len(),
{
    if objs.len() == 0 {
        Seq::empty()
    } else {
        seq![raw_of(objs[0])] + raws_of(objs.drop_first())
    }
}

/// Each position of `raws_of` is the entry of the object at that position.
pub proof fn lemma_raws_of_index(objs: Seq<GitObject>)
    ensures
        raws_of(objs).len() == objs.len(),
        forall|i: int| 0 <= i < objs.len() ==> raws_of(objs)[i] == raw_of(#[trigger] objs[i]),
    decreases objs.len(),
{
    if objs.len() > 0 {
        let t = objs.drop_first();
        lemma_raws_of_index(t);
        assert(raws_of(objs) == seq![raw_of(objs[0])] + raws_of(t));
        assert forall|i: int| 0 <= i < objs.len() implies raws_of(objs)[i] == raw_of(
            #[trigger] objs[i],
        ) by {
            if i == 0 {
                assert(raws_of(objs)[0] == raw_of(objs[0]));
            } else {
                assert(raws_of(objs)[i] == raws_of(t)[i - 1]);
                assert(t[i - 1] == objs[i]);
            }
        }
    }
}

/// Parsing one entry off an encoded entry followed by anything recovers
/// exactly that entry and consumes exactly its encoding.
proof fn lemma_stream_step_of_entry(o: GitObject, rest: Seq<u8>)
    requires
        entry_encodable(o),
    ensures
        spec_stream_step(spec_entry_bytes(o) + rest) == Ok::<(RawEntry, int), ParseError>(
            (raw_of(o), spec_entry_bytes(o).len() as int),
        ),
{
    let code = mode_code(o.mode);
    let digits = dec_digits(code);
    let name = encode_utf8(entry_name(o));
    let shab = sha_field(o);
    let eb = spec_entry_bytes(o);
    let b = eb + rest;
    lemma_dec_digits_are_digits(code);
    lemma_dec_value_of_digits(code);
    let d = digits.len() as int;
    assert(forall|j: int| 0 <= j < d ==> b[j] == digits[j]);
    assert(b[d] == 32u8);
    assert(forall|j: int| 0 <= j < d ==> b[j] != 32u8);
    lemma_spec_find_is(b, 32u8, d);
    assert(spec_mode_field(b) =~= digits);
    assert(mode_field_numeric(b));
    assert(is_mode_code(code));
    assert(spec_mode_of(code as int) == o.mode);
    let rest1 = b.skip(d + 1);
    assert(rest1 =~= name + seq![0u8] + shab + rest);
    let k = name.len() as int;
    assert forall|j: int| 0 <= j < k implies rest1[j] != 0u8 by {
        if rest1[j] == 0u8 {
            assert(name[j] == 0u8);
            assert(sort_key(o).contains(0u8));
        }
    }
    assert(rest1[k] == 0u8);
    lemma_spec_find_is(rest1, 0u8, k);
    let after = rest1.skip(k + 1);
    assert(after =~= shab + rest);
    assert(shab.len() == 20);
    assert(after.len() >= 20);
    encode_utf8_valid_utf8(entry_name(o));
    assert(rest1.take(k) =~= name);
    assert(after.take(20) =~= shab);
    assert(raw_of(o) == RawEntry { mode: o.mode, name, sha: Some(shab) });
    assert(eb.len() as int == d + 1 + k + 1 + 20);
    assert(spec_stream_step(b) == Ok::<(RawEntry, int), ParseError>(
        (raw_of(o), eb.len() as int),
    ));
}

/// Parsing a concatenation of encoded entries recovers exactly those
/// entries, in order.
pub proof fn lemma_parse_entries_of_encoding(objs: Seq<GitObject>)
    requires
        forall|i: int| 0 <= i < objs.len() ==> entry_encodable(#[trigger] objs[i]),
    ensures
        spec_parse_entries(spec_entries_bytes(objs)) == Ok::<Seq<RawEntry>, ParseError>(
            raws_of(objs),
        ),
    decreases objs.len(),
{
    if objs.len() == 0 {
        assert(spec_entries_bytes(objs) =~= Seq::<u8>::empty());
    } else {
        let head = objs[0];
        let tail = objs.drop_first();
        let eb = spec_entry_bytes(head);
        let body = spec_entries_bytes(objs);
        assert(body == eb + spec_entries_bytes(tail));
        lemma_dec_digits_are_digits(mode_code(head.mode));
        assert(eb.len() > 0);
        assert(body.len() > 0);
        lemma_stream_step_of_entry(head, spec_entries_bytes(tail));
        assert(body.skip(eb.len() as int) =~= spec_entries_bytes(tail));
        assert(forall|i: int| 0 <= i < tail.len() ==> tail[i] == objs[i + 1]);
        lemma_parse_entries_of_encoding(tail);
    }
}

/// Parsing the canonical bytes of a tree with the given entries yields a
/// tree shape with that size and exactly those entries.
pub proof fn lemma_parse_of_tree_encoding(objs: Seq<GitObject>)
    requires
        forall|i: int| 0 <= i < objs.len() ==> entry_encodable(#[trigger] objs[i]),
        spec_entries_bytes(objs).len() <= usize::MAX,
    ensures
        spec_parse(spec_tree_canonical(spec_entries_bytes(objs))) == Ok::<
            ParsedShape,
            ParseError,
        >(
            ParsedShape::TreeShape {
                size: spec_entries_bytes(objs).len(),
                entries: raws_of(objs),
            },
        ),
{
    let body = spec_entries_bytes(objs);
    let n = body.len();
    let digits = dec_digits(n);
    let b = spec_tree_canonical(body);
    lemma_dec_digits_are_digits(n);
    lemma_dec_value_of_digits(n);
    let d = digits.len() as int;
    let h_end = 5 + d;
    assert(forall|j: int| 0 <= j < 5 ==> b[j] == spec_tree_tag()[j]);
    assert(forall|j: int| 5 <= j < h_end ==> b[j] == digits[j - 5]);
    assert(forall|j: int| 0 <= j < h_end ==> b[j] != 0u8);
    assert(b[h_end] == 0u8);
    lemma_spec_find_is(b, 0u8, h_end);
    let h = b.take(h_end);
    assert(h.take(5) =~= spec_tree_tag());
    assert(h.skip(5) =~= digits);
    assert forall|j: int| 0 <= j < h.skip(5).len() implies h.skip(5)[j] != 32u8 by {
        assert(h.skip(5)[j] == digits[j]);
    }
    assert(!h.skip(5).contains(32u8));
    assert(spec_is_tree_header(h));
    assert(b.skip(h_end + 1) =~= body);
    lemma_parse_entries_of_encoding(objs);
}

/// ROUND TRIP: for any tree object whose entries the builder produced —
/// defined NUL-free paths and 20-byte hashes, with the size field equal
/// to the length of the concatenated entry encodings — parsing the
/// canonical tree bytes (what decompressing the stored stream returns)
/// yields exactly one entry per child, with the same mode, the same
/// path, and the same content hash.
pub proof fn lemma_round_trip(o: GitObject)
    requires
        o.mode == Mode::SubDir,
        match o.obj_type {
            ObjType::Tree { size, objs, .. } => {
                &&& size as int == spec_entries_bytes(objs@).len()
                &&& forall|i: int| 0 <= i < objs@.len() ==> entry_encodable(#[trigger] objs@[i])
            },
            _ => false,
        },
    ensures
        match o.obj_type {
            ObjType::Tree { size, objs, .. } => {
                let parsed = spec_parse(spec_tree_canonical(spec_entries_bytes(objs@)));
                &&& parsed == Ok::<ParsedShape, ParseError>(
                    ParsedShape::TreeShape { size: size as nat, entries: raws_of(objs@) },
                )
                &&& raws_of(objs@).len() == objs@.len()
                &&& forall|i: int|
                    0 <= i < objs@.len() ==> {
                        let raw = raws_of(objs@)[i];
                        &&& raw.mode == (#[trigger] objs@[i]).mode
                        &&& decode_utf8(raw.name) == entry_name(objs@[i])
                        &&& raw.sha == Some(sha_field(objs@[i]))
                    }
            },
            _ => false,
        },
{
    match o.obj_type {
        ObjType::Tree { size, objs, .. } => {
            lemma_parse_of_tree_encoding(objs@);
            lemma_raws_of_index(objs@);
            assert forall|i: int| 0 <= i < objs@.len() implies {
                let raw = raws_of(objs@)[i];
                &&& raw.mode == (#[trigger] objs@[i]).mode
                &&& decode_utf8(raw.name) == entry_name(objs@[i])
                &&& raw.sha == Some(sha_field(objs@[i]))
            } by {
                encode_utf8_decode_utf8(entry_name(objs@[i]));
            }
        },
        _ => {},
    }
}

/// ROUND TRIP, composed with the builder: everything `build_tree`
/// promises of its result, together with the 20-byte hashes that its
/// children carry whenever they were themselves built, is exactly what
/// the round trip needs.
pub proof fn lemma_built_tree_round_trip(
    o: GitObject,
    dir: Seq<u8>,
    name: Option<Seq<char>>,
    children: Seq<GitObject>,
    pats: Seq<Seq<u8>>,
)
    requires
        tree_built_from(o, dir, name, children, pats),
        match o.obj_type {
            ObjType::Tree { objs, .. } => forall|i: int|
                0 <= i < objs@.len() ==> (match (#[trigger] objs@[i]).sha {
                    Some(s) => s@.len() == 20,
                    None => false,
                }),
            _ => false,
        },
    ensures
        match o.obj_type {
            ObjType::Tree { size, objs, .. } => spec_parse(
                spec_tree_canonical(spec_entries_bytes(objs@)),
            ) == Ok::<ParsedShape, ParseError>(
                ParsedShape::TreeShape { size: size as nat, entries: raws_of(objs@) },
            ),
            _ => false,
        },
{
    lemma_round_trip(o);
}

/// A longer number never has fewer decimal digits.
proof fn lemma_dec_digits_len_monotonic(m: nat, n: nat)
    requires
        m <= n,
    ensures
        dec_digits(m).len() <= dec_digits(n).len(),
    decreases n,
{
    if n >= 10 && m >= 10 {
        lemma_dec_digits_len_monotonic(m / 10, n / 10);
    }
}

/// CONTENT ADDRESSING, the encoding half: two blobs with different
/// content have different canonical bytes, so distinct content never
/// collides before the digest is even taken.  (That the digest itself
/// never collides is a property of SHA-1, not provable here.)
pub proof fn lemma_blob_canonical_injective(c1: Seq<u8>, c2: Seq<u8>)
    requires
        spec_blob_canonical(c1) == spec_blob_canonical(c2),
    ensures
        c1 == c2,
{
    let b1 = spec_blob_canonical(c1);
    let b2 = spec_blob_canonical(c2);
    let d1 = dec_digits(c1.len()).len();
    let d2 = dec_digits(c2.len()).len();
    if c1.len() < c2.len() {
        lemma_dec_digits_len_monotonic(c1.len(), c2.len());
        assert(b1.len() < b2.len());
        assert(false);
    }
    if c2.len() < c1.len() {
        lemma_dec_digits_len_monotonic(c2.len(), c1.len());
        assert(b2.len() < b1.len());
        assert(false);
    }
    assert(d1 == d2);
    assert forall|i: int| 0 <= i < c1.len() implies c1[i] == c2[i] by {
        assert(b1[6 + d1 + i] == c1[i]);
        assert(b2[6 + d1 + i] == c2[i]);
    }
    assert(c1 =~= c2);
}

/// CONTENT ADDRESSING, the tree half: encodable entry sequences encode
/// injectively.  When two trees have the same canonical bytes, their
/// entries agree — so any change to a child's mode, path, or hash shows
/// in the parent's canonical bytes, and through the parents' hashes in
/// every ancestor.  (That the digest itself never collides is a property
/// of SHA-1, not provable here.)
pub proof fn lemma_tree_canonical_injective(o1: Seq<GitObject>, o2: Seq<GitObject>)
    requires
        forall|i: int| 0 <= i < o1.len() ==> entry_encodable(#[trigger] o1[i]),
        forall|i: int| 0 <= i < o2.len() ==> entry_encodable(#[trigger] o2[i]),
        spec_tree_canonical(spec_entries_bytes(o1)) == spec_tree_canonical(spec_entries_bytes(o2)),
    ensures
        raws_of(o1) == raws_of(o2),
{
    let b1 = spec_entries_bytes(o1);
    let b2 = spec_entries_bytes(o2);
    if b1.len() < b2.len() {
        lemma_dec_digits_len_monotonic(b1.len(), b2.len());
        assert(spec_tree_canonical(b1).len() < spec_tree_canonical(b2).len());
        assert(false);
    }
    if b2.len() < b1.len() {
        lemma_dec_digits_len_monotonic(b2.len(), b1.len());
        assert(spec_tree_canonical(b2).len() < spec_tree_canonical(b1).len());
        assert(false);
    }
    let d = dec_digits(b1.len()).len();
    assert forall|i: int| 0 <= i < b1.len() implies b1[i] == b2[i] by {
        assert(spec_tree_canonical(b1)[6 + d + i] == b1[i]);
        assert(spec_tree_canonical(b2)[6 + d + i] == b2[i]);
    }
    assert(b1 =~= b2);
    lemma_parse_entries_of_encoding(o1);
    lemma_parse_entries_of_encoding(o2);
}

/// No two entries share a path.
pub open spec fn distinct_names(s: Seq<GitObject>) -> bool {
    forall|i: int, j: int|
        0 <= i < j < s.len() ==> entry_name(#[trigger] s[i]) != entry_name(#[trigger] s[j])
}

/// Two sorted sequences holding the same objects, all with defined paths
/// and no path repeated, are the same sequence.
pub proof fn lemma_sorted_unique(l1: Seq<GitObject>, l2: Seq<GitObject>)
    requires
        objs_sorted(l1),
        objs_sorted(l2),
        l1.to_multiset() == l2.to_multiset(),
        forall|i: int| 0 <= i < l1.len() ==> has_entry_path(#[trigger] l1[i]),
        forall|i: int| 0 <= i < l2.len() ==> has_entry_path(#[trigger] l2[i]),
        distinct_names(l1),
    ensures
        l1 == l2,
    decreases l1.len(),
{
    broadcast use vstd::seq_lib::group_to_multiset_ensures;

    assert(l1.to_multiset().len() == l1.len());
    assert(l2.to_multiset().len() == l2.len());
    if l1.len() == 0 {
        assert(l1 =~= l2);
    } else {
        assert(l2.contains(l2[0]));
        assert(l1.to_multiset().count(l2[0]) > 0);
        assert(l1.contains(l2[0]));
        let k = choose|k: int| 0 <= k < l1.len() && l1[k] == l2[0];
        assert(l1.contains(l1[0]));
        assert(l2.to_multiset().count(l1[0]) > 0);
        assert(l2.contains(l1[0]));
        let m = choose|m: int| 0 <= m < l2.len() && l2[m] == l1[0];
        if l1[0] != l2[0] {
            assert(k > 0);
            assert(m > 0);
            assert(obj_le(l1[0], l1[k]));
            assert(obj_le(l2[0], l2[m]));
            lemma_obj_le_same_name(l1[0], l1[k]);
            assert(entry_name(l1[0]) == entry_name(l1[k]));
            assert(false);
        }
        let t1 = l1.drop_first();
        let t2 = l2.drop_first();
        assert(t1 =~= l1.remove(0));
        assert(t2 =~= l2.remove(0));
        vstd::seq_lib::to_multiset_remove(l1, 0);
        vstd::seq_lib::to_multiset_remove(l2, 0);
        assert(t1.to_multiset() == t2.to_multiset());
        assert(forall|i: int| 0 <= i < t1.len() ==> #[trigger] t1[i] == l1[i + 1]);
        assert(forall|i: int| 0 <= i < t2.len() ==> #[trigger] t2[i] == l2[i + 1]);
        lemma_sorted_unique(t1, t2);
        assert forall|i: int| 0 <= i < l1.len() implies l1[i] == l2[i] by {
            if i > 0 {
                assert(t1[i - 1] == l1[i]);
                assert(t2[i - 1] == l2[i]);
                assert(t1[i - 1] == t2[i - 1]);
            }
        }
        assert(l1 =~= l2);
    }
}

/// Removing one child removes at most its own contribution to the
/// surviving children.
proof fn lemma_kept_remove(dir: Seq<u8>, pats: Seq<Seq<u8>>, s: Seq<GitObject>, j: int)
    requires
        0 <= j < s.len(),
    ensures
        spec_kept_children(dir, pats, s).to_multiset() == (if spec_child_kept(dir, pats, s[j]) {
            spec_kept_children(dir, pats, s.remove(j)).to_multiset().insert(s[j])
        } else {
            spec_kept_children(dir, pats, s.remove(j)).to_multiset()
        }),
    decreases s.len(),
{
    broadcast use vstd::seq_lib::group_to_multiset_ensures;

    let last = s.last();
    let dl = s.drop_last();
    if j == s.len() - 1 {
        assert(s.remove(j) =~= dl);
    } else {
        let r = s.remove(j);
        assert(r.last() == last);
        assert(r.drop_last() =~= dl.remove(j));
        assert(dl[j] == s[j]);
        lemma_kept_remove(dir, pats, dl, j);
        if spec_child_kept(dir, pats, last) {
            assert(spec_kept_children(dir, pats, s) == spec_kept_children(dir, pats, dl).push(
                last,
            ));
            assert(spec_kept_children(dir, pats, r) == spec_kept_children(
                dir,
                pats,
                dl.remove(j),
            ).push(last));
            if spec_child_kept(dir, pats, s[j]) {
                assert(spec_kept_children(dir, pats, s).to_multiset() =~= spec_kept_children(
                    dir,
                    pats,
                    r,
                ).to_multiset().insert(s[j]));
            }
        }
    }
}

/// Which children survive, as a multiset, depends only on which children
/// there are — not on the order a directory walk delivered them in.
pub proof fn lemma_kept_multiset(
    dir: Seq<u8>,
    pats: Seq<Seq<u8>>,
    c1: Seq<GitObject>,
    c2: Seq<GitObject>,
)
    requires
        c1.to_multiset() == c2.to_multiset(),
    ensures
        spec_kept_children(dir, pats, c1).to_multiset() == spec_kept_children(
            dir,
            pats,
            c2,
        ).to_multiset(),
    decreases c1.len(),
{
    broadcast use vstd::seq_lib::group_to_multiset_ensures;

    assert(c1.to_multiset().len() == c1.len());
    assert(c2.to_multiset().len() == c2.len());
    if c1.len() == 0 {
        assert(c2.len() == 0);
    } else {
        let x = c1.last();
        let c1d = c1.drop_last();
        assert(c1.contains(x));
        assert(c2.to_multiset().count(x) > 0);
        assert(c2.contains(x));
        let j = choose|j: int| 0 <= j < c2.len() && c2[j] == x;
        let c2r = c2.remove(j);
        assert(c1d =~= c1.remove(c1.len() - 1));
        vstd::seq_lib::to_multiset_remove(c1, c1.len() - 1);
        vstd::seq_lib::to_multiset_remove(c2, j);
        assert(c1d.to_multiset() == c2r.to_multiset());
        lemma_kept_multiset(dir, pats, c1d, c2r);
        lemma_kept_remove(dir, pats, c2, j);
        if spec_child_kept(dir, pats, x) {
            assert(spec_kept_children(dir, pats, c1) == spec_kept_children(dir, pats, c1d).push(
                x,
            ));
        }
    }
}

/// IGNORE FILTERING: a child whose path matches an ignore pattern never
/// survives into the built tree's children, whatever else the directory
/// holds — so the tree's size and child count exclude it entirely.
pub proof fn lemma_ignored_child_left_out(
    dir: Seq<u8>,
    pats: Seq<Seq<u8>>,
    children: Seq<GitObject>,
    c: GitObject,
)
    requires
        !spec_child_kept(dir, pats, c),
    ensures
        !spec_kept_children(dir, pats, children).contains(c),
    decreases children.len(),
{
    if children.len() > 0 {
        lemma_ignored_child_left_out(dir, pats, children.drop_last(), c);
        let kept = spec_kept_children(dir, pats, children);
        let keptd = spec_kept_children(dir, pats, children.drop_last());
        if kept.contains(c) {
            let i = choose|i: int| 0 <= i < kept.len() && kept[i] == c;
            if spec_child_kept(dir, pats, children.last()) && i == kept.len() - 1 {
                assert(c == children.last());
                assert(false);
            } else {
                assert(keptd.contains(c));
                assert(false);
            }
        }
    }
}

/// DETERMINISM AND CONTENT ADDRESSING: two builds of the same directory
/// content — the same name and the same children, however the filesystem
/// walk ordered them — produce the same entries in the same order, the
/// same size, and the same content hash.  The hypothesis that no two
/// surviving children share a path is what a real directory guarantees.
pub proof fn lemma_build_deterministic(
    o1: GitObject,
    o2: GitObject,
    dir: Seq<u8>,
    name: Option<Seq<char>>,
    c1: Seq<GitObject>,
    c2: Seq<GitObject>,
    pats: Seq<Seq<u8>>,
)
    requires
        tree_built_from(o1, dir, name, c1, pats),
        tree_built_from(o2, dir, name, c2, pats),
        c1.to_multiset() == c2.to_multiset(),
        match o1.obj_type {
            ObjType::Tree { objs, .. } => distinct_names(objs@),
            _ => false,
        },
    ensures
        match (o1.obj_type, o2.obj_type) {
            (
                ObjType::Tree { size: s1, objs: g1, .. },
                ObjType::Tree { size: s2, objs: g2, .. },
            ) => {
                &&& g1@ == g2@
                &&& s1 == s2
                &&& match (o1.sha, o2.sha) {
                    (Some(a), Some(b)) => a@ == b@,
                    _ => false,
                }
            },
            _ => false,
        },
{
    lemma_kept_multiset(dir, pats, c1, c2);
    match (o1.obj_type, o2.obj_type) {
        (ObjType::Tree { objs: g1, .. }, ObjType::Tree { objs: g2, .. }) => {
            lemma_sorted_unique(g1@, g2@);
        },
        _ => {},
    }
}

} // verus!

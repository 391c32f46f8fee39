//! The total order over objects used to sort a tree's children, and a
//! sort that establishes it.
//!
//! Two entries with defined paths compare by path, ascibetically
//! (byte-wise); when the paths tie, kind breaks the tie, with a tree
//! strictly preceding a blob.  The remaining cross-kind cases reproduce a
//! fixed table: a pathless tree (only ever the synthetic root) sorts
//! before trees and blobs, a commit sorts before blobs and trees, and a
//! blob sorts after both when paths cannot decide.

use vstd::prelude::*;
use vstd::utf8::encode_utf8;
use vstd::utf8::encode_utf8_decode_utf8;

use crate::model::GitObject;
use crate::model::ObjType;
use crate::model::entry_name;
use crate::model::has_entry_path;

verus! {

/// Byte-wise (ascibetical) lexicographic order: `a` is less than or equal
/// to `b` when `a` is a prefix of `b` or the first differing byte is
/// smaller in `a`.
pub open spec fn lex_le(a: Seq<u8>, b: Seq<u8>) -> bool
    decreases a.len(),
{
    if a.len() == 0 {
        true
    } else if b.len() == 0 {
        false
    } else if a[0] < b[0] {
        true
    } else if a[0] > b[0] {
        false
    } else {
        lex_le(a.drop_first(), b.drop_first())
    }
}

/// Any two byte sequences are comparable.
pub proof fn lemma_lex_le_total(a: Seq<u8>, b: Seq<u8>)
    ensures
        lex_le(a, b) || lex_le(b, a),
    decreases a.len(),
{
    if a.len() > 0 && b.len() > 0 && a[0] == b[0] {
        lemma_lex_le_total(a.drop_first(), b.drop_first());
    }
}

/// The lexicographic order is transitive.
pub proof fn lemma_lex_le_trans(a: Seq<u8>, b: Seq<u8>, c: Seq<u8>)
    requires
        lex_le(a, b),
        lex_le(b, c),
    ensures
        lex_le(a, c),
    decreases a.len(),
{
    if a.len() > 0 && b.len() > 0 && c.len() > 0 && a[0] == b[0] && b[0] == c[0] {
        lemma_lex_le_trans(a.drop_first(), b.drop_first(), c.drop_first());
    }
}

/// Mutually ordered byte sequences are equal.
pub proof fn lemma_lex_le_antisymmetric(a: Seq<u8>, b: Seq<u8>)
    requires
        lex_le(a, b),
        lex_le(b, a),
    ensures
        a == b,
    decreases a.len(),
{
    if a.len() == 0 {
        assert(b.len() == 0);
        assert(a =~= b);
    } else {
        lemma_lex_le_antisymmetric(a.drop_first(), b.drop_first());
        assert(a =~= seq![a[0]] + a.drop_first());
        assert(b =~= seq![b[0]] + b.drop_first());
    }
}

/// The path an object sorts by: the byte encoding of its entry path.
pub open spec fn sort_key(o: GitObject) -> Seq<u8>
    recommends
        has_entry_path(o),
{
    encode_utf8(entry_name(o))
}

/// The rank that breaks a tie when paths are equal: a tree strictly
/// precedes a blob.  A commit never carries an entry path, so its place
/// here is the implementation-defined placeholder the format leaves open.
pub open spec fn kind_rank(o: GitObject) -> int {
    match o.obj_type {
        ObjType::Tree { .. } => 0,
        ObjType::Blob { .. } => 1,
        ObjType::Commit => 2,
    }
}

/// The total order over objects: entries with defined paths compare by
/// path bytes, with kind as the tie-break on equal paths (a tree before a
/// blob); the remaining cases follow the fixed cross-kind table.
pub open spec fn obj_le(a: GitObject, b: GitObject) -> bool {
    if has_entry_path(a) && has_entry_path(b) {
        if sort_key(a) == sort_key(b) {
            kind_rank(a) <= kind_rank(b)
        } else {
            lex_le(sort_key(a), sort_key(b))
        }
    } else {
        match (a.obj_type, b.obj_type) {
            (ObjType::Blob { .. }, _) => false,
            (ObjType::Tree { .. }, ObjType::Tree { .. }) => !has_entry_path(a),
            (ObjType::Tree { .. }, ObjType::Blob { .. }) => true,
            (ObjType::Tree { .. }, ObjType::Commit) => false,
            (ObjType::Commit, _) => true,
        }
    }
}

/// Entries with defined paths are always comparable.
pub proof fn lemma_obj_le_total(a: GitObject, b: GitObject)
    requires
        has_entry_path(a),
        has_entry_path(b),
    ensures
        obj_le(a, b) || obj_le(b, a),
{
    lemma_lex_le_total(sort_key(a), sort_key(b));
}

/// The order is transitive over entries with defined paths.
pub proof fn lemma_obj_le_trans(a: GitObject, b: GitObject, c: GitObject)
    requires
        has_entry_path(a),
        has_entry_path(b),
        has_entry_path(c),
        obj_le(a, b),
        obj_le(b, c),
    ensures
        obj_le(a, c),
{
    let ka = sort_key(a);
    let kb = sort_key(b);
    let kc = sort_key(c);
    if ka != kb && kb != kc {
        lemma_lex_le_trans(ka, kb, kc);
        if ka == kc {
            lemma_lex_le_antisymmetric(ka, kb);
            assert(false);
        }
    }
}

/// Entries with defined paths that sort both ways have the same path.
pub proof fn lemma_obj_le_same_name(a: GitObject, b: GitObject)
    requires
        has_entry_path(a),
        has_entry_path(b),
        obj_le(a, b),
        obj_le(b, a),
    ensures
        entry_name(a) == entry_name(b),
{
    if sort_key(a) != sort_key(b) {
        lemma_lex_le_antisymmetric(sort_key(a), sort_key(b));
    }
    encode_utf8_decode_utf8(entry_name(a));
    encode_utf8_decode_utf8(entry_name(b));
}

/// Whether a sequence of objects is sorted by the object order.
pub open spec fn objs_sorted(s: Seq<GitObject>) -> bool {
    forall|i: int, j: int| 0 <= i < j < s.len() ==> obj_le(#[trigger] s[i], #[trigger] s[j])
}

/// Whether two byte slices hold the same bytes.
fn slice_eq(a: &[u8], b: &[u8]) -> (r: bool)
    ensures
        r == (a@ == b@),
{
    let n = a.len();
    if n != b.len() {
        proof {
            assert(a@ != b@);
        }
        return false;
    }
    let mut i: usize = 0;
    while i < n
        invariant
            0 <= i <= n,
            n == a@.len() == b@.len(),
            forall|j: int| 0 <= j < i ==> a@[j] == b@[j],
        decreases n - i,
    {
        if a[i] != b[i] {
            proof {
                assert(a@[i as int] != b@[i as int]);
            }
            return false;
        }
        i += 1;
    }
    proof {
        assert(a@ =~= b@);
    }
    true
}

/// The rank that breaks a tie when paths are equal.
fn kind_rank_exec(o: &GitObject) -> (r: usize)
    ensures
        r as int == kind_rank(*o),
{
    match &o.obj_type {
        ObjType::Tree { .. } => 0,
        ObjType::Blob { .. } => 1,
        ObjType::Commit => 2,
    }
}

/// Decides the object order for two entries with defined paths.
pub fn obj_le_exec(a: &GitObject, b: &GitObject) -> (r: bool)
    requires
        has_entry_path(*a),
        has_entry_path(*b),
    ensures
        r == obj_le(*a, *b),
{
    let ka = a.as_path_str().as_bytes();
    let kb = b.as_path_str().as_bytes();
    if slice_eq(ka, kb) {
        kind_rank_exec(a) <= kind_rank_exec(b)
    } else {
        bytes_le(ka, kb)
    }
}

/// The lexicographic order over two common-prefix tails decides the order
/// over the whole sequences.
proof fn lemma_lex_le_common_prefix(a: Seq<u8>, b: Seq<u8>, i: int)
    requires
        0 <= i <= a.len(),
        i <= b.len(),
        forall|j: int| 0 <= j < i ==> a[j] == b[j],
    ensures
        lex_le(a, b) == lex_le(a.skip(i), b.skip(i)),
    decreases i,
{
    if i == 0 {
        assert(a.skip(0) =~= a);
        assert(b.skip(0) =~= b);
    } else {
        assert(a.len() > 0 && b.len() > 0 && a[0] == b[0]);
        assert(lex_le(a, b) == lex_le(a.drop_first(), b.drop_first()));
        let a1 = a.drop_first();
        let b1 = b.drop_first();
        assert(forall|j: int| 0 <= j < i - 1 ==> a1[j] == b1[j]);
        lemma_lex_le_common_prefix(a1, b1, i - 1);
        assert(a1.skip(i - 1) =~= a.skip(i));
        assert(b1.skip(i - 1) =~= b.skip(i));
    }
}

/// Decides the lexicographic byte order.
fn bytes_le(a: &[u8], b: &[u8]) -> (r: bool)
    ensures
        r == lex_le(a@, b@),
{
    let na = a.len();
    let nb = b.len();
    let mut i: usize = 0;
    while i < na && i < nb && a[i] == b[i]
        invariant
            0 <= i <= na,
            i <= nb,
            na == a@.len(),
            nb == b@.len(),
            forall|j: int| 0 <= j < i ==> a@[j] == b@[j],
        decreases na - i,
    {
        i += 1;
    }
    proof {
        lemma_lex_le_common_prefix(a@, b@, i as int);
    }
    if i == na {
        proof {
            assert(a@.skip(i as int) =~= Seq::<u8>::empty());
        }
        true
    } else if i == nb {
        proof {
            assert(b@.skip(i as int) =~= Seq::<u8>::empty());
            assert(a@.skip(i as int).len() > 0);
        }
        false
    } else {
        proof {
            assert(a@.skip(i as int)[0] == a@[i as int]);
            assert(b@.skip(i as int)[0] == b@[i as int]);
        }
        a[i] < b[i]
    }
}

/// Sorts objects by the object order.  The result is sorted and holds
/// exactly the same objects (as a multiset) as before.
#[verifier::loop_isolation(false)]
pub fn sort_objs(v: &mut Vec<GitObject>)
    requires
        forall|k: int| 0 <= k < old(v)@.len() ==> has_entry_path(#[trigger] old(v)@[k]),
    ensures
        final(v)@.len() == old(v)@.len(),
        final(v)@.to_multiset() == old(v)@.to_multiset(),
        objs_sorted(final(v)@),
        forall|k: int| 0 <= k < final(v)@.len() ==> has_entry_path(#[trigger] final(v)@[k]),
{
    broadcast use vstd::seq_lib::to_multiset_remove;
    broadcast use vstd::seq_lib::to_multiset_insert;
    broadcast use vstd::seq_lib::group_to_multiset_ensures;

    if v.len() <= 1 {
        return ;
    }
    let mut i: usize = 1;
    while i < v.len()
        invariant
            1 <= i <= v@.len(),
            v@.len() == old(v)@.len(),
            v@.to_multiset() == old(v)@.to_multiset(),
            forall|k: int| 0 <= k < v@.len() ==> has_entry_path(#[trigger] v@[k]),
            forall|k: int, l: int| 0 <= k < l < i ==> obj_le(#[trigger] v@[k], #[trigger] v@[l]),
        decreases v@.len() - i,
    {
        let ghost before = v@;
        let x = v.remove(i);
        proof {
            assert(before.remove(i as int).push(before[i as int]).to_multiset()
                == before.remove(i as int).to_multiset().insert(before[i as int]));
        }
        let mut j: usize = i;
        while j > 0 && !obj_le_exec(&v[j - 1], &x)
            invariant
                0 <= j <= i,
                v@ == before.remove(i as int),
                forall|k: int| j <= k < i ==> obj_le(x, #[trigger] v@[k]),
            decreases j,
        {
            proof {
                lemma_obj_le_total(v@[j - 1], x);
            }
            j -= 1;
        }
        v.insert(j, x);
        proof {
            let after = before.remove(i as int).insert(j as int, x);
            assert(v@ == after);
            assert(v@.to_multiset() =~= before.to_multiset());
            assert forall|k: int, l: int| 0 <= k < l < i + 1 implies obj_le(
                #[trigger] v@[k],
                #[trigger] v@[l],
            ) by {
                let prev = before.remove(i as int);
                if k < j && l == j {
                    assert(v@[k] == before[k]);
                    assert(prev[j - 1] == before[j - 1]);
                    assert(obj_le(before[j - 1], x));
                    if k < j - 1 {
                        assert(obj_le(before[k], before[j - 1]));
                        lemma_obj_le_trans(before[k], before[j - 1], x);
                    }
                } else if k == j {
                    assert(v@[l] == prev[l - 1]);
                    assert(obj_le(x, prev[l - 1]));
                } else if k < j && l > j {
                    assert(v@[k] == before[k]);
                    assert(v@[l] == prev[l - 1]);
                    assert(prev[l - 1] == before[l - 1]);
                } else if k > j {
                    assert(v@[k] == prev[k - 1]);
                    assert(v@[l] == prev[l - 1]);
                    assert(prev[k - 1] == before[k - 1]);
                    assert(prev[l - 1] == before[l - 1]);
                } else {
                    assert(v@[k] == before[k]);
                    assert(v@[l] == before[l]);
                }
            }
        }
        i += 1;
    }
}

} // verus!

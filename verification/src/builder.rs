//! The tree builder: turns one level of a directory snapshot into a fully
//! encoded, hashed and compressed object.
//!
//! A file becomes a blob object whose canonical bytes are hashed and whose
//! compressed form is retained; a directory becomes a tree object over its
//! already-built children, after dropping ignored ones and sorting the
//! rest.  The caller walks the filesystem and feeds each level in;
//! persistence is the caller's concern.

use vstd::prelude::*;

use crate::ext::deflate_of;
use crate::ext::sha1_digest;
use crate::ext::sha1_of;
use crate::ext::zlib_compress;
use crate::ignore::IgnoreList;
use crate::ignore::path_in_ignore;
use crate::ignore::spec_ignored;
use crate::model::GitObject;
use crate::model::Mode;
use crate::model::ObjType;
use crate::model::has_entry_path;
use crate::model::push_bytes;
use crate::model::spec_blob_canonical;
use crate::model::spec_entries_bytes;
use crate::model::spec_tree_canonical;
use crate::model::dec_of_usize;
use crate::model::lemma_entries_bytes_push;
use crate::order::objs_sorted;
use crate::order::sort_key;
use crate::order::sort_objs;
use crate::parse::find_byte;

verus! {

/// Why a build step failed.
#[derive(Clone, Copy, Debug, PartialEq, Eq, Structural)]
pub enum BuildError {
    /// A surviving child's path encoding contains a NUL byte, which the
    /// entry encoding cannot frame.
    NameWithNul,
}

/// Computes the content hash of canonical bytes and the compressed stream
/// to persist.  The hash is taken over the canonical bytes themselves, so
/// it does not depend on the compression setting.
pub fn compress_and_hash(bytes: &[u8]) -> (r: (Vec<u8>, Vec<u8>))
    ensures
        r.0@ == sha1_of(bytes@),
        r.0@.len() == 20,
        r.1@ == deflate_of(bytes@),
{
    let sha = sha1_digest(bytes);
    let compressed = zlib_compress(bytes);
    (sha, compressed)
}

/// What a freshly built blob object looks like: mode for a regular file,
/// the file's name as its path, the compressed canonical bytes as its
/// content, and the hash of the canonical bytes.
pub open spec fn blob_built_from(o: GitObject, name: Seq<char>, content: Seq<u8>) -> bool {
    &&& o.mode == Mode::FileBlob
    &&& match o.obj_type {
        ObjType::Blob { path, content: c } => path@ == name && c@ == deflate_of(
            spec_blob_canonical(content),
        ),
        _ => false,
    }
    &&& match o.sha {
        Some(s) => s@ == sha1_of(spec_blob_canonical(content)) && s@.len() == 20,
        None => false,
    }
}

/// The textual path of a child inside a directory, as the ignore matcher
/// sees it: the directory's path, a slash, and the child's name, with a
/// trailing slash when the child is itself a tree.
pub open spec fn spec_child_path(dir: Seq<u8>, c: GitObject) -> Seq<u8> {
    let base = dir + seq![47u8] + sort_key(c);
    match c.obj_type {
        ObjType::Tree { .. } => base + seq![47u8],
        _ => base,
    }
}

/// Whether a child survives ignore filtering inside a directory.
pub open spec fn spec_child_kept(dir: Seq<u8>, pats: Seq<Seq<u8>>, c: GitObject) -> bool {
    !spec_ignored(spec_child_path(dir, c), pats)
}

/// The children that survive ignore filtering, in their given order.
pub open spec fn spec_kept_children(
    dir: Seq<u8>,
    pats: Seq<Seq<u8>>,
    children: Seq<GitObject>,
) -> Seq<GitObject>
    decreases children.len(),
{
    if children.len() == 0 {
        Seq::empty()
    } else {
        let rest = spec_kept_children(dir, pats, children.drop_last());
        if spec_child_kept(dir, pats, children.last()) {
            rest.push(children.last())
        } else {
            rest
        }
    }
}

/// What a freshly built tree object looks like: mode for a subdirectory,
/// the given name as its path, exactly the surviving children in sorted
/// order, the byte length of their concatenated entry encodings as its
/// size, and the hash of the canonical tree bytes.
pub open spec fn tree_built_from(
    o: GitObject,
    dir: Seq<u8>,
    name: Option<Seq<char>>,
    children: Seq<GitObject>,
    pats: Seq<Seq<u8>>,
) -> bool {
    let kept = spec_kept_children(dir, pats, children);
    &&& o.mode == Mode::SubDir
    &&& match o.obj_type {
        ObjType::Tree { path, size, objs } => {
            &&& match (path, name) {
                (Some(p), Some(nm)) => p@ == nm,
                (None, None) => true,
                _ => false,
            }
            &&& objs@.to_multiset() == kept.to_multiset()
            &&& objs_sorted(objs@)
            &&& size as int == spec_entries_bytes(objs@).len()
            &&& forall|i: int|
                0 <= i < objs@.len() ==> has_entry_path(#[trigger] objs@[i]) && !sort_key(
                    objs@[i],
                ).contains(0u8)
            &&& match o.sha {
                Some(s) => s@ == sha1_of(spec_tree_canonical(spec_entries_bytes(objs@)))
                    && s@.len() == 20,
                None => false,
            }
        },
        _ => false,
    }
}

impl GitObject {
    /// Builds a blob object for a regular file with the given name and
    /// content: encodes `"blob <len>\0" + content`, hashes it, and keeps
    /// the compressed form as the object's content.
    pub fn build_blob(name: String, content: Vec<u8>) -> (o: GitObject)
        ensures
            blob_built_from(o, name@, content@),
    {
        // "blob " as bytes
        let mut canon: Vec<u8> = Vec::new();
        canon.push(98);
        canon.push(108);
        canon.push(111);
        canon.push(98);
        canon.push(32);
        let digits = dec_of_usize(content.len());
        push_bytes(&mut canon, digits.as_slice());
        canon.push(0);
        push_bytes(&mut canon, content.as_slice());
        proof {
            assert(canon@ =~= spec_blob_canonical(content@));
        }
        let (sha, compressed) = compress_and_hash(canon.as_slice());
        GitObject {
            mode: Mode::FileBlob,
            obj_type: ObjType::Blob { path: name, content: compressed },
            sha: Some(sha),
        }
    }

    /// Builds a tree object for a directory with the given textual path,
    /// name, and already-built children: drops ignored children, sorts
    /// the rest, concatenates their entry encodings, and hashes the
    /// canonical tree bytes.  Fails exactly when a surviving child's path
    /// encoding contains a NUL byte, which the entry encoding cannot
    /// frame.
    #[verifier::loop_isolation(false)]
    pub fn build_tree(
        dir_path: &Vec<u8>,
        name: Option<String>,
        children: Vec<GitObject>,
        ignore: &IgnoreList,
    ) -> (r: Result<GitObject, BuildError>)
        requires
            forall|i: int| 0 <= i < children@.len() ==> has_entry_path(#[trigger] children@[i]),
        ensures
            r matches Ok(o) ==> tree_built_from(
                o,
                dir_path@,
                match name {
                    Some(nm) => Some(nm@),
                    None => None,
                },
                children@,
                ignore.view_patterns(),
            ),
            r is Err <==> (exists|i: int|
                0 <= i < spec_kept_children(dir_path@, ignore.view_patterns(), children@).len()
                    && sort_key(
                    #[trigger] spec_kept_children(
                        dir_path@,
                        ignore.view_patterns(),
                        children@,
                    )[i],
                ).contains(0u8)),
            r is Err ==> r == Err::<GitObject, BuildError>(BuildError::NameWithNul),
    {
        broadcast use vstd::seq_lib::group_to_multiset_ensures;

        let ghost all = children@;
        let ghost pats = ignore.view_patterns();
        let mut rem = children;
        let mut kept: Vec<GitObject> = Vec::new();
        proof {
            assert(kept@ =~= spec_kept_children(dir_path@, pats, all.take(0)));
        }
        while rem.len() > 0
            invariant
                rem@.len() <= all.len(),
                rem@ =~= all.skip(all.len() - rem@.len()),
                kept@ == spec_kept_children(dir_path@, pats, all.take(all.len() - rem@.len())),
                forall|i: int| 0 <= i < kept@.len() ==> has_entry_path(#[trigger] kept@[i]),
            decreases rem@.len(),
        {
            let ghost done = all.len() - rem@.len();
            let c = rem.remove(0);
            proof {
                assert(c == all[done]);
                assert(rem@ =~= all.skip(all.len() - rem@.len()));
            }
            // the child's textual path: dir, '/', name, and a trailing
            // '/' when the child is itself a tree
            let mut p: Vec<u8> = Vec::new();
            push_bytes(&mut p, dir_path.as_slice());
            p.push(47);
            push_bytes(&mut p, c.as_path_str().as_bytes());
            let is_dir = match &c.obj_type {
                ObjType::Tree { .. } => true,
                _ => false,
            };
            if is_dir {
                p.push(47);
            }
            proof {
                assert(p@ =~= spec_child_path(dir_path@, c));
            }
            let keep = !path_in_ignore(&p, ignore);
            if keep {
                kept.push(c);
            }
            proof {
                assert(all.take(done + 1) =~= all.take(done).push(all[done]));
                assert(all.take(done + 1).drop_last() =~= all.take(done));
                assert(all.take(done + 1).last() == all[done]);
            }
        }
        proof {
            assert(all.take(all.len() as int) =~= all);
        }
        let ghost kept_spec = spec_kept_children(dir_path@, pats, all);
        let mut sorted = kept;
        sort_objs(&mut sorted);
        let mut i: usize = 0;
        while i < sorted.len()
            invariant
                0 <= i <= sorted@.len(),
                forall|k: int| 0 <= k < i ==> !sort_key(#[trigger] sorted@[k]).contains(0u8),
            decreases sorted@.len() - i,
        {
            let key = sorted[i].as_path_str().as_bytes();
            if let Some(_) = find_byte(key, 0) {
                proof {
                    crate::parse::lemma_spec_find(key@, 0u8);
                    assert(sort_key(sorted@[i as int]).contains(0u8));
                    assert(kept_spec.to_multiset().contains(sorted@[i as int]));
                    assert(kept_spec.contains(sorted@[i as int]));
                }
                return Err(BuildError::NameWithNul);
            }
            proof {
                crate::parse::lemma_spec_find(key@, 0u8);
            }
            i += 1;
        }
        proof {
            assert forall|k: int|
                0 <= k < kept_spec.len() implies !sort_key(#[trigger] kept_spec[k]).contains(
                0u8,
            ) by {
                assert(kept_spec.to_multiset().contains(kept_spec[k]));
                assert(sorted@.to_multiset().contains(kept_spec[k]));
                assert(sorted@.contains(kept_spec[k]));
            }
        }
        let mut body: Vec<u8> = Vec::new();
        let mut j: usize = 0;
        proof {
            assert(sorted@.take(0) =~= Seq::<GitObject>::empty());
        }
        while j < sorted.len()
            invariant
                0 <= j <= sorted@.len(),
                body@ == spec_entries_bytes(sorted@.take(j as int)),
            decreases sorted@.len() - j,
        {
            let entry = sorted[j].tree_content_bytes();
            push_bytes(&mut body, entry.as_slice());
            proof {
                assert(sorted@.take(j + 1) =~= sorted@.take(j as int).push(sorted@[j as int]));
                lemma_entries_bytes_push(sorted@.take(j as int), sorted@[j as int]);
            }
            j += 1;
        }
        proof {
            assert(sorted@.take(sorted@.len() as int) =~= sorted@);
        }
        let size = body.len();
        // "tree " as bytes
        let mut canon: Vec<u8> = Vec::new();
        canon.push(116);
        canon.push(114);
        canon.push(101);
        canon.push(101);
        canon.push(32);
        let digits = dec_of_usize(size);
        push_bytes(&mut canon, digits.as_slice());
        canon.push(0);
        push_bytes(&mut canon, body.as_slice());
        proof {
            assert(canon@ =~= spec_tree_canonical(spec_entries_bytes(sorted@)));
        }
        let (sha, _compressed) = compress_and_hash(canon.as_slice());
        Ok(
            GitObject {
                mode: Mode::SubDir,
                obj_type: ObjType::Tree { path: name, size, objs: sorted },
                sha: Some(sha),
            },
        )
    }
}

} // verus!

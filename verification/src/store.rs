//! The metadata store logic: the tolerant scan over a directory's sidecar
//! files that finds the record claiming a source document's content hash,
//! or synthesizes a fresh record when none does.
//!
//! The store is keyed by content hash, not by filename, so renaming or
//! moving the source document never orphans its annotations. Reading the
//! directory and hashing the file are the caller's work; the scan itself is
//! a pure function over the candidates' bytes.

use vstd::prelude::*;
use crate::codec::{decode_meta, spec_decode_meta};
use crate::meta::{fresh_meta_model, SourceMeta};

verus! {

/// One candidate sidecar file found in the metadata directory: its path
/// and its raw contents.
pub struct SidecarFile {
    pub path: Vec<u8>,
    pub data: Vec<u8>,
}

/// Whether a candidate sidecar holds a record claiming the given hash.
pub open spec fn is_match(hash: u64, e: SidecarFile) -> bool {
    match spec_decode_meta(e.data@) {
        Some(m) => m.hash == hash,
        None => false,
    }
}

/// Whether a candidate fails to parse: a corrupt sidecar, skipped by the
/// scan rather than failing the whole lookup.
pub open spec fn is_corrupt(e: SidecarFile) -> bool {
    spec_decode_meta(e.data@) is None
}

/// How many of the first `n` candidates are corrupt.
pub open spec fn corrupt_count(entries: Seq<SidecarFile>, n: int) -> int
    decreases n,
{
    if n <= 0 {
        0
    } else {
        corrupt_count(entries, n - 1) + (if is_corrupt(entries[n - 1]) {
            1int
        } else {
            0int
        })
    }
}

/// The bytes of `meta/`.
pub open spec fn lit_meta_dir() -> Seq<u8> {
    seq![109u8, 101, 116, 97, 47]
}

/// The bytes of `.json`.
pub open spec fn lit_json_ext() -> Seq<u8> {
    seq![46u8, 106, 115, 111, 110]
}

/// The sidecar path derived from a source file's base name: the metadata
/// directory, the stem, and the sidecar extension.
pub open spec fn spec_sidecar_path(stem: Seq<u8>) -> Seq<u8> {
    lit_meta_dir() + stem + lit_json_ext()
}

/// Appends the bytes of `src` to `dst`.
#[verifier::loop_isolation(false)]
fn append_bytes(dst: &mut Vec<u8>, src: &Vec<u8>)
    ensures
        final(dst)@ == old(dst)@ + src@,
{
    let mut j: usize = 0;
    proof {
        assert(dst@ =~= dst@ + src@.subrange(0, 0));
    }
    while j < src.len()
        invariant
            j <= src@.len(),
            dst@ == old(dst)@ + src@.subrange(0, j as int),
        decreases src@.len() - j,
    {
        dst.push(src[j]);
        proof {
            assert(src@.subrange(0, (j + 1) as int) =~= src@.subrange(0, j as int).push(
                src@[j as int],
            ));
        }
        j += 1;
    }
    proof {
        assert(src@.subrange(0, src@.len() as int) =~= src@);
    }
}

/// An owned copy of a byte vector.
fn clone_bytes(src: &Vec<u8>) -> (r: Vec<u8>)
    ensures
        r@ == src@,
{
    let mut r: Vec<u8> = Vec::new();
    append_bytes(&mut r, src);
    proof {
        assert(r@ =~= src@);
    }
    r
}

/// The sidecar path for a fresh record, derived from the source file's
/// base name.
pub fn sidecar_path(stem: &Vec<u8>) -> (r: Vec<u8>)
    ensures
        r@ == spec_sidecar_path(stem@),
{
    let mut r: Vec<u8> = vec![109u8, 101, 116, 97, 47];
    proof {
        assert(r@ =~= lit_meta_dir());
    }
    append_bytes(&mut r, stem);
    let ext: Vec<u8> = vec![46u8, 106, 115, 111, 110];
    proof {
        assert(ext@ =~= lit_json_ext());
    }
    append_bytes(&mut r, &ext);
    proof {
        assert(r@ =~= spec_sidecar_path(stem@));
    }
    r
}

/// What the lookup returned: the record, the sidecar path it belongs to,
/// whether it was freshly created, and how many corrupt sidecars the scan
/// skipped on the way.
pub struct FindOutcome {
    pub meta: SourceMeta,
    pub path: Vec<u8>,
    pub created: bool,
    pub skipped: usize,
}

/// Everything `find_or_create` promises of its outcome.
pub open spec fn find_post(
    hash: u64,
    stem: Seq<u8>,
    entries: Seq<SidecarFile>,
    r: FindOutcome,
) -> bool {
    &&& (!r.created <==> exists|i: int|
        0 <= i < entries.len() && is_match(hash, #[trigger] entries[i]))
    &&& (!r.created ==> exists|i: int|
        {
            &&& 0 <= i < entries.len()
            &&& is_match(hash, #[trigger] entries[i])
            &&& spec_decode_meta(entries[i].data@) == Some(r.meta.deep_view())
            &&& r.path@ == entries[i].path@
            &&& forall|j: int| 0 <= j < i ==> !is_match(hash, #[trigger] entries[j])
            &&& r.skipped == corrupt_count(entries, i)
        })
    &&& (r.created ==> {
        &&& r.meta.deep_view() == fresh_meta_model(hash)
        &&& r.path@ == spec_sidecar_path(stem)
        &&& r.skipped == corrupt_count(entries, entries.len() as int)
    })
    &&& r.meta.hash == hash
}

/// The lookup-or-create scan: walks the candidates in order, skips each
/// one that does not parse, and returns the first record whose hash field
/// equals the computed hash, paired with its sidecar path. When no
/// candidate matches, a fresh empty record is synthesized together with a
/// sidecar path derived from the source file's base name.
#[verifier::loop_isolation(false)]
#[verifier::rlimit(100)]
pub fn find_or_create(hash: u64, stem: &Vec<u8>, entries: &Vec<SidecarFile>) -> (r: FindOutcome)
    ensures
        find_post(hash, stem@, entries@, r),
{
    let mut skipped: usize = 0;
    let mut i: usize = 0;
    while i < entries.len()
        invariant
            i <= entries@.len(),
            skipped <= i,
            skipped == corrupt_count(entries@, i as int),
            forall|j: int| 0 <= j < i ==> !is_match(hash, #[trigger] entries@[j]),
        decreases entries@.len() - i,
    {
        match decode_meta(&entries[i].data) {
            Some(m) => {
                if m.hash == hash {
                    let path = clone_bytes(&entries[i].path);
                    return FindOutcome { meta: m, path, created: false, skipped };
                }
            },
            None => {
                skipped = skipped + 1;
            },
        }
        i += 1;
    }
    let meta = SourceMeta::new_empty(hash);
    let path = sidecar_path(stem);
    FindOutcome { meta, path, created: true, skipped }
}

/// Lookup against an empty metadata directory creates a fresh record: the
/// computed hash, no sections, a zero timestamp, and nothing skipped.
pub proof fn lemma_find_in_empty_dir(
    hash: u64,
    stem: Seq<u8>,
    entries: Seq<SidecarFile>,
    r: FindOutcome,
)
    requires
        entries.len() == 0,
        find_post(hash, stem, entries, r),
    ensures
        r.created,
        r.meta.deep_view() == fresh_meta_model(hash),
        r.meta.deep_view().sections.len() == 0,
        r.skipped == 0,
{
}

/// Corrupt sidecars cannot hide a match: whenever some candidate's record
/// claims the hash, the scan finds a record with that hash, however many
/// corrupt files stand beside it in the directory.
pub proof fn lemma_corrupt_sidecars_skipped(
    hash: u64,
    stem: Seq<u8>,
    entries: Seq<SidecarFile>,
    r: FindOutcome,
    i: int,
)
    requires
        find_post(hash, stem, entries, r),
        0 <= i < entries.len(),
        is_match(hash, entries[i]),
    ensures
        !r.created,
        r.meta.deep_view().hash == hash,
{
    assert(exists|k: int| 0 <= k < entries.len() && is_match(hash, #[trigger] entries[k]));
}

} // verus!

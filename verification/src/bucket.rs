//! Buckets: namespaced key-value storage over the working set.
//!
//! A bucket is a tagged key prefix. Top-level buckets mark their
//! existence with a `[0x00][name_len][name]` entry and store data under
//! `[0x01][name_len][name][user_key]`. Nested buckets use `[0x02]` and
//! `[0x03]` with a length-prefixed component path. The tag byte keeps the
//! namespaces disjoint.

use vstd::prelude::*;

use crate::bytes::bytes_eq;
use crate::bytes::bytes_has_prefix;
use crate::bytes::clone_bytes;
use crate::bytes::lex_le;
use crate::bytes::lex_lt;
use crate::error::Error;
use crate::tree::Tree;

verus! {

/// Tag byte for top-level bucket markers.
pub const BUCKET_META_PREFIX: u8 = 0x00;

/// Tag byte for top-level bucket data entries.
pub const BUCKET_DATA_PREFIX: u8 = 0x01;

/// Tag byte for nested bucket markers.
pub const NESTED_BUCKET_META_PREFIX: u8 = 0x02;

/// Tag byte for nested bucket data entries.
pub const NESTED_BUCKET_DATA_PREFIX: u8 = 0x03;

/// Maximum allowed bucket name length in bytes.
pub const MAX_BUCKET_NAME_LEN: usize = 255;

/// Maximum nesting depth for buckets.
pub const MAX_NESTING_DEPTH: usize = 16;

/// Whether `p` is a prefix of `k`.
pub open spec fn has_prefix_spec(k: Seq<u8>, p: Seq<u8>) -> bool {
    p.len() <= k.len() && k.subrange(0, p.len() as int) == p
}

/// The marker key of a top-level bucket.
pub open spec fn meta_key_spec(name: Seq<u8>) -> Seq<u8> {
    seq![BUCKET_META_PREFIX, name.len() as u8] + name
}

/// The prefix of all data keys of a top-level bucket.
pub open spec fn data_prefix_spec(name: Seq<u8>) -> Seq<u8> {
    seq![BUCKET_DATA_PREFIX, name.len() as u8] + name
}

/// The full key of a data entry in a top-level bucket.
pub open spec fn data_key_spec(name: Seq<u8>, user_key: Seq<u8>) -> Seq<u8> {
    data_prefix_spec(name) + user_key
}

/// Whether a name is acceptable: non-empty and at most 255 bytes.
pub open spec fn name_valid(name: Seq<u8>) -> bool {
    1 <= name.len() <= MAX_BUCKET_NAME_LEN
}

/// Validates a bucket name.
pub fn validate_bucket_name(name: &[u8]) -> (r: Result<(), Error>)
    ensures
        r is Ok <==> name_valid(name@),
        r is Err ==> r->Err_0 is InvalidBucketName,
{
    if name.len() == 0 {
        return Err(Error::InvalidBucketName {
            reason: "bucket name cannot be empty".to_owned(),
        });
    }
    if name.len() > MAX_BUCKET_NAME_LEN {
        return Err(Error::InvalidBucketName {
            reason: "bucket name exceeds maximum length of 255 bytes".to_owned(),
        });
    }
    Ok(())
}

/// Creates the internal key for bucket metadata.
pub fn bucket_meta_key(name: &[u8]) -> (r: Vec<u8>)
    requires
        name@.len() <= MAX_BUCKET_NAME_LEN,
    ensures
        r@ =~= meta_key_spec(name@),
{
    let mut key: Vec<u8> = Vec::new();
    key.push(BUCKET_META_PREFIX);
    key.push(name.len() as u8);
    let mut name_copy = vstd::slice::slice_to_vec(name);
    key.append(&mut name_copy);
    key
}

/// Creates the internal key for a data entry within a bucket.
pub fn bucket_data_key(bucket_name: &[u8], user_key: &[u8]) -> (r: Vec<u8>)
    requires
        bucket_name@.len() <= MAX_BUCKET_NAME_LEN,
    ensures
        r@ =~= data_key_spec(bucket_name@, user_key@),
{
    let mut key = bucket_data_prefix(bucket_name);
    let mut user_copy = vstd::slice::slice_to_vec(user_key);
    key.append(&mut user_copy);
    key
}

/// Returns the prefix of all data keys in a bucket.
pub fn bucket_data_prefix(bucket_name: &[u8]) -> (r: Vec<u8>)
    requires
        bucket_name@.len() <= MAX_BUCKET_NAME_LEN,
    ensures
        r@ =~= data_prefix_spec(bucket_name@),
{
    let mut prefix: Vec<u8> = Vec::new();
    prefix.push(BUCKET_DATA_PREFIX);
    prefix.push(bucket_name.len() as u8);
    let mut name_copy = vstd::slice::slice_to_vec(bucket_name);
    prefix.append(&mut name_copy);
    prefix
}

/// Extracts the user key from a full internal key; `None` when the key
/// does not belong to the bucket.
pub fn extract_user_key<'a>(bucket_name: &[u8], internal_key: &'a [u8]) -> (r: Option<&'a [u8]>)
    requires
        bucket_name@.len() <= MAX_BUCKET_NAME_LEN,
    ensures
        match r {
            Some(u) => internal_key@ =~= data_key_spec(bucket_name@, u@),
            None => !has_prefix_spec(internal_key@, data_prefix_spec(bucket_name@)),
        },
{
    let prefix = bucket_data_prefix(bucket_name);
    if bytes_has_prefix(internal_key, prefix.as_slice()) {
        let rest = vstd::slice::slice_subrange(internal_key, prefix.len(), internal_key.len());
        proof {
            assert(internal_key@ =~= internal_key@.subrange(0, prefix@.len() as int)
                + internal_key@.subrange(prefix@.len() as int, internal_key@.len() as int));
        }
        Some(rest)
    } else {
        None
    }
}

/// Checks if a bucket exists.
pub fn bucket_exists(tree: &Tree, name: &[u8]) -> (r: bool)
    requires
        tree.wf(),
        name@.len() <= MAX_BUCKET_NAME_LEN,
    ensures
        r == tree.as_map().contains_key(meta_key_spec(name@)),
{
    let meta_key = bucket_meta_key(name);
    tree.contains_key(meta_key.as_slice())
}

/// Creates a bucket; fails if the name is invalid or the bucket exists.
pub fn create_bucket(tree: &mut Tree, name: &[u8]) -> (r: Result<(), Error>)
    requires
        old(tree).wf(),
    ensures
        final(tree).wf(),
        match r {
            Ok(_) => {
                &&& name_valid(name@)
                &&& !old(tree).as_map().contains_key(meta_key_spec(name@))
                &&& final(tree).as_map() =~= old(tree).as_map().insert(
                    meta_key_spec(name@),
                    Seq::empty(),
                )
            },
            Err(e) => {
                &&& *final(tree) == *old(tree)
                &&& !name_valid(name@) ==> e is InvalidBucketName
                &&& name_valid(name@) ==> {
                    &&& e is BucketAlreadyExists
                    &&& old(tree).as_map().contains_key(meta_key_spec(name@))
                }
            },
        },
{
    if let Err(e) = validate_bucket_name(name) {
        return Err(e);
    }
    let meta_key = bucket_meta_key(name);
    if tree.contains_key(meta_key.as_slice()) {
        return Err(Error::BucketAlreadyExists { name: vstd::slice::slice_to_vec(name) });
    }
    let _ = tree.insert(meta_key, Vec::new());
    Ok(())
}

/// Creates a bucket if it does not exist; returns whether it was created.
pub fn create_bucket_if_not_exists(tree: &mut Tree, name: &[u8]) -> (r: Result<bool, Error>)
    requires
        old(tree).wf(),
    ensures
        final(tree).wf(),
        match r {
            Ok(created) => {
                &&& name_valid(name@)
                &&& created == !old(tree).as_map().contains_key(meta_key_spec(name@))
                &&& final(tree).as_map() =~= old(tree).as_map().insert(
                    meta_key_spec(name@),
                    if created {
                        Seq::<u8>::empty()
                    } else {
                        old(tree).as_map()[meta_key_spec(name@)]
                    },
                )
            },
            Err(e) => {
                &&& *final(tree) == *old(tree)
                &&& e is InvalidBucketName
                &&& !name_valid(name@)
            },
        },
{
    if let Err(e) = validate_bucket_name(name) {
        return Err(e);
    }
    let meta_key = bucket_meta_key(name);
    if tree.contains_key(meta_key.as_slice()) {
        proof {
            assert(old(tree).as_map().insert(
                meta_key_spec(name@),
                old(tree).as_map()[meta_key_spec(name@)],
            ) =~= old(tree).as_map());
        }
        return Ok(false);
    }
    let _ = tree.insert(meta_key, Vec::new());
    Ok(true)
}

/// The map without the keys under a prefix.
pub open spec fn without_prefix(m: Map<Seq<u8>, Seq<u8>>, prefix: Seq<u8>) -> Map<
    Seq<u8>,
    Seq<u8>,
> {
    Map::new(|k: Seq<u8>| m.contains_key(k) && !has_prefix_spec(k, prefix), |k: Seq<u8>| m[k])
}

/// Deletes a bucket and all its contents.
pub fn delete_bucket(tree: &mut Tree, name: &[u8]) -> (r: Result<(), Error>)
    requires
        old(tree).wf(),
    ensures
        final(tree).wf(),
        match r {
            Ok(_) => {
                &&& name_valid(name@)
                &&& old(tree).as_map().contains_key(meta_key_spec(name@))
                &&& final(tree).as_map() =~= without_prefix(
                    old(tree).as_map(),
                    data_prefix_spec(name@),
                ).remove(meta_key_spec(name@))
            },
            Err(e) => {
                &&& *final(tree) == *old(tree)
                &&& !name_valid(name@) ==> e is InvalidBucketName
                &&& name_valid(name@) ==> {
                    &&& e is BucketNotFound
                    &&& !old(tree).as_map().contains_key(meta_key_spec(name@))
                }
            },
        },
{
    if let Err(e) = validate_bucket_name(name) {
        return Err(e);
    }
    let meta_key = bucket_meta_key(name);
    if !tree.contains_key(meta_key.as_slice()) {
        return Err(Error::BucketNotFound { name: vstd::slice::slice_to_vec(name) });
    }

    let prefix = bucket_data_prefix(name);
    let keys_to_delete = collect_keys_with_prefix(tree, prefix.as_slice());
    let ghost before = *tree;
    remove_keys(tree, &keys_to_delete);
    proof {
        assert forall|k: Seq<u8>| true
            implies tree.as_map().contains_key(k) == (before.as_map().contains_key(k)
                && !has_prefix_spec(k, prefix@)) by {
            if before.as_map().contains_key(k) && has_prefix_spec(k, prefix@) {
                assert(keys_view(keys_to_delete@).contains(k));
            }
            if tree.as_map().contains_key(k) {
                assert(!keys_view(keys_to_delete@).contains(k));
            }
        }
        assert forall|k: Seq<u8>| tree.as_map().contains_key(k)
            implies tree.as_map()[k] == without_prefix(before.as_map(), prefix@)[k] by {
            assert(before.as_map().contains_key(k) && !keys_view(keys_to_delete@).contains(k));
            assert(!has_prefix_spec(k, prefix@));
            assert(without_prefix(before.as_map(), prefix@).contains_key(k));
            assert(without_prefix(before.as_map(), prefix@)[k] == before.as_map()[k]);
        }
        assert(tree.as_map() =~= without_prefix(before.as_map(), prefix@));
    }
    let _ = tree.remove(meta_key.as_slice());
    Ok(())
}

/// The views of a list of keys.
pub open spec fn keys_view(keys: Seq<Vec<u8>>) -> Set<Seq<u8>> {
    Set::new(|k: Seq<u8>| exists|i: int| 0 <= i < keys.len() && (#[trigger] keys[i])@ == k)
}

/// Collects every key of the tree that starts with `prefix`.
fn collect_keys_with_prefix(tree: &Tree, prefix: &[u8]) -> (r: Vec<Vec<u8>>)
    requires
        tree.wf(),
    ensures
        forall|k: Seq<u8>|
            keys_view(r@).contains(k) == (tree.as_map().contains_key(k) && has_prefix_spec(
                k,
                prefix@,
            )),
{
    let mut out: Vec<Vec<u8>> = Vec::new();
    let n = tree.num_entries();
    let mut i: usize = 0;
    while i < n
        invariant
            tree.wf(),
            0 <= i <= n,
            n == tree.len_spec(),
            forall|k: Seq<u8>|
                keys_view(out@).contains(k) == (exists|j: int|
                    0 <= j < i && #[trigger] tree.key_at(j) == k && has_prefix_spec(k, prefix@)),
        decreases n - i,
    {
        let key = tree.key_at_idx(i);
        let ghost out0 = out@;
        if bytes_has_prefix(key.as_slice(), prefix) {
            out.push(clone_bytes(key));
        }
        proof {
            assert forall|k: Seq<u8>| true
                implies keys_view(out@).contains(k) == (exists|j: int|
                    0 <= j < i + 1 && #[trigger] tree.key_at(j) == k && has_prefix_spec(
                        k,
                        prefix@,
                    )) by {
                if keys_view(out@).contains(k) {
                    let a = choose|a: int| 0 <= a < out@.len() && (#[trigger] out@[a])@ == k;
                    if a < out0.len() {
                        assert(keys_view(out0).contains(k));
                        let j = choose|j: int|
                            0 <= j < i && #[trigger] tree.key_at(j) == k && has_prefix_spec(
                                k,
                                prefix@,
                            );
                        assert(0 <= j < i + 1 && tree.key_at(j) == k);
                    } else {
                        assert(tree.key_at(i as int) == k);
                    }
                }
                if exists|j: int|
                    0 <= j < i + 1 && #[trigger] tree.key_at(j) == k && has_prefix_spec(
                        k,
                        prefix@,
                    ) {
                    let j = choose|j: int|
                        0 <= j < i + 1 && #[trigger] tree.key_at(j) == k && has_prefix_spec(
                            k,
                            prefix@,
                        );
                    if j < i {
                        assert(keys_view(out0).contains(k));
                        let a = choose|a: int| 0 <= a < out0.len() && (#[trigger] out0[a])@ == k;
                        assert(out@[a]@ == k);
                    } else {
                        assert(out@[out@.len() - 1]@ == k);
                    }
                }
            }
        }
        i += 1;
    }
    proof {
        assert forall|k: Seq<u8>| true
            implies keys_view(out@).contains(k) == (tree.as_map().contains_key(k)
                && has_prefix_spec(k, prefix@)) by {
            if keys_view(out@).contains(k) {
                let j = choose|j: int|
                    0 <= j < n && #[trigger] tree.key_at(j) == k && has_prefix_spec(k, prefix@);
                tree.lemma_entry_in_map(j);
            }
            if tree.as_map().contains_key(k) && has_prefix_spec(k, prefix@) {
                let j = tree.index_of(k);
                assert(0 <= j < n && tree.key_at(j) == k);
            }
        }
    }
    out
}

/// Removes every listed key from the tree.
pub(crate) fn remove_keys(tree: &mut Tree, keys: &Vec<Vec<u8>>)
    requires
        old(tree).wf(),
    ensures
        final(tree).wf(),
        forall|k: Seq<u8>|
            #![trigger final(tree).as_map().contains_key(k)]
            #![trigger old(tree).as_map().contains_key(k)]
            final(tree).as_map().contains_key(k) == (old(tree).as_map().contains_key(k)
                && !keys_view(keys@).contains(k)),
        forall|k: Seq<u8>|
            #![trigger final(tree).as_map()[k]]
            final(tree).as_map().contains_key(k) ==> final(tree).as_map()[k] == old(
                tree,
            ).as_map()[k],
{
    let n = keys.len();
    let mut i: usize = 0;
    while i < n
        invariant
            tree.wf(),
            0 <= i <= n,
            n == keys@.len(),
            forall|k: Seq<u8>|
                tree.as_map().contains_key(k) == (old(tree).as_map().contains_key(k)
                    && !(exists|j: int| 0 <= j < i && (#[trigger] keys@[j])@ == k)),
            forall|k: Seq<u8>|
                tree.as_map().contains_key(k) ==> tree.as_map()[k] == old(tree).as_map()[k],
        decreases n - i,
    {
        let ghost before = tree.as_map();
        let _ = tree.remove(keys[i].as_slice());
        proof {
            assert forall|k: Seq<u8>| true
                implies tree.as_map().contains_key(k) == (old(tree).as_map().contains_key(k)
                    && !(exists|j: int| 0 <= j < i + 1 && (#[trigger] keys@[j])@ == k)) by {
                if tree.as_map().contains_key(k) {
                    assert(before.contains_key(k) && k != keys@[i as int]@);
                }
                if old(tree).as_map().contains_key(k) && !(exists|j: int|
                    0 <= j < i + 1 && (#[trigger] keys@[j])@ == k) {
                    assert(!(exists|j: int| 0 <= j < i && (#[trigger] keys@[j])@ == k));
                    assert(before.contains_key(k));
                    assert(keys@[i as int]@ != k);
                }
            }
        }
        i += 1;
    }
    proof {
        assert forall|k: Seq<u8>| true
            implies (exists|j: int| 0 <= j < n && (#[trigger] keys@[j])@ == k)
                == keys_view(keys@).contains(k) by {}
    }
}

/// Lists all top-level bucket names, in marker-key order.
pub open spec fn buckets_from(t: Tree, i: int) -> Seq<Seq<u8>>
    decreases t.len_spec() - i when 0 <= i <= t.len_spec()
{
    if i >= t.len_spec() {
        Seq::empty()
    } else {
        let here: Seq<Seq<u8>> = match meta_name_of(t.key_at(i)) {
            Some(name) => seq![name],
            None => Seq::empty(),
        };
        here + buckets_from(t, i + 1)
    }
}

/// The bucket name denoted by a marker key, if the key is one.
pub open spec fn meta_name_of(k: Seq<u8>) -> Option<Seq<u8>> {
    if k.len() > 1 && k[0] == BUCKET_META_PREFIX && k.len() >= 2 + k[1] {
        Some(k.subrange(2, 2 + k[1]))
    } else {
        None
    }
}

/// Lists all bucket names in the tree.
pub fn list_buckets(tree: &Tree) -> (r: Vec<Vec<u8>>)
    requires
        tree.wf(),
    ensures
        r@.len() == buckets_from(*tree, 0).len(),
        forall|i: int| 0 <= i < r@.len() ==> (#[trigger] r@[i])@ == buckets_from(*tree, 0)[i],
{
    let mut out: Vec<Vec<u8>> = Vec::new();
    let n = tree.num_entries();
    let mut i: usize = 0;
    while i < n
        invariant
            tree.wf(),
            0 <= i <= n,
            n == tree.len_spec(),
            buckets_from(*tree, 0) =~= names_view(out@) + buckets_from(*tree, i as int),
        decreases n - i,
    {
        let key = tree.key_at_idx(i);
        let ghost out0 = out@;
        if key.len() > 1 && key[0] == BUCKET_META_PREFIX {
            let name_len = key[1] as usize;
            if key.len() >= 2 + name_len {
                let name = vstd::slice::slice_subrange(key.as_slice(), 2, 2 + name_len);
                out.push(vstd::slice::slice_to_vec(name));
                proof {
                    assert(names_view(out@) =~= names_view(out0).push(
                        tree.key_at(i as int).subrange(2, 2 + tree.key_at(i as int)[1]),
                    ));
                }
            }
        }
        i += 1;
    }
    proof {
        assert(buckets_from(*tree, n as int) =~= Seq::<Seq<u8>>::empty());
        assert(buckets_from(*tree, 0) =~= names_view(out@));
    }
    out
}

/// The views of a list of names.
pub open spec fn names_view(names: Seq<Vec<u8>>) -> Seq<Seq<u8>> {
    names.map(|i: int, v: Vec<u8>| v@)
}

/// Bucket isolation: the data keys of two buckets coincide only when the
/// buckets and the user keys coincide, so writes to one bucket are
/// invisible to reads of any other.
pub proof fn lemma_bucket_isolation(a: Seq<u8>, ka: Seq<u8>, b: Seq<u8>, kb: Seq<u8>)
    requires
        name_valid(a),
        name_valid(b),
        data_key_spec(a, ka) == data_key_spec(b, kb),
    ensures
        a == b,
        ka == kb,
{
    let da = data_key_spec(a, ka);
    let db = data_key_spec(b, kb);
    assert(da[1] == a.len() as u8);
    assert(db[1] == b.len() as u8);
    assert(a.len() == b.len());
    assert(a =~= da.subrange(2, 2 + a.len() as int));
    assert(b =~= db.subrange(2, 2 + b.len() as int));
    assert(ka =~= da.subrange(2 + a.len() as int, da.len() as int));
    assert(kb =~= db.subrange(2 + b.len() as int, db.len() as int));
}

/// Marker keys and data keys can never collide: their tag bytes differ.
pub proof fn lemma_meta_data_disjoint(a: Seq<u8>, b: Seq<u8>, kb: Seq<u8>)
    ensures
        meta_key_spec(a) != data_key_spec(b, kb),
{
    assert(meta_key_spec(a)[0] == BUCKET_META_PREFIX);
    assert(data_key_spec(b, kb)[0] == BUCKET_DATA_PREFIX);
}

// ==================== Nested bucket support ====================

/// The views of a bucket path's components.
pub open spec fn path_view(path: Seq<Vec<u8>>) -> Seq<Seq<u8>> {
    path.map(|i: int, v: Vec<u8>| v@)
}

/// The length-prefixed concatenation of path components.
pub open spec fn parts_bytes(parts: Seq<Seq<u8>>) -> Seq<u8>
    decreases parts.len(),
{
    if parts.len() == 0 {
        Seq::empty()
    } else {
        (seq![parts[0].len() as u8] + parts[0]) + parts_bytes(parts.drop_first())
    }
}

pub proof fn lemma_parts_bytes_push(parts: Seq<Seq<u8>>, x: Seq<u8>)
    ensures
        parts_bytes(parts.push(x)) =~= parts_bytes(parts) + (seq![x.len() as u8] + x),
    decreases parts.len(),
{
    reveal_with_fuel(parts_bytes, 3);
    if parts.len() == 0 {
        assert(parts.push(x)[0] == x);
        assert(parts.push(x).drop_first() =~= Seq::<Seq<u8>>::empty());
    } else {
        assert(parts.push(x)[0] == parts[0]);
        assert(parts.push(x).drop_first() =~= parts.drop_first().push(x));
        lemma_parts_bytes_push(parts.drop_first(), x);
    }
}

/// A path key: tag byte, component count, then the length-prefixed
/// components.
pub open spec fn encode_path_spec(tag: u8, parts: Seq<Seq<u8>>) -> Seq<u8> {
    seq![tag, parts.len() as u8] + parts_bytes(parts)
}

/// Whether every component length and the component count fit their
/// one-byte fields.
pub open spec fn path_sizes_ok(parts: Seq<Seq<u8>>) -> bool {
    parts.len() <= 255 && forall|i: int| 0 <= i < parts.len() ==> (#[trigger] parts[i]).len() <= 255
}

/// Encodes a bucket path into a key prefix.
fn encode_path(tag: u8, path: &[Vec<u8>]) -> (r: Vec<u8>)
    requires
        path_sizes_ok(path_view(path@)),
    ensures
        r@ =~= encode_path_spec(tag, path_view(path@)),
{
    let mut key: Vec<u8> = Vec::new();
    key.push(tag);
    key.push(path.len() as u8);
    let mut i: usize = 0;
    while i < path.len()
        invariant
            0 <= i <= path@.len(),
            path_sizes_ok(path_view(path@)),
            key@ =~= seq![tag, path@.len() as u8] + parts_bytes(
                path_view(path@).subrange(0, i as int),
            ),
        decreases path@.len() - i,
    {
        let component = vstd::slice::slice_index_get(path, i);
        key.push(component.len() as u8);
        let mut comp_copy = clone_bytes(component);
        key.append(&mut comp_copy);
        proof {
            lemma_parts_bytes_push(
                path_view(path@).subrange(0, i as int),
                path_view(path@)[i as int],
            );
            assert(path_view(path@).subrange(0, i + 1)
                =~= path_view(path@).subrange(0, i as int).push(path_view(path@)[i as int]));
        }
        i += 1;
    }
    proof {
        assert(path_view(path@).subrange(0, path@.len() as int) =~= path_view(path@));
    }
    key
}

/// Creates the internal key for nested bucket metadata.
pub fn nested_bucket_meta_key(path: &[Vec<u8>]) -> (r: Vec<u8>)
    requires
        path_sizes_ok(path_view(path@)),
    ensures
        r@ =~= encode_path_spec(NESTED_BUCKET_META_PREFIX, path_view(path@)),
{
    encode_path(NESTED_BUCKET_META_PREFIX, path)
}

/// Creates the internal key for a data entry within a nested bucket.
pub fn nested_bucket_data_key(path: &[Vec<u8>], user_key: &[u8]) -> (r: Vec<u8>)
    requires
        path_sizes_ok(path_view(path@)),
    ensures
        r@ =~= encode_path_spec(NESTED_BUCKET_DATA_PREFIX, path_view(path@)) + user_key@,
{
    let mut key = encode_path(NESTED_BUCKET_DATA_PREFIX, path);
    let mut user_copy = vstd::slice::slice_to_vec(user_key);
    key.append(&mut user_copy);
    key
}

/// Returns the prefix of all data keys in a nested bucket.
pub fn nested_bucket_data_prefix(path: &[Vec<u8>]) -> (r: Vec<u8>)
    requires
        path_sizes_ok(path_view(path@)),
    ensures
        r@ =~= encode_path_spec(NESTED_BUCKET_DATA_PREFIX, path_view(path@)),
{
    encode_path(NESTED_BUCKET_DATA_PREFIX, path)
}

/// Whether a nested bucket path is acceptable: non-empty, within the
/// nesting depth, every component a valid name.
pub open spec fn path_valid(parts: Seq<Seq<u8>>) -> bool {
    &&& 1 <= parts.len() <= MAX_NESTING_DEPTH
    &&& forall|i: int| 0 <= i < parts.len() ==> name_valid(#[trigger] parts[i])
}

/// Validates a nested bucket path.
pub fn validate_nested_bucket_path(path: &[Vec<u8>]) -> (r: Result<(), Error>)
    ensures
        r is Ok <==> path_valid(path_view(path@)),
        r is Err ==> r->Err_0 is InvalidBucketName,
{
    if path.len() == 0 {
        return Err(Error::InvalidBucketName {
            reason: "nested bucket path cannot be empty".to_owned(),
        });
    }
    if path.len() > MAX_NESTING_DEPTH {
        return Err(Error::InvalidBucketName {
            reason: "nested bucket path exceeds maximum nesting depth".to_owned(),
        });
    }
    let mut i: usize = 0;
    while i < path.len()
        invariant
            0 <= i <= path@.len(),
            1 <= path@.len() <= MAX_NESTING_DEPTH,
            forall|j: int| 0 <= j < i ==> name_valid(#[trigger] path_view(path@)[j]),
        decreases path@.len() - i,
    {
        let component = vstd::slice::slice_index_get(path, i);
        if let Err(e) = validate_bucket_name(component.as_slice()) {
            proof {
                assert(path_view(path@)[i as int] == component@);
                assert(!name_valid(path_view(path@)[i as int]));
            }
            return Err(e);
        }
        i += 1;
    }
    Ok(())
}

/// Checks if a nested bucket exists; paths of fewer than two components
/// never name a nested bucket.
pub fn nested_bucket_exists(tree: &Tree, path: &[Vec<u8>]) -> (r: bool)
    requires
        tree.wf(),
        path_sizes_ok(path_view(path@)),
    ensures
        r == (path@.len() >= 2 && tree.as_map().contains_key(
            encode_path_spec(NESTED_BUCKET_META_PREFIX, path_view(path@)),
        )),
{
    if path.len() < 2 {
        return false;
    }
    let meta_key = nested_bucket_meta_key(path);
    tree.contains_key(meta_key.as_slice())
}

/// Whether the parent of `parts` exists: the marker of a top-level
/// bucket for two-component paths, a nested marker otherwise. One
/// component has no parent.
pub open spec fn parent_exists(m: Map<Seq<u8>, Seq<u8>>, parts: Seq<Seq<u8>>) -> bool {
    if parts.len() == 2 {
        m.contains_key(meta_key_spec(parts[0]))
    } else if parts.len() >= 3 {
        m.contains_key(
            encode_path_spec(NESTED_BUCKET_META_PREFIX, parts.subrange(0, parts.len() - 1)),
        )
    } else {
        false
    }
}

/// Checks that the parent of a valid path exists; shared by the nested
/// creation paths.
fn check_parent(tree: &Tree, path: &[Vec<u8>]) -> (r: bool)
    requires
        tree.wf(),
        path_valid(path_view(path@)),
    ensures
        r == parent_exists(tree.as_map(), path_view(path@)),
{
    if path.len() == 2 {
        proof {
            assert(name_valid(path_view(path@)[0]));
            assert(path_view(path@)[0] == path@[0]@);
        }
        bucket_exists(tree, path[0].as_slice())
    } else if path.len() >= 3 {
        let parent = vstd::slice::slice_subrange(path, 0, path.len() - 1);
        proof {
            assert(path_view(parent@) =~= path_view(path@).subrange(0, path@.len() - 1));
        }
        let r = nested_bucket_exists(tree, parent);
        r
    } else {
        false
    }
}

/// Creates a nested bucket; its parent must already exist.
pub fn create_nested_bucket(tree: &mut Tree, path: &[Vec<u8>]) -> (r: Result<(), Error>)
    requires
        old(tree).wf(),
    ensures
        final(tree).wf(),
        match r {
            Ok(_) => {
                &&& path_valid(path_view(path@))
                &&& parent_exists(old(tree).as_map(), path_view(path@))
                &&& !old(tree).as_map().contains_key(
                    encode_path_spec(NESTED_BUCKET_META_PREFIX, path_view(path@)),
                )
                &&& final(tree).as_map() =~= old(tree).as_map().insert(
                    encode_path_spec(NESTED_BUCKET_META_PREFIX, path_view(path@)),
                    Seq::empty(),
                )
            },
            Err(e) => {
                &&& *final(tree) == *old(tree)
                &&& !path_valid(path_view(path@)) ==> e is InvalidBucketName
                &&& path_valid(path_view(path@))
                    && !parent_exists(old(tree).as_map(), path_view(path@))
                    ==> e is BucketNotFound
                &&& path_valid(path_view(path@))
                    && parent_exists(old(tree).as_map(), path_view(path@)) ==> {
                    &&& e is BucketAlreadyExists
                    &&& old(tree).as_map().contains_key(
                        encode_path_spec(NESTED_BUCKET_META_PREFIX, path_view(path@)),
                    )
                }
            },
        },
{
    if let Err(e) = validate_nested_bucket_path(path) {
        return Err(e);
    }
    if !check_parent(tree, path) {
        return Err(Error::BucketNotFound {
            name: clone_bytes(vstd::slice::slice_index_get(path, 0)),
        });
    }
    let meta_key = nested_bucket_meta_key(path);
    if tree.contains_key(meta_key.as_slice()) {
        return Err(Error::BucketAlreadyExists {
            name: clone_bytes(vstd::slice::slice_index_get(path, path.len() - 1)),
        });
    }
    let _ = tree.insert(meta_key, Vec::new());
    Ok(())
}

/// Creates a nested bucket if it does not exist; returns whether it was
/// created.
pub fn create_nested_bucket_if_not_exists(tree: &mut Tree, path: &[Vec<u8>]) -> (r: Result<
    bool,
    Error,
>)
    requires
        old(tree).wf(),
    ensures
        final(tree).wf(),
        match r {
            Ok(created) => {
                &&& path_valid(path_view(path@))
                &&& parent_exists(old(tree).as_map(), path_view(path@))
                &&& created == !old(tree).as_map().contains_key(
                    encode_path_spec(NESTED_BUCKET_META_PREFIX, path_view(path@)),
                )
                &&& created ==> final(tree).as_map() =~= old(tree).as_map().insert(
                    encode_path_spec(NESTED_BUCKET_META_PREFIX, path_view(path@)),
                    Seq::empty(),
                )
                &&& !created ==> *final(tree) == *old(tree)
            },
            Err(e) => {
                &&& *final(tree) == *old(tree)
                &&& !path_valid(path_view(path@)) ==> e is InvalidBucketName
                &&& path_valid(path_view(path@)) ==> {
                    &&& e is BucketNotFound
                    &&& !parent_exists(old(tree).as_map(), path_view(path@))
                }
            },
        },
{
    if let Err(e) = validate_nested_bucket_path(path) {
        return Err(e);
    }
    if !check_parent(tree, path) {
        return Err(Error::BucketNotFound {
            name: clone_bytes(vstd::slice::slice_index_get(path, 0)),
        });
    }
    let meta_key = nested_bucket_meta_key(path);
    if tree.contains_key(meta_key.as_slice()) {
        return Ok(false);
    }
    let _ = tree.insert(meta_key, Vec::new());
    Ok(true)
}

/// The offset just past the components of `parts` inside `key`, when
/// `key` encodes them length-prefixed starting at `offset`; `None` on a
/// mismatch.
pub open spec fn match_components(key: Seq<u8>, parts: Seq<Seq<u8>>, pi: int, offset: int) -> Option<
    int,
>
    decreases parts.len() - pi when 0 <= pi <= parts.len()
{
    if pi >= parts.len() {
        Some(offset)
    } else if offset >= key.len() {
        None
    } else {
        let l = key[offset] as int;
        if offset + 1 + l > key.len() {
            None
        } else if key.subrange(offset + 1, offset + 1 + l) != parts[pi] {
            None
        } else {
            match_components(key, parts, pi + 1, offset + 1 + l)
        }
    }
}

/// Whether `key` is a path-encoded key lying strictly below
/// `parent_path` in the bucket hierarchy.
pub open spec fn is_child_path_spec(key: Seq<u8>, parts: Seq<Seq<u8>>) -> bool {
    &&& key.len() >= 2
    &&& key[1] > parts.len()
    &&& match_components(key, parts, 0, 2) is Some
}

/// Checks if a key encodes a path strictly below the given parent path.
pub fn is_child_path(key: &[u8], parent_path: &[Vec<u8>]) -> (r: bool)
    ensures
        r == is_child_path_spec(key@, path_view(parent_path@)),
{
    if key.len() < 2 {
        return false;
    }
    let component_count = key[1] as usize;
    if component_count <= parent_path.len() {
        return false;
    }
    let ghost parts = path_view(parent_path@);
    let mut offset: usize = 2;
    let mut pi: usize = 0;
    while pi < parent_path.len()
        invariant
            0 <= pi <= parts.len(),
            parts == path_view(parent_path@),
            2 <= offset <= key@.len(),
            key@.len() >= 2,
            (key@[1] as int) > parts.len(),
            is_child_path_spec(key@, parts) == (match_components(
                key@,
                parts,
                pi as int,
                offset as int,
            ) is Some),
        decreases parts.len() - pi,
    {
        if offset >= key.len() {
            return false;
        }
        let l = key[offset] as usize;
        if l > key.len() - (offset + 1) {
            return false;
        }
        let component = vstd::slice::slice_index_get(parent_path, pi);
        let part = vstd::slice::slice_subrange(key, offset + 1, offset + 1 + l);
        if !bytes_eq(part, component.as_slice()) {
            return false;
        }
        offset = offset + 1 + l;
        pi += 1;
    }
    true
}

/// The keys swept up by deleting the nested bucket at `parts`: its data
/// keys, the markers of buckets below it, and the data keys of buckets
/// below it.
pub open spec fn nested_delete_pred(k: Seq<u8>, parts: Seq<Seq<u8>>) -> bool {
    ||| has_prefix_spec(k, encode_path_spec(NESTED_BUCKET_DATA_PREFIX, parts))
    ||| (k.len() > 0 && k[0] == NESTED_BUCKET_META_PREFIX && has_prefix_spec(
        k,
        encode_path_spec(NESTED_BUCKET_META_PREFIX, parts),
    ) && k.len() > encode_path_spec(NESTED_BUCKET_META_PREFIX, parts).len())
    ||| (k.len() > 0 && k[0] == NESTED_BUCKET_DATA_PREFIX && k.len() > encode_path_spec(
        NESTED_BUCKET_DATA_PREFIX,
        parts,
    ).len() && is_child_path_spec(k, parts))
}

/// Collects every key of the tree that nested deletion must remove.
fn collect_nested_delete_keys(tree: &Tree, path: &[Vec<u8>]) -> (r: Vec<Vec<u8>>)
    requires
        tree.wf(),
        path_sizes_ok(path_view(path@)),
    ensures
        forall|k: Seq<u8>|
            keys_view(r@).contains(k) == (tree.as_map().contains_key(k) && nested_delete_pred(
                k,
                path_view(path@),
            )),
{
    let data_prefix = nested_bucket_data_prefix(path);
    let meta_prefix = encode_path(NESTED_BUCKET_META_PREFIX, path);
    let ghost parts = path_view(path@);
    let mut out: Vec<Vec<u8>> = Vec::new();
    let n = tree.num_entries();
    let mut i: usize = 0;
    while i < n
        invariant
            tree.wf(),
            0 <= i <= n,
            n == tree.len_spec(),
            parts == path_view(path@),
            path_sizes_ok(parts),
            data_prefix@ =~= encode_path_spec(NESTED_BUCKET_DATA_PREFIX, parts),
            meta_prefix@ =~= encode_path_spec(NESTED_BUCKET_META_PREFIX, parts),
            forall|k: Seq<u8>|
                keys_view(out@).contains(k) == (exists|j: int|
                    0 <= j < i && #[trigger] tree.key_at(j) == k && nested_delete_pred(k, parts)),
        decreases n - i,
    {
        let key = tree.key_at_idx(i);
        let ghost out0 = out@;
        let mut matched = false;
        if bytes_has_prefix(key.as_slice(), data_prefix.as_slice()) {
            matched = true;
        } else if key.len() > 0 && key[0] == NESTED_BUCKET_META_PREFIX && bytes_has_prefix(
            key.as_slice(),
            meta_prefix.as_slice(),
        ) && key.len() > meta_prefix.len() {
            matched = true;
        } else if key.len() > 0 && key[0] == NESTED_BUCKET_DATA_PREFIX && key.len()
            > data_prefix.len() && is_child_path(key.as_slice(), path) {
            matched = true;
        }
        if matched {
            out.push(clone_bytes(key));
        }
        proof {
            assert(matched == nested_delete_pred(tree.key_at(i as int), parts));
            assert forall|k: Seq<u8>| true
                implies keys_view(out@).contains(k) == (exists|j: int|
                    0 <= j < i + 1 && #[trigger] tree.key_at(j) == k && nested_delete_pred(
                        k,
                        parts,
                    )) by {
                if keys_view(out@).contains(k) {
                    let a = choose|a: int| 0 <= a < out@.len() && (#[trigger] out@[a])@ == k;
                    if a < out0.len() {
                        assert(keys_view(out0).contains(k));
                        let j = choose|j: int|
                            0 <= j < i && #[trigger] tree.key_at(j) == k && nested_delete_pred(
                                k,
                                parts,
                            );
                        assert(0 <= j < i + 1 && tree.key_at(j) == k);
                    } else {
                        assert(tree.key_at(i as int) == k);
                    }
                }
                if exists|j: int|
                    0 <= j < i + 1 && #[trigger] tree.key_at(j) == k && nested_delete_pred(
                        k,
                        parts,
                    ) {
                    let j = choose|j: int|
                        0 <= j < i + 1 && #[trigger] tree.key_at(j) == k && nested_delete_pred(
                            k,
                            parts,
                        );
                    if j < i {
                        assert(keys_view(out0).contains(k));
                        let a = choose|a: int| 0 <= a < out0.len() && (#[trigger] out0[a])@ == k;
                        assert(out@[a]@ == k);
                    } else {
                        assert(out@[out@.len() - 1]@ == k);
                    }
                }
            }
        }
        i += 1;
    }
    proof {
        assert forall|k: Seq<u8>| true
            implies keys_view(out@).contains(k) == (tree.as_map().contains_key(k)
                && nested_delete_pred(k, parts)) by {
            if keys_view(out@).contains(k) {
                let j = choose|j: int|
                    0 <= j < n && #[trigger] tree.key_at(j) == k && nested_delete_pred(k, parts);
                tree.lemma_entry_in_map(j);
            }
            if tree.as_map().contains_key(k) && nested_delete_pred(k, parts) {
                let j = tree.index_of(k);
                assert(0 <= j < n && tree.key_at(j) == k);
            }
        }
    }
    out
}

/// Deletes a nested bucket, its contents, and everything below it.
pub fn delete_nested_bucket(tree: &mut Tree, path: &[Vec<u8>]) -> (r: Result<(), Error>)
    requires
        old(tree).wf(),
    ensures
        final(tree).wf(),
        match r {
            Ok(_) => {
                &&& path_valid(path_view(path@))
                &&& old(tree).as_map().contains_key(
                    encode_path_spec(NESTED_BUCKET_META_PREFIX, path_view(path@)),
                )
                &&& final(tree).as_map() =~= Map::new(
                    |k: Seq<u8>|
                        old(tree).as_map().contains_key(k) && !nested_delete_pred(
                            k,
                            path_view(path@),
                        ),
                    |k: Seq<u8>| old(tree).as_map()[k],
                ).remove(encode_path_spec(NESTED_BUCKET_META_PREFIX, path_view(path@)))
            },
            Err(e) => {
                &&& *final(tree) == *old(tree)
                &&& !path_valid(path_view(path@)) ==> e is InvalidBucketName
                &&& path_valid(path_view(path@)) ==> {
                    &&& e is BucketNotFound
                    &&& !old(tree).as_map().contains_key(
                        encode_path_spec(NESTED_BUCKET_META_PREFIX, path_view(path@)),
                    )
                }
            },
        },
{
    if let Err(e) = validate_nested_bucket_path(path) {
        return Err(e);
    }
    let meta_key = nested_bucket_meta_key(path);
    if !tree.contains_key(meta_key.as_slice()) {
        return Err(Error::BucketNotFound {
            name: clone_bytes(vstd::slice::slice_index_get(path, path.len() - 1)),
        });
    }
    let keys_to_delete = collect_nested_delete_keys(tree, path);
    let ghost before = *tree;
    let ghost parts = path_view(path@);
    remove_keys(tree, &keys_to_delete);
    proof {
        let target = Map::new(
            |k: Seq<u8>| before.as_map().contains_key(k) && !nested_delete_pred(k, parts),
            |k: Seq<u8>| before.as_map()[k],
        );
        assert forall|k: Seq<u8>| true
            implies tree.as_map().contains_key(k) == target.contains_key(k) by {
            if before.as_map().contains_key(k) && nested_delete_pred(k, parts) {
                assert(keys_view(keys_to_delete@).contains(k));
            }
            if tree.as_map().contains_key(k) {
                assert(!keys_view(keys_to_delete@).contains(k));
            }
        }
        assert forall|k: Seq<u8>| tree.as_map().contains_key(k)
            implies tree.as_map()[k] == target[k] by {
            assert(before.as_map().contains_key(k) && !keys_view(keys_to_delete@).contains(k));
        }
        assert(tree.as_map() =~= target);
    }
    let _ = tree.remove(meta_key.as_slice());
    Ok(())
}

/// The child-bucket name that a marker key contributes to a listing of
/// the children of `parts`, if any: the key must be a nested marker one
/// level deeper whose leading components are exactly `parts`.
pub open spec fn nested_child_of(k: Seq<u8>, parts: Seq<Seq<u8>>) -> Option<Seq<u8>> {
    if k.len() < 2 {
        None
    } else if k[0] != NESTED_BUCKET_META_PREFIX {
        None
    } else if k[1] != parts.len() + 1 {
        None
    } else {
        match match_components(k, parts, 0, 2) {
            Some(off) => {
                if off >= k.len() {
                    None
                } else {
                    let cl = k[off] as int;
                    if off + 1 + cl > k.len() {
                        None
                    } else {
                        Some(k.subrange(off + 1, off + 1 + cl))
                    }
                }
            }
            None => None,
        }
    }
}

/// The child names listed from entry `i` on.
pub open spec fn nested_children_from(t: Tree, parts: Seq<Seq<u8>>, i: int) -> Seq<Seq<u8>>
    decreases t.len_spec() - i when 0 <= i <= t.len_spec()
{
    if i >= t.len_spec() {
        Seq::empty()
    } else {
        let here: Seq<Seq<u8>> = match nested_child_of(t.key_at(i), parts) {
            Some(name) => seq![name],
            None => Seq::empty(),
        };
        here + nested_children_from(t, parts, i + 1)
    }
}

/// Matches the leading path components of a key; returns the offset just
/// past them.
fn match_path_components(key: &[u8], parent_path: &[Vec<u8>]) -> (r: Option<usize>)
    requires
        key@.len() >= 2,
    ensures
        match r {
            Some(off) => match_components(key@, path_view(parent_path@), 0, 2)
                == Some(off as int) && 2 <= off <= key@.len(),
            None => match_components(key@, path_view(parent_path@), 0, 2) is None,
        },
{
    let ghost parts = path_view(parent_path@);
    let mut offset: usize = 2;
    let mut pi: usize = 0;
    while pi < parent_path.len()
        invariant
            0 <= pi <= parts.len(),
            parts == path_view(parent_path@),
            2 <= offset <= key@.len(),
            match_components(key@, parts, 0, 2) == match_components(
                key@,
                parts,
                pi as int,
                offset as int,
            ),
        decreases parts.len() - pi,
    {
        if offset >= key.len() {
            return None;
        }
        let l = key[offset] as usize;
        if l > key.len() - (offset + 1) {
            return None;
        }
        let component = vstd::slice::slice_index_get(parent_path, pi);
        let part = vstd::slice::slice_subrange(key, offset + 1, offset + 1 + l);
        if !bytes_eq(part, component.as_slice()) {
            return None;
        }
        offset = offset + 1 + l;
        pi += 1;
    }
    Some(offset)
}

/// Lists the names of the nested buckets directly under `parent_path`.
pub fn list_nested_buckets(tree: &Tree, parent_path: &[Vec<u8>]) -> (r: Vec<Vec<u8>>)
    requires
        tree.wf(),
        parent_path@.len() < 255,
    ensures
        r@.len() == nested_children_from(*tree, path_view(parent_path@), 0).len(),
        forall|i: int|
            0 <= i < r@.len() ==> (#[trigger] r@[i])@ == nested_children_from(
                *tree,
                path_view(parent_path@),
                0,
            )[i],
{
    let ghost parts = path_view(parent_path@);
    let mut out: Vec<Vec<u8>> = Vec::new();
    let n = tree.num_entries();
    let mut i: usize = 0;
    while i < n
        invariant
            tree.wf(),
            0 <= i <= n,
            n == tree.len_spec(),
            parts == path_view(parent_path@),
            parts.len() < 255,
            nested_children_from(*tree, parts, 0) =~= names_view(out@) + nested_children_from(
                *tree,
                parts,
                i as int,
            ),
        decreases n - i,
    {
        let key = tree.key_at_idx(i);
        let ghost out0 = out@;
        if key.len() >= 2 && key[0] == NESTED_BUCKET_META_PREFIX && key[1] as usize
            == parent_path.len() + 1 {
            match match_path_components(key.as_slice(), parent_path) {
                Some(off) => {
                    if off < key.len() {
                        let cl = key[off] as usize;
                        if cl <= key.len() - (off + 1) {
                            let child = vstd::slice::slice_subrange(
                                key.as_slice(),
                                off + 1,
                                off + 1 + cl,
                            );
                            out.push(vstd::slice::slice_to_vec(child));
                            proof {
                                assert(nested_child_of(tree.key_at(i as int), parts)
                                    == Some(child@));
                                assert(names_view(out@) =~= names_view(out0).push(child@));
                            }
                        }
                    }
                }
                None => {}
            }
        }
        proof {
            if names_view(out@) =~= names_view(out0) {
                assert(nested_child_of(tree.key_at(i as int), parts) is None);
            }
        }
        i += 1;
    }
    proof {
        assert(nested_children_from(*tree, parts, n as int) =~= Seq::<Seq<u8>>::empty());
        assert(nested_children_from(*tree, parts, 0) =~= names_view(out@));
    }
    out
}

// ==================== Bucket views and iteration ====================

/// The user-visible pairs of a bucket, scanned from entry `i` on: every
/// entry under `prefix`, with the prefix stripped, in key order.
pub open spec fn bucket_pairs_from(t: Tree, prefix: Seq<u8>, i: int) -> Seq<(Seq<u8>, Seq<u8>)>
    decreases t.len_spec() - i when 0 <= i <= t.len_spec()
{
    if i >= t.len_spec() {
        Seq::empty()
    } else {
        let here: Seq<(Seq<u8>, Seq<u8>)> = if has_prefix_spec(t.key_at(i), prefix) {
            seq![(t.key_at(i).skip(prefix.len() as int), t.val_at(i))]
        } else {
            Seq::empty()
        };
        here + bucket_pairs_from(t, prefix, i + 1)
    }
}

/// Bound type for bucket range queries.
#[derive(Debug, Clone)]
pub enum BucketBound<'a> {
    /// No bound.
    Unbounded,
    /// Inclusive bound.
    Included(&'a [u8]),
    /// Exclusive bound.
    Excluded(&'a [u8]),
}

/// Whether a user key is at or past the start bound.
pub open spec fn at_or_past_start(b: BucketBound, k: Seq<u8>) -> bool {
    match b {
        BucketBound::Unbounded => true,
        BucketBound::Included(s) => lex_le(s@, k),
        BucketBound::Excluded(s) => lex_lt(s@, k),
    }
}

/// Whether a user key is past the end bound.
pub open spec fn past_end(b: BucketBound, k: Seq<u8>) -> bool {
    match b {
        BucketBound::Unbounded => false,
        BucketBound::Included(s) => lex_lt(s@, k),
        BucketBound::Excluded(s) => lex_le(s@, k),
    }
}

/// The user-visible pairs of a bucket within a range, scanned from entry
/// `i` on.
pub open spec fn range_pairs_from(
    t: Tree,
    prefix: Seq<u8>,
    start: BucketBound,
    end: BucketBound,
    i: int,
) -> Seq<(Seq<u8>, Seq<u8>)>
    decreases t.len_spec() - i when 0 <= i <= t.len_spec()
{
    if i >= t.len_spec() {
        Seq::empty()
    } else {
        let user = t.key_at(i).skip(prefix.len() as int);
        let here: Seq<(Seq<u8>, Seq<u8>)> = if has_prefix_spec(t.key_at(i), prefix)
            && at_or_past_start(start, user) && !past_end(end, user) {
            seq![(user, t.val_at(i))]
        } else {
            Seq::empty()
        };
        here + range_pairs_from(t, prefix, start, end, i + 1)
    }
}

/// The views of a list of pairs.
pub open spec fn bucket_pairs_view(items: Seq<(Vec<u8>, Vec<u8>)>) -> Seq<(Seq<u8>, Seq<u8>)> {
    items.map(|i: int, p: (Vec<u8>, Vec<u8>)| (p.0@, p.1@))
}

/// Collects all user pairs of a bucket prefix.
fn collect_bucket_pairs(tree: &Tree, prefix: &[u8]) -> (r: Vec<(Vec<u8>, Vec<u8>)>)
    requires
        tree.wf(),
    ensures
        bucket_pairs_view(r@) =~= bucket_pairs_from(*tree, prefix@, 0),
{
    let mut out: Vec<(Vec<u8>, Vec<u8>)> = Vec::new();
    let n = tree.num_entries();
    let mut i: usize = 0;
    while i < n
        invariant
            tree.wf(),
            0 <= i <= n,
            n == tree.len_spec(),
            bucket_pairs_from(*tree, prefix@, 0) =~= bucket_pairs_view(out@)
                + bucket_pairs_from(*tree, prefix@, i as int),
        decreases n - i,
    {
        let key = tree.key_at_idx(i);
        let ghost out0 = out@;
        if bytes_has_prefix(key.as_slice(), prefix) {
            let user = vstd::slice::slice_subrange(key.as_slice(), prefix.len(), key.len());
            let value = tree.val_at_idx(i);
            out.push((vstd::slice::slice_to_vec(user), clone_bytes(value)));
            proof {
                assert(user@ =~= tree.key_at(i as int).skip(prefix@.len() as int));
                assert(bucket_pairs_view(out@) =~= bucket_pairs_view(out0).push(
                    (tree.key_at(i as int).skip(prefix@.len() as int), tree.val_at(i as int)),
                ));
            }
        }
        i += 1;
    }
    proof {
        assert(bucket_pairs_from(*tree, prefix@, n as int) =~= Seq::<(Seq<u8>, Seq<u8>)>::empty());
        assert(bucket_pairs_from(*tree, prefix@, 0) =~= bucket_pairs_view(out@));
    }
    out
}

/// Collects the user pairs of a bucket prefix within a range.
fn collect_range_pairs(
    tree: &Tree,
    prefix: &[u8],
    start: &BucketBound,
    end: &BucketBound,
) -> (r: Vec<(Vec<u8>, Vec<u8>)>)
    requires
        tree.wf(),
    ensures
        bucket_pairs_view(r@) =~= range_pairs_from(*tree, prefix@, *start, *end, 0),
{
    let mut out: Vec<(Vec<u8>, Vec<u8>)> = Vec::new();
    let n = tree.num_entries();
    let mut i: usize = 0;
    while i < n
        invariant
            tree.wf(),
            0 <= i <= n,
            n == tree.len_spec(),
            range_pairs_from(*tree, prefix@, *start, *end, 0) =~= bucket_pairs_view(out@)
                + range_pairs_from(*tree, prefix@, *start, *end, i as int),
        decreases n - i,
    {
        let key = tree.key_at_idx(i);
        let ghost out0 = out@;
        if bytes_has_prefix(key.as_slice(), prefix) {
            let user = vstd::slice::slice_subrange(key.as_slice(), prefix.len(), key.len());
            proof {
                assert(user@ =~= tree.key_at(i as int).skip(prefix@.len() as int));
            }
            let in_start = match start {
                BucketBound::Unbounded => true,
                BucketBound::Included(s) => !crate::bytes::bytes_lt(user, s),
                BucketBound::Excluded(s) => crate::bytes::bytes_lt(s, user),
            };
            let in_end = match end {
                BucketBound::Unbounded => true,
                BucketBound::Included(s) => !crate::bytes::bytes_lt(s, user),
                BucketBound::Excluded(s) => crate::bytes::bytes_lt(user, s),
            };
            proof {
                match *start {
                    BucketBound::Unbounded => {},
                    BucketBound::Included(s) => {
                        crate::bytes::lemma_lex_trichotomy(s@, user@);
                    },
                    BucketBound::Excluded(s) => {
                        crate::bytes::lemma_lex_trichotomy(s@, user@);
                    },
                }
                match *end {
                    BucketBound::Unbounded => {},
                    BucketBound::Included(s) => {
                        crate::bytes::lemma_lex_trichotomy(s@, user@);
                    },
                    BucketBound::Excluded(s) => {
                        crate::bytes::lemma_lex_trichotomy(s@, user@);
                    },
                }
                assert(in_start == at_or_past_start(*start, user@));
                assert(in_end == !past_end(*end, user@));
            }
            if in_start && in_end {
                let value = tree.val_at_idx(i);
                out.push((vstd::slice::slice_to_vec(user), clone_bytes(value)));
                proof {
                    assert(bucket_pairs_view(out@) =~= bucket_pairs_view(out0).push(
                        (
                            tree.key_at(i as int).skip(prefix@.len() as int),
                            tree.val_at(i as int),
                        ),
                    ));
                }
            }
        }
        i += 1;
    }
    proof {
        assert(range_pairs_from(*tree, prefix@, *start, *end, n as int)
            =~= Seq::<(Seq<u8>, Seq<u8>)>::empty());
        assert(range_pairs_from(*tree, prefix@, *start, *end, 0) =~= bucket_pairs_view(out@));
    }
    out
}

/// Iterator over the key-value pairs of a bucket, in ascending user-key
/// order.
pub struct BucketIter {
    pub items: Vec<(Vec<u8>, Vec<u8>)>,
    pub pos: usize,
}

impl BucketIter {
    /// Returns the next pair, or `None` at the end.
    pub fn next(&mut self) -> (r: Option<(Vec<u8>, Vec<u8>)>)
        ensures
            final(self).items == old(self).items,
            old(self).pos < old(self).items@.len() ==> {
                &&& final(self).pos == old(self).pos + 1
                &&& r matches Some(p) && p.0@ == old(self).items@[old(self).pos as int].0@
                    && p.1@ == old(self).items@[old(self).pos as int].1@
            },
            old(self).pos >= old(self).items@.len() ==> r is None && final(self).pos == old(
                self,
            ).pos,
    {
        if self.pos < self.items.len() {
            let pair = (
                clone_bytes(&self.items[self.pos].0),
                clone_bytes(&self.items[self.pos].1),
            );
            self.pos = self.pos + 1;
            Some(pair)
        } else {
            None
        }
    }
}

/// Iterator over the key-value pairs of a nested bucket.
pub struct NestedBucketIter {
    pub items: Vec<(Vec<u8>, Vec<u8>)>,
    pub pos: usize,
}

impl NestedBucketIter {
    /// Returns the next pair, or `None` at the end.
    pub fn next(&mut self) -> (r: Option<(Vec<u8>, Vec<u8>)>)
        ensures
            final(self).items == old(self).items,
            old(self).pos < old(self).items@.len() ==> {
                &&& final(self).pos == old(self).pos + 1
                &&& r matches Some(p) && p.0@ == old(self).items@[old(self).pos as int].0@
                    && p.1@ == old(self).items@[old(self).pos as int].1@
            },
            old(self).pos >= old(self).items@.len() ==> r is None && final(self).pos == old(
                self,
            ).pos,
    {
        if self.pos < self.items.len() {
            let pair = (
                clone_bytes(&self.items[self.pos].0),
                clone_bytes(&self.items[self.pos].1),
            );
            self.pos = self.pos + 1;
            Some(pair)
        } else {
            None
        }
    }
}

/// Iterator over a range of key-value pairs of a bucket.
pub struct BucketRangeIter {
    pub items: Vec<(Vec<u8>, Vec<u8>)>,
    pub pos: usize,
}

impl BucketRangeIter {
    /// Returns the next pair, or `None` at the end.
    pub fn next(&mut self) -> (r: Option<(Vec<u8>, Vec<u8>)>)
        ensures
            final(self).items == old(self).items,
            old(self).pos < old(self).items@.len() ==> {
                &&& final(self).pos == old(self).pos + 1
                &&& r matches Some(p) && p.0@ == old(self).items@[old(self).pos as int].0@
                    && p.1@ == old(self).items@[old(self).pos as int].1@
            },
            old(self).pos >= old(self).items@.len() ==> r is None && final(self).pos == old(
                self,
            ).pos,
    {
        if self.pos < self.items.len() {
            let pair = (
                clone_bytes(&self.items[self.pos].0),
                clone_bytes(&self.items[self.pos].1),
            );
            self.pos = self.pos + 1;
            Some(pair)
        } else {
            None
        }
    }
}

/// A read-only view of a bucket.
pub struct BucketRef<'a> {
    pub tree: &'a Tree,
    pub name: Vec<u8>,
}

impl<'a> BucketRef<'a> {
    /// Opens a bucket for reading; the bucket must exist.
    pub fn new(tree: &'a Tree, name: &[u8]) -> (r: Result<BucketRef<'a>, Error>)
        requires
            tree.wf(),
        ensures
            match r {
                Ok(b) => {
                    &&& name_valid(name@)
                    &&& b.tree == tree
                    &&& b.name@ == name@
                    &&& tree.as_map().contains_key(meta_key_spec(name@))
                },
                Err(e) => {
                    &&& !name_valid(name@) ==> e is InvalidBucketName
                    &&& name_valid(name@) ==> e is BucketNotFound
                        && !tree.as_map().contains_key(meta_key_spec(name@))
                },
            },
    {
        if let Err(e) = validate_bucket_name(name) {
            return Err(e);
        }
        if !bucket_exists(tree, name) {
            return Err(Error::BucketNotFound { name: vstd::slice::slice_to_vec(name) });
        }
        Ok(BucketRef { tree, name: vstd::slice::slice_to_vec(name) })
    }

    /// Returns the bucket name.
    pub fn name(&self) -> (r: &Vec<u8>)
        ensures
            r@ == self.name@,
    {
        &self.name
    }

    /// Looks a user key up in the bucket.
    pub fn get(&self, key: &[u8]) -> (r: Option<Vec<u8>>)
        requires
            self.tree.wf(),
            name_valid(self.name@),
        ensures
            match r {
                Some(v) => self.tree.as_map().contains_key(data_key_spec(self.name@, key@))
                    && v@ == self.tree.as_map()[data_key_spec(self.name@, key@)],
                None => !self.tree.as_map().contains_key(data_key_spec(self.name@, key@)),
            },
    {
        let internal_key = bucket_data_key(self.name.as_slice(), key);
        self.tree.get(internal_key.as_slice())
    }

    /// Returns an iterator over all pairs of the bucket, user keys in
    /// ascending order and without the bucket prefix.
    pub fn iter(&self) -> (r: BucketIter)
        requires
            self.tree.wf(),
            name_valid(self.name@),
        ensures
            r.pos == 0,
            bucket_pairs_view(r.items@) =~= bucket_pairs_from(
                *self.tree,
                data_prefix_spec(self.name@),
                0,
            ),
    {
        let prefix = bucket_data_prefix(self.name.as_slice());
        BucketIter { items: collect_bucket_pairs(self.tree, prefix.as_slice()), pos: 0 }
    }

    /// Returns an iterator over the pairs whose user key lies within the
    /// given bounds.
    pub fn range(&self, start: BucketBound, end: BucketBound) -> (r: BucketRangeIter)
        requires
            self.tree.wf(),
            name_valid(self.name@),
        ensures
            r.pos == 0,
            bucket_pairs_view(r.items@) =~= range_pairs_from(
                *self.tree,
                data_prefix_spec(self.name@),
                start,
                end,
                0,
            ),
    {
        let prefix = bucket_data_prefix(self.name.as_slice());
        BucketRangeIter {
            items: collect_range_pairs(self.tree, prefix.as_slice(), &start, &end),
            pos: 0,
        }
    }
}

/// A handle for writing into a bucket; operations take the working set
/// explicitly.
pub struct BucketMut {
    pub name: Vec<u8>,
}

impl BucketMut {
    /// Opens a bucket for writing; the bucket must exist.
    pub fn new(tree: &Tree, name: &[u8]) -> (r: Result<BucketMut, Error>)
        requires
            tree.wf(),
        ensures
            match r {
                Ok(b) => {
                    &&& name_valid(name@)
                    &&& b.name@ == name@
                    &&& tree.as_map().contains_key(meta_key_spec(name@))
                },
                Err(e) => {
                    &&& !name_valid(name@) ==> e is InvalidBucketName
                    &&& name_valid(name@) ==> e is BucketNotFound
                        && !tree.as_map().contains_key(meta_key_spec(name@))
                },
            },
    {
        if let Err(e) = validate_bucket_name(name) {
            return Err(e);
        }
        if !bucket_exists(tree, name) {
            return Err(Error::BucketNotFound { name: vstd::slice::slice_to_vec(name) });
        }
        Ok(BucketMut { name: vstd::slice::slice_to_vec(name) })
    }

    /// Returns the bucket name.
    pub fn name(&self) -> (r: &Vec<u8>)
        ensures
            r@ == self.name@,
    {
        &self.name
    }

    /// Looks a user key up in the bucket.
    pub fn get(&self, tree: &Tree, key: &[u8]) -> (r: Option<Vec<u8>>)
        requires
            tree.wf(),
            name_valid(self.name@),
        ensures
            match r {
                Some(v) => tree.as_map().contains_key(data_key_spec(self.name@, key@)) && v@
                    == tree.as_map()[data_key_spec(self.name@, key@)],
                None => !tree.as_map().contains_key(data_key_spec(self.name@, key@)),
            },
    {
        let internal_key = bucket_data_key(self.name.as_slice(), key);
        tree.get(internal_key.as_slice())
    }

    /// Inserts or updates a pair in the bucket; returns the previous
    /// value of the key, if any.
    pub fn put(&self, tree: &mut Tree, key: &[u8], value: &[u8]) -> (r: Option<Vec<u8>>)
        requires
            old(tree).wf(),
            name_valid(self.name@),
        ensures
            final(tree).wf(),
            final(tree).as_map() =~= old(tree).as_map().insert(
                data_key_spec(self.name@, key@),
                value@,
            ),
            match r {
                Some(v) => old(tree).as_map().contains_key(data_key_spec(self.name@, key@))
                    && v@ == old(tree).as_map()[data_key_spec(self.name@, key@)],
                None => !old(tree).as_map().contains_key(data_key_spec(self.name@, key@)),
            },
    {
        let internal_key = bucket_data_key(self.name.as_slice(), key);
        tree.insert(internal_key, vstd::slice::slice_to_vec(value))
    }

    /// Deletes a user key from the bucket; returns the previous value, if
    /// any.
    pub fn delete(&self, tree: &mut Tree, key: &[u8]) -> (r: Option<Vec<u8>>)
        requires
            old(tree).wf(),
            name_valid(self.name@),
        ensures
            final(tree).wf(),
            final(tree).as_map() =~= old(tree).as_map().remove(data_key_spec(self.name@, key@)),
            match r {
                Some(v) => old(tree).as_map().contains_key(data_key_spec(self.name@, key@))
                    && v@ == old(tree).as_map()[data_key_spec(self.name@, key@)],
                None => !old(tree).as_map().contains_key(data_key_spec(self.name@, key@)),
            },
    {
        let internal_key = bucket_data_key(self.name.as_slice(), key);
        tree.remove(internal_key.as_slice())
    }
}

/// A read-only view of a nested bucket.
pub struct NestedBucketRef<'a> {
    pub tree: &'a Tree,
    pub path: Vec<Vec<u8>>,
}

impl<'a> NestedBucketRef<'a> {
    /// Opens a nested bucket for reading; the bucket must exist.
    pub fn new(tree: &'a Tree, path: &[Vec<u8>]) -> (r: Result<NestedBucketRef<'a>, Error>)
        requires
            tree.wf(),
        ensures
            match r {
                Ok(b) => {
                    &&& path_valid(path_view(path@))
                    &&& b.tree == tree
                    &&& path_view(b.path@) == path_view(path@)
                    &&& path@.len() >= 2
                    &&& tree.as_map().contains_key(
                        encode_path_spec(NESTED_BUCKET_META_PREFIX, path_view(path@)),
                    )
                },
                Err(e) => {
                    &&& !path_valid(path_view(path@)) ==> e is InvalidBucketName
                    &&& path_valid(path_view(path@)) ==> e is BucketNotFound
                },
            },
    {
        if let Err(e) = validate_nested_bucket_path(path) {
            return Err(e);
        }
        if !nested_bucket_exists(tree, path) {
            return Err(Error::BucketNotFound {
                name: clone_bytes(vstd::slice::slice_index_get(path, path.len() - 1)),
            });
        }
        let mut owned: Vec<Vec<u8>> = Vec::new();
        let mut i: usize = 0;
        while i < path.len()
            invariant
                0 <= i <= path@.len(),
                owned@.len() == i,
                forall|j: int| 0 <= j < i ==> (#[trigger] owned@[j])@ == path@[j]@,
            decreases path@.len() - i,
        {
            owned.push(clone_bytes(vstd::slice::slice_index_get(path, i)));
            i += 1;
        }
        proof {
            assert(path_view(owned@) =~= path_view(path@));
        }
        Ok(NestedBucketRef { tree, path: owned })
    }

    /// Returns the bucket path.
    pub fn path(&self) -> (r: &Vec<Vec<u8>>)
        ensures
            r == &self.path,
    {
        &self.path
    }

    /// Looks a user key up in the nested bucket.
    pub fn get(&self, key: &[u8]) -> (r: Option<Vec<u8>>)
        requires
            self.tree.wf(),
            path_valid(path_view(self.path@)),
        ensures
            ({
                let dk = encode_path_spec(NESTED_BUCKET_DATA_PREFIX, path_view(self.path@))
                    + key@;
                match r {
                    Some(v) => self.tree.as_map().contains_key(dk) && v@
                        == self.tree.as_map()[dk],
                    None => !self.tree.as_map().contains_key(dk),
                }
            }),
    {
        let internal_key = nested_bucket_data_key(self.path.as_slice(), key);
        self.tree.get(internal_key.as_slice())
    }

    /// Returns an iterator over all pairs of the nested bucket.
    pub fn iter(&self) -> (r: NestedBucketIter)
        requires
            self.tree.wf(),
            path_valid(path_view(self.path@)),
        ensures
            r.pos == 0,
            bucket_pairs_view(r.items@) =~= bucket_pairs_from(
                *self.tree,
                encode_path_spec(NESTED_BUCKET_DATA_PREFIX, path_view(self.path@)),
                0,
            ),
    {
        let prefix = nested_bucket_data_prefix(self.path.as_slice());
        NestedBucketIter { items: collect_bucket_pairs(self.tree, prefix.as_slice()), pos: 0 }
    }
}

/// Range bounds, exactly: the pairs a range query returns are those of
/// the user keys `k` in the bucket with `start <= k` and `k` not past
/// `end` — for `Included(lo)`/`Excluded(hi)` exactly `lo <= k < hi`.
pub proof fn lemma_range_bounds(
    t: Tree,
    name: Seq<u8>,
    start: BucketBound,
    end: BucketBound,
    k: Seq<u8>,
    v: Seq<u8>,
)
    requires
        t.wf(),
        name_valid(name),
    ensures
        range_pairs_from(t, data_prefix_spec(name), start, end, 0).contains((k, v)) <==> {
            &&& t.as_map().contains_key(data_key_spec(name, k))
            &&& t.as_map()[data_key_spec(name, k)] == v
            &&& at_or_past_start(start, k)
            &&& !past_end(end, k)
        },
{
    let prefix = data_prefix_spec(name);
    lemma_range_mem(t, prefix, start, end, k, v, 0);
    if exists|j: int|
        0 <= j < t.len_spec() && #[trigger] t.key_at(j) == prefix + k && t.val_at(j) == v {
        let j = choose|j: int|
            0 <= j < t.len_spec() && #[trigger] t.key_at(j) == prefix + k && t.val_at(j) == v;
        t.lemma_entry_in_map(j);
    }
    if t.as_map().contains_key(data_key_spec(name, k)) {
        let j = t.index_of(prefix + k);
        assert(0 <= j < t.len_spec() && t.key_at(j) == prefix + k);
    }
}

/// Membership in the scanned range list, characterized entry-wise.
proof fn lemma_range_mem(
    t: Tree,
    prefix: Seq<u8>,
    start: BucketBound,
    end: BucketBound,
    k: Seq<u8>,
    v: Seq<u8>,
    i: int,
)
    requires
        t.wf(),
        0 <= i <= t.len_spec(),
    ensures
        range_pairs_from(t, prefix, start, end, i).contains((k, v)) <==> ((exists|j: int|
            i <= j < t.len_spec() && #[trigger] t.key_at(j) == prefix + k && t.val_at(j) == v)
            && at_or_past_start(start, k) && !past_end(end, k)),
    decreases t.len_spec() - i,
{
    if i >= t.len_spec() {
    } else {
        lemma_range_mem(t, prefix, start, end, k, v, i + 1);
        let user = t.key_at(i).skip(prefix.len() as int);
        let emitted = has_prefix_spec(t.key_at(i), prefix) && at_or_past_start(start, user)
            && !past_end(end, user);
        let here: Seq<(Seq<u8>, Seq<u8>)> = if emitted {
            seq![(user, t.val_at(i))]
        } else {
            Seq::empty()
        };
        let rest = range_pairs_from(t, prefix, start, end, i + 1);
        assert(range_pairs_from(t, prefix, start, end, i) == here + rest);
        // membership in a concatenation splits
        if (here + rest).contains((k, v)) {
            let a = choose|a: int| 0 <= a < (here + rest).len() && (here + rest)[a] == (k, v);
            if a < here.len() {
                assert(emitted);
                assert(user == k && t.val_at(i) == v);
                assert(t.key_at(i) =~= prefix + k);
            } else {
                assert(rest[a - here.len()] == (k, v));
                assert(rest.contains((k, v)));
            }
        }
        if exists|j: int|
            i <= j < t.len_spec() && #[trigger] t.key_at(j) == prefix + k && t.val_at(j) == v {
            let j = choose|j: int|
                i <= j < t.len_spec() && #[trigger] t.key_at(j) == prefix + k && t.val_at(j)
                    == v;
            if at_or_past_start(start, k) && !past_end(end, k) {
                if j == i {
                    assert(has_prefix_spec(t.key_at(i), prefix)) by {
                        assert((prefix + k).subrange(0, prefix.len() as int) =~= prefix);
                    }
                    assert(user =~= k);
                    assert((here + rest)[0] == (k, v));
                    assert((here + rest).contains((k, v)));
                } else {
                    assert(rest.contains((k, v)));
                    let a = choose|a: int| 0 <= a < rest.len() && rest[a] == (k, v);
                    assert((here + rest)[here.len() + a] == (k, v));
                    assert((here + rest).contains((k, v)));
                }
            }
        }
    }
}

} // verus!

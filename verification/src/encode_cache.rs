//! Sizes of the caches of encoded values.
use vstd::prelude::*;

use crate::refresh_policy::{min_of, smaller};

verus! {

/// The sizes of a cache of documents. A cache that grows over its largest size shrinks to its
/// target size.
#[derive(Clone, Copy, Debug, PartialEq, Eq, Structural)]
pub struct JsonbJsCachePolicy {
    pub max_entries: usize,
    pub target_entries: usize,
    pub max_bytes: usize,
    pub target_bytes: usize,
}

impl JsonbJsCachePolicy {
    /// The usual sizes.
    pub open spec fn standard_policy() -> JsonbJsCachePolicy {
        JsonbJsCachePolicy {
            max_entries: 8_192,
            target_entries: 6_144,
            max_bytes: 4_194_304,
            target_bytes: 3_145_728,
        }
    }

    /// The usual sizes.
    pub fn standard() -> (result: Self)
        ensures
            result == JsonbJsCachePolicy::standard_policy(),
    {
        JsonbJsCachePolicy {
            max_entries: 8_192,
            target_entries: 6_144,
            max_bytes: 4_194_304,
            target_bytes: 3_145_728,
        }
    }

    /// A cache is too large.
    pub open spec fn is_exceeded(self, entries: usize, bytes: usize) -> bool {
        entries > self.max_entries || bytes > self.max_bytes
    }

    /// The number of entries that a cache shrinks to.
    pub open spec fn entry_target(self) -> usize {
        smaller(self.target_entries, self.max_entries)
    }

    /// The number of bytes that a cache shrinks to.
    pub open spec fn byte_target(self) -> usize {
        smaller(self.target_bytes, self.max_bytes)
    }

    /// Tells whether a cache is too large.
    pub fn should_prune(self, entries: usize, bytes: usize) -> (result: bool)
        ensures
            result == self.is_exceeded(entries, bytes),
    {
        entries > self.max_entries || bytes > self.max_bytes
    }

    /// The number of entries that a cache shrinks to.
    pub fn target_entries(self) -> (result: usize)
        ensures
            result == self.entry_target(),
    {
        min_of(self.target_entries, self.max_entries)
    }

    /// The number of bytes that a cache shrinks to.
    pub fn target_bytes(self) -> (result: usize)
        ensures
            result == self.byte_target(),
    {
        min_of(self.target_bytes, self.max_bytes)
    }
}

/// A difference, or zero.
pub open spec fn reduced(number: usize, by: usize) -> usize {
    if number >= by {
        (number - by) as usize
    } else {
        0
    }
}

/// How many entries leave a cache, given the sizes of its entries in the order in which they
/// leave, and the bytes that stay: entries leave until both targets are met.
pub open spec fn leaving(
    sizes: Seq<usize>,
    entries: usize,
    bytes: usize,
    entry_target: usize,
    byte_target: usize,
) -> (nat, usize)
    decreases sizes.len(),
{
    if sizes.len() == 0 || (entries <= entry_target && bytes <= byte_target) {
        (0, bytes)
    } else {
        let (count, left) = leaving(
            sizes.skip(1),
            reduced(entries, 1),
            reduced(bytes, sizes[0]),
            entry_target,
            byte_target,
        );
        (count + 1, left)
    }
}

/// Tells how many entries leave a cache of documents, and how many bytes stay. `sizes` are the
/// sizes of the entries in the order in which they leave.
pub fn prune_jsonb_js_cache(sizes: &[usize], bytes: usize, policy: JsonbJsCachePolicy) -> (result: (
    usize,
    usize,
))
    ensures
        ({
            let expected = if policy.is_exceeded(sizes@.len() as usize, bytes) {
                leaving(
                    sizes@,
                    sizes@.len() as usize,
                    bytes,
                    policy.entry_target(),
                    policy.byte_target(),
                )
            } else {
                (0, bytes)
            };
            result.0 == expected.0 && result.1 == expected.1
        }),
{
    if !policy.should_prune(sizes.len(), bytes) {
        return (0, bytes);
    }
    let entry_target = policy.target_entries();
    let byte_target = policy.target_bytes();
    let mut entries = sizes.len();
    let mut left = bytes;
    let mut count: usize = 0;
    assert(sizes@.skip(0) =~= sizes@);
    while count < sizes.len() && (entries > entry_target || left > byte_target)
        invariant
            count <= sizes.len(),
            leaving(sizes@, sizes@.len() as usize, bytes, entry_target, byte_target) == ({
                let rest = leaving(
                    sizes@.skip(count as int),
                    entries,
                    left,
                    entry_target,
                    byte_target,
                );
                ((rest.0 + count) as nat, rest.1)
            }),
        decreases sizes.len() - count,
    {
        assert(sizes@.skip(count as int)[0] == sizes@[count as int]);
        assert(sizes@.skip(count as int).skip(1) =~= sizes@.skip(count + 1));
        entries = entries.saturating_sub(1);
        left = left.saturating_sub(sizes[count]);
        count += 1;
    }
    (count, left)
}

/// The sum of sizes.
pub open spec fn size_sum(sizes: Seq<usize>) -> int
    decreases sizes.len(),
{
    if sizes.len() == 0 {
        0
    } else {
        sizes[0] + size_sum(sizes.skip(1))
    }
}

proof fn lemma_leaving_meets_targets(
    sizes: Seq<usize>,
    bytes: usize,
    entry_target: usize,
    byte_target: usize,
)
    requires
        sizes.len() <= usize::MAX,
        bytes == size_sum(sizes),
    ensures
        ({
            let (count, left) = leaving(
                sizes,
                sizes.len() as usize,
                bytes,
                entry_target,
                byte_target,
            );
            &&& count <= sizes.len()
            &&& sizes.len() - count <= entry_target || count == sizes.len()
            &&& left <= byte_target || left == 0
            &&& left == size_sum(sizes.skip(count as int))
        }),
    decreases sizes.len(),
{
    if sizes.len() == 0 {
        assert(sizes.skip(0) =~= sizes);
    } else if sizes.len() as usize <= entry_target && bytes <= byte_target {
        assert(sizes.skip(0) =~= sizes);
    } else {
        let rest = sizes.skip(1);
        lemma_size_sum(rest);
        lemma_leaving_meets_targets(rest, (bytes - sizes[0]) as usize, entry_target, byte_target);
        let (count, left) = leaving(
            rest,
            rest.len() as usize,
            (bytes - sizes[0]) as usize,
            entry_target,
            byte_target,
        );
        assert(rest.skip(count as int) =~= sizes.skip((count + 1) as int));
    }
}

proof fn lemma_size_sum(sizes: Seq<usize>)
    ensures
        size_sum(sizes) >= 0,
    decreases sizes.len(),
{
    if sizes.len() > 0 {
        lemma_size_sum(sizes.skip(1));
    }
}

/// A cache whose size is the sum of the sizes of its entries shrinks to both targets, and its size
/// stays the sum of the sizes of the entries that stay.
pub proof fn law_pruned_cache_meets_targets(
    sizes: Seq<usize>,
    bytes: usize,
    policy: JsonbJsCachePolicy,
)
    requires
        sizes.len() <= usize::MAX,
        bytes == size_sum(sizes),
    ensures
        ({
            let (count, left) = leaving(
                sizes,
                sizes.len() as usize,
                bytes,
                policy.entry_target(),
                policy.byte_target(),
            );
            &&& count <= sizes.len()
            &&& sizes.len() - count <= policy.entry_target()
            &&& left <= policy.byte_target()
            &&& left == size_sum(sizes.skip(count as int))
        }),
{
    lemma_leaving_meets_targets(sizes, bytes, policy.entry_target(), policy.byte_target());
}

/// The sizes of the caches of a response encoder.
#[derive(Clone, Copy, Debug, PartialEq, Eq, Structural)]
pub struct GraphqlJsEncodeCachePolicy {
    pub shared_max_entries: usize,
    pub shared_target_entries: usize,
    pub field_key_max_entries: usize,
    pub field_key_target_entries: usize,
    pub jsonb: JsonbJsCachePolicy,
}

impl GraphqlJsEncodeCachePolicy {
    /// The usual sizes.
    pub open spec fn standard_policy() -> GraphqlJsEncodeCachePolicy {
        GraphqlJsEncodeCachePolicy {
            shared_max_entries: 65_536,
            shared_target_entries: 49_152,
            field_key_max_entries: 4_096,
            field_key_target_entries: 3_072,
            jsonb: JsonbJsCachePolicy::standard_policy(),
        }
    }

    /// The usual sizes.
    pub fn standard() -> (result: Self)
        ensures
            result == GraphqlJsEncodeCachePolicy::standard_policy(),
    {
        GraphqlJsEncodeCachePolicy {
            shared_max_entries: 65_536,
            shared_target_entries: 49_152,
            field_key_max_entries: 4_096,
            field_key_target_entries: 3_072,
            jsonb: JsonbJsCachePolicy::standard(),
        }
    }
}

/// How many entries of a cache leave so that at most a target stays, if the cache is too large.
pub open spec fn excess(entries: usize, max_entries: usize, target_entries: usize) -> usize {
    if entries <= max_entries {
        0
    } else {
        (entries - smaller(target_entries, max_entries)) as usize
    }
}

/// Tells how many field names leave their cache.
pub fn prune_field_keys(entries: usize, max_entries: usize, target_entries: usize) -> (count: usize)
    ensures
        count == excess(entries, max_entries, target_entries),
{
    if entries <= max_entries {
        return 0;
    }
    entries - min_of(target_entries, max_entries)
}

/// How many objects and lists stay: the larger cache gives entries up first, as many as are too
/// many.
pub open spec fn staying(objects: nat, lists: nat, target: nat) -> (nat, nat) {
    if objects + lists <= target {
        (objects, lists)
    } else {
        let excess = (objects + lists - target) as nat;
        if objects >= lists {
            if excess <= objects {
                ((objects - excess) as nat, lists)
            } else {
                (0, target)
            }
        } else {
            if excess <= lists {
                (objects, (lists - excess) as nat)
            } else {
                (target, 0)
            }
        }
    }
}

/// Tells how many encoded objects and lists stay of those that are still in use. `total` is the
/// number of all entries, in use or not; while it is not too large nothing leaves.
pub fn prune_shared(
    total: usize,
    live_objects: usize,
    live_lists: usize,
    max_entries: usize,
    target_entries: usize,
) -> (result: Option<(usize, usize)>)
    requires
        live_objects + live_lists <= usize::MAX,
    ensures
        match result {
            None => total <= max_entries,
            Some((objects, lists)) => total > max_entries && ({
                let expected = staying(
                    live_objects as nat,
                    live_lists as nat,
                    smaller(target_entries, max_entries) as nat,
                );
                objects == expected.0 && lists == expected.1
            }),
        },
{
    if total <= max_entries {
        return None;
    }
    let target = min_of(target_entries, max_entries);
    if live_objects + live_lists <= target {
        return Some((live_objects, live_lists));
    }
    let excess = live_objects + live_lists - target;
    if live_objects >= live_lists {
        if excess <= live_objects {
            Some((live_objects - excess, live_lists))
        } else {
            Some((0, target))
        }
    } else if excess <= live_lists {
        Some((live_objects, live_lists - excess))
    } else {
        Some((target, 0))
    }
}

/// Entries leave only as far as they are too many: just the target stays, or all that there were.
pub proof fn law_shared_caches_meet_target(objects: nat, lists: nat, target: nat)
    ensures
        ({
            let (kept_objects, kept_lists) = staying(objects, lists, target);
            &&& kept_objects <= objects
            &&& kept_lists <= lists
            &&& kept_objects + kept_lists == (if objects + lists <= target {
                objects + lists
            } else {
                target
            })
        }),
{
}

} // verus!

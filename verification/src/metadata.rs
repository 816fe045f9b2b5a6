//! The metadata record that describes how a secret is sharded across the
//! reserved sections: how many shards, their sizes, their section names,
//! and a schema version.

use vstd::prelude::*;
use crate::error::Error;
use crate::random::{random_in_range, shuffle_indices};

verus! {

/// The schema version written into fresh metadata.
pub const METADATA_VERSION: u32 = 1;

/// The size of every data slot, in bytes.
pub const SHARD_SIZE: usize = 1024;

/// How many data slots the reservation layout provides.
pub const SLOT_COUNT: usize = 8;

/// The metadata record persisted inside the metadata section.
#[derive(Debug, Clone)]
pub struct KeyMetadata {
    /// How many shards hold the secret; generated records use 4 to 8.
    pub num_shards: usize,
    /// The size of each shard, in order.
    pub shard_sizes: Vec<usize>,
    /// The section name of each shard, in order.
    pub shard_names: Vec<String>,
    /// The schema version.
    pub version: u32,
}

/// The name of data slot `i` of the canonical eight.
pub open spec fn spec_slot_name(i: int) -> Seq<char> {
    if i == 0 {
        ".key_data_00"@
    } else if i == 1 {
        ".key_data_01"@
    } else if i == 2 {
        ".key_data_02"@
    } else if i == 3 {
        ".key_data_03"@
    } else if i == 4 {
        ".key_data_04"@
    } else if i == 5 {
        ".key_data_05"@
    } else if i == 6 {
        ".key_data_06"@
    } else {
        ".key_data_07"@
    }
}

/// The name of data slot `i`.
pub fn slot_name(i: usize) -> (r: &'static str)
    requires
        i < 8,
    ensures
        r@ == spec_slot_name(i as int),
{
    if i == 0 {
        ".key_data_00"
    } else if i == 1 {
        ".key_data_01"
    } else if i == 2 {
        ".key_data_02"
    } else if i == 3 {
        ".key_data_03"
    } else if i == 4 {
        ".key_data_04"
    } else if i == 5 {
        ".key_data_05"
    } else if i == 6 {
        ".key_data_06"
    } else {
        ".key_data_07"
    }
}

/// Whether a name is one of the canonical eight slot names.
pub open spec fn is_canonical_name(s: Seq<char>) -> bool {
    exists|k: int| 0 <= k < 8 && s == spec_slot_name(k)
}

/// The canonical slot names are pairwise distinct.
pub proof fn lemma_slot_names_distinct(a: int, b: int)
    requires
        0 <= a < 8,
        0 <= b < 8,
        a != b,
    ensures
        spec_slot_name(a) != spec_slot_name(b),
{
    reveal_strlit(".key_data_00");
    reveal_strlit(".key_data_01");
    reveal_strlit(".key_data_02");
    reveal_strlit(".key_data_03");
    reveal_strlit(".key_data_04");
    reveal_strlit(".key_data_05");
    reveal_strlit(".key_data_06");
    reveal_strlit(".key_data_07");
    assert(spec_slot_name(a)[11] != spec_slot_name(b)[11]);
}

/// The total of a sequence of shard sizes.
pub open spec fn sizes_total(sizes: Seq<usize>) -> int
    decreases sizes.len(),
{
    if sizes.len() == 0 {
        0
    } else {
        sizes_total(sizes.drop_last()) + sizes.last()
    }
}

pub proof fn lemma_sizes_total_nonneg(sizes: Seq<usize>)
    ensures
        sizes_total(sizes) >= 0,
    decreases sizes.len(),
{
    if sizes.len() > 0 {
        lemma_sizes_total_nonneg(sizes.drop_last());
    }
}

/// A prefix never totals more than the whole sequence.
pub proof fn lemma_sizes_total_prefix(sizes: Seq<usize>, i: int)
    requires
        0 <= i <= sizes.len(),
    ensures
        sizes_total(sizes.take(i)) <= sizes_total(sizes),
    decreases sizes.len() - i,
{
    if i == sizes.len() {
        assert(sizes.take(i) =~= sizes);
    } else {
        assert(sizes.take(i + 1).drop_last() =~= sizes.take(i));
        assert(sizes_total(sizes.take(i)) <= sizes_total(sizes.take(i + 1)));
        lemma_sizes_total_prefix(sizes, i + 1);
    }
}

/// The shape of a freshly generated record: 4 to 8 shards, each of the
/// standard size, named by distinct canonical slots, at version 1.
pub open spec fn fresh_layout(m: KeyMetadata) -> bool {
    &&& 4 <= m.num_shards <= 8
    &&& m.valid_shape()
    &&& forall|i: int| 0 <= i < m.num_shards ==> m.shard_sizes@[i] == 1024usize
    &&& forall|i: int| 0 <= i < m.num_shards ==> is_canonical_name(#[trigger] m.shard_names@[i]@)
    &&& forall|i: int, j: int|
        0 <= i < j < m.num_shards ==> m.shard_names@[i]@ != m.shard_names@[j]@
    &&& m.version == 1
    &&& sizes_total(m.shard_sizes@) == 1024 * m.num_shards
}

impl KeyMetadata {
    /// The shape that `validate` enforces: between 1 and 8 shards, with
    /// exactly one size and one name per shard.
    pub open spec fn valid_shape(&self) -> bool {
        &&& 1 <= self.num_shards <= 8
        &&& self.shard_sizes@.len() == self.num_shards
        &&& self.shard_names@.len() == self.num_shards
    }

    /// Generate a fresh record: 4 to 8 shards, each of the standard size,
    /// named by distinct slots drawn from the canonical eight.
    pub fn generate() -> (r: KeyMetadata)
        ensures
            fresh_layout(r),
    {
        let num_shards = random_in_range(4, 8);

        let mut indices: Vec<usize> = Vec::new();
        let mut k: usize = 0;
        while k < 8
            invariant
                k <= 8,
                indices@.len() == k,
                forall|t: int| 0 <= t < k ==> indices@[t] == t as usize,
            decreases 8 - k,
        {
            indices.push(k);
            k += 1;
        }
        proof {
            assert(indices@.no_duplicates());
        }
        let ghost before = indices@;
        shuffle_indices(&mut indices);
        proof {
            broadcast use vstd::seq_lib::group_to_multiset_ensures;

            before.lemma_multiset_has_no_duplicates();
            assert forall|x: usize| indices@.contains(x) implies indices@.to_multiset().count(x)
                == 1 by {
                assert(before.to_multiset().count(x) > 0);
                assert(before.contains(x));
            }
            indices@.lemma_multiset_has_no_duplicates_conv();
            before.to_multiset_ensures();
            indices@.to_multiset_ensures();
            assert(indices@.len() == before.len());
            assert forall|t: int| 0 <= t < indices@.len() implies indices@[t] < 8 by {
                assert(indices@.to_multiset().count(indices@[t]) > 0);
                assert(before.contains(indices@[t]));
            }
        }

        let mut shard_names: Vec<String> = Vec::new();
        let mut i: usize = 0;
        while i < num_shards
            invariant
                num_shards <= 8,
                indices@.len() == 8,
                indices@.no_duplicates(),
                forall|t: int| 0 <= t < 8 ==> indices@[t] < 8,
                i <= num_shards,
                shard_names@.len() == i,
                forall|t: int|
                    0 <= t < i ==> shard_names@[t]@ == spec_slot_name(indices@[t] as int),
            decreases num_shards - i,
        {
            shard_names.push(slot_name(indices[i]).to_owned());
            i += 1;
        }
        proof {
            assert forall|a: int, b: int|
                0 <= a < b < num_shards implies shard_names@[a]@ != shard_names@[b]@ by {
                assert(indices@[a] != indices@[b]);
                lemma_slot_names_distinct(indices@[a] as int, indices@[b] as int);
            }
        }

        let mut shard_sizes: Vec<usize> = Vec::new();
        let mut i: usize = 0;
        while i < num_shards
            invariant
                i <= num_shards,
                num_shards <= 8,
                shard_sizes@.len() == i,
                forall|t: int| 0 <= t < i ==> shard_sizes@[t] == 1024usize,
                sizes_total(shard_sizes@) == 1024 * i,
            decreases num_shards - i,
        {
            let ghost prev = shard_sizes@;
            shard_sizes.push(1024);
            proof {
                assert(shard_sizes@.drop_last() =~= prev);
            }
            i += 1;
        }

        KeyMetadata { num_shards, shard_sizes, shard_names, version: METADATA_VERSION }
    }

    /// The total capacity, checked: `None` when the sum of the shard sizes
    /// does not fit in `usize`.
    pub fn checked_capacity(&self) -> (r: Option<usize>)
        ensures
            match r {
                Some(c) => c as int == sizes_total(self.shard_sizes@),
                None => sizes_total(self.shard_sizes@) > usize::MAX,
            },
    {
        let sizes = &self.shard_sizes;
        let mut acc: usize = 0;
        let mut i: usize = 0;
        while i < sizes.len()
            invariant
                i <= sizes@.len(),
                sizes@ == self.shard_sizes@,
                acc as int == sizes_total(sizes@.take(i as int)),
            decreases sizes@.len() - i,
        {
            let x = sizes[i];
            proof {
                assert(sizes@.take(i + 1).drop_last() =~= sizes@.take(i as int));
                assert(sizes@.take(i + 1).last() == sizes@[i as int]);
            }
            if x > usize::MAX - acc {
                proof {
                    lemma_sizes_total_prefix(sizes@, i + 1);
                }
                return None;
            }
            acc += x;
            i += 1;
        }
        proof {
            assert(sizes@.take(sizes@.len() as int) =~= sizes@);
        }
        Some(acc)
    }

    /// The total capacity: the sum of all shard sizes.
    pub fn total_capacity(&self) -> (r: usize)
        requires
            sizes_total(self.shard_sizes@) <= usize::MAX,
        ensures
            r as int == sizes_total(self.shard_sizes@),
    {
        match self.checked_capacity() {
            Some(c) => c,
            None => {
                proof {
                    assert(false);
                }
                0
            },
        }
    }

    /// Check the record's shape: the shard count must be between 1 and 8,
    /// and the two lists must each have one entry per shard.
    pub fn validate(&self) -> (r: Result<(), Error>)
        ensures
            match r {
                Ok(_) => self.valid_shape(),
                Err(e) => e is Config && !self.valid_shape(),
            },
    {
        if self.num_shards == 0 {
            return Err(Error::Config("the shard count must not be zero".to_owned()));
        }
        if self.num_shards > 8 {
            return Err(Error::Config("the shard count must not exceed eight".to_owned()));
        }
        if self.shard_sizes.len() != self.num_shards {
            return Err(
                Error::Config("the size list does not match the shard count".to_owned()),
            );
        }
        if self.shard_names.len() != self.num_shards {
            return Err(
                Error::Config("the name list does not match the shard count".to_owned()),
            );
        }
        Ok(())
    }
}

} // verus!

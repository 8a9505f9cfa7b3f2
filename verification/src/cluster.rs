//! Cluster numbers.

use vstd::prelude::*;

verus! {

/// The 28 bits of a FAT32 entry that carry a cluster number.
pub const CLUSTER_MASK: u32 = 0x0FFF_FFFF;

/// The number of the first cluster that can hold data.
pub const FIRST_DATA_CLUSTER: u32 = 2;

/// A cluster number: 28 bits, the four reserved top bits always clear.
#[derive(PartialEq, Eq, Structural, PartialOrd, Ord, Debug, Copy, Clone, Hash)]
pub struct Cluster(u32);

impl View for Cluster {
    type V = u32;

    /// The cluster number.
    closed spec fn view(&self) -> u32 {
        self.0
    }
}

impl Cluster {
    #[verifier::type_invariant]
    spec fn masked(self) -> bool {
        self.0 <= CLUSTER_MASK
    }

    /// The cluster that `raw` denotes once its reserved bits are dropped.
    pub closed spec fn spec_from(raw: u32) -> Cluster {
        Cluster(raw & CLUSTER_MASK)
    }

    /// The number of `spec_from(raw)` is `raw` without its top four bits.
    pub broadcast proof fn lemma_spec_from(raw: u32)
        ensures
            (#[trigger] Cluster::spec_from(raw))@ == raw & CLUSTER_MASK,
            Cluster::spec_from(raw)@ <= CLUSTER_MASK,
            raw <= CLUSTER_MASK ==> Cluster::spec_from(raw)@ == raw,
    {
        assert((raw & 0x0FFF_FFFFu32) <= 0x0FFF_FFFFu32) by (bit_vector);
        assert(raw <= 0x0FFF_FFFFu32 ==> (raw & 0x0FFF_FFFFu32) == raw) by (bit_vector);
    }

    /// Two clusters with the same number are the same cluster.
    pub proof fn lemma_eq_by_number(a: Cluster, b: Cluster)
        ensures
            (a@ == b@) <==> (a == b),
    {
    }

    /// Reserved bits never matter: a raw value and its low 28 bits give the
    /// same cluster, and so do any two raw values that agree on those bits.
    pub proof fn lemma_masking(raw: u32, other: u32)
        ensures
            Cluster::spec_from(raw) == Cluster::spec_from(raw & CLUSTER_MASK),
            (raw & CLUSTER_MASK) == (other & CLUSTER_MASK) ==> Cluster::spec_from(raw)
                == Cluster::spec_from(other),
    {
        assert(((raw & 0x0FFF_FFFFu32) & 0x0FFF_FFFFu32) == (raw & 0x0FFF_FFFFu32))
            by (bit_vector);
    }

    /// Whether the cluster can hold data: its number has 28 bits and is
    /// neither 0 nor 1, which are reserved.
    pub open spec fn is_data(self) -> bool {
        FIRST_DATA_CLUSTER <= self@ <= CLUSTER_MASK
    }

    /// The cluster number, widened.
    pub fn to64(self) -> (n: u64)
        ensures
            n == self@,
            n <= CLUSTER_MASK,
    {
        proof {
            use_type_invariant(&self);
        }
        self.0 as u64
    }

    /// The cluster number.
    pub fn number(self) -> (n: u32)
        ensures
            n == self@,
            n <= CLUSTER_MASK,
    {
        proof {
            use_type_invariant(&self);
        }
        self.0
    }

    /// The byte offset of this cluster's entry in the file allocation
    /// table: every entry takes four bytes.
    pub fn fat_offset(self) -> (offset: u64)
        ensures
            offset == 4 * self@,
    {
        4 * (self.0 as u64)
    }
}

impl From<u32> for Cluster {
    /// Drops the four reserved bits of `raw`.
    fn from(raw: u32) -> (c: Cluster) {
        proof {
            assert((raw & 0x0FFF_FFFFu32) <= 0x0FFF_FFFFu32) by (bit_vector);
        }
        Cluster(raw & CLUSTER_MASK)
    }
}

impl vstd::std_specs::convert::FromSpecImpl<u32> for Cluster {
    open spec fn obeys_from_spec() -> bool {
        true
    }

    open spec fn from_spec(raw: u32) -> Cluster {
        Cluster::spec_from(raw)
    }
}

} // verus!

//! The mathematical model of a mounted volume.
//!
//! A volume is its layout together with the bytes of every sector. What
//! the driver reads is stated here as functions of that model: the entries
//! of the file allocation table, the chain of clusters that starts at a
//! cluster, and the bytes that a chain holds.

use vstd::prelude::*;
use crate::fat::FatEntry;

verus! {

/// No sector of a volume has this number or a higher one: the layout
/// fields and the 28 bits of a cluster number cannot reach it.
pub const SECTOR_LIMIT: u64 = 0x200_0000_0000;

/// How a walk along a chain ends.
#[derive(Debug, Clone, Copy, PartialEq, Eq, Structural)]
pub enum ChainEnd {
    /// The start is no data cluster: there is nothing to walk.
    Empty,
    /// The last cluster's entry is an end-of-chain marker.
    Marker,
    /// The last cluster's entry is free, reserved or bad: the chain is
    /// taken to end there, though no marker says so.
    Broken,
    /// The walk was cut off after `cluster_limit` clusters, as it is on a
    /// table whose entries form a cycle.
    Limit,
}

/// A volume: its layout, and what each sector holds.
pub struct Volume {
    /// The number of bytes in a sector.
    pub bytes_per_sector: nat,
    /// The number of sectors in a cluster.
    pub sectors_per_cluster: nat,
    /// The number of sectors in one file allocation table.
    pub sectors_per_fat: nat,
    /// The sector at which the first file allocation table starts.
    pub fat_start_sector: nat,
    /// The sector at which the data clusters start.
    pub data_start_sector: nat,
    /// The cluster at which the root directory starts.
    pub root_dir_cluster: u32,
    /// The bytes of every sector.
    pub sectors: Map<u64, Seq<u8>>,
}

impl Volume {
    /// The layout is one that a BIOS parameter block can describe, and
    /// every sector from the first table on holds `bytes_per_sector` bytes.
    pub open spec fn wf(self) -> bool {
        &&& 0 < self.bytes_per_sector <= 0xFFFF
        &&& self.bytes_per_sector % 4 == 0
        &&& 0 < self.sectors_per_cluster <= 0xFF
        &&& 0 < self.sectors_per_fat <= 0xFFFF_FFFF
        &&& self.fat_start_sector <= 0xFFFF_FFFF + 0xFFFF
        &&& self.fat_start_sector + self.sectors_per_fat <= self.data_start_sector
            <= self.fat_start_sector + 0xFF * 0xFFFF_FFFF
        &&& 2 <= self.root_dir_cluster <= crate::cluster::CLUSTER_MASK
        &&& forall|s: u64|
            self.fat_start_sector <= s < SECTOR_LIMIT ==> self.sectors.dom().contains(s)
                && (#[trigger] self.sectors[s]).len() == self.bytes_per_sector
    }

    /// The number of clusters that the file allocation table has an
    /// entry for. No chain is followed for more clusters than this.
    pub open spec fn cluster_limit(self) -> nat {
        self.sectors_per_fat * self.bytes_per_sector / 4
    }

    /// The sector that holds the table entry of cluster `c`.
    pub open spec fn fat_sector(self, c: u32) -> nat {
        (self.fat_start_sector + (4 * c) / (self.bytes_per_sector as int)) as nat
    }

    /// The raw table entry of cluster `c`.
    pub open spec fn fat_entry(self, c: u32) -> u32 {
        crate::bytes::le32(
            self.sectors[self.fat_sector(c) as u64],
            (4 * c) % (self.bytes_per_sector as int),
        ) as u32
    }

    /// The cluster that follows `c` in its chain, if the entry of `c`
    /// names one. Every other entry ends the chain.
    pub open spec fn next(self, c: u32) -> Option<u32> {
        FatEntry::spec_next(self.fat_entry(c))
    }

    /// The clusters visited from `start` on, at most `fuel` of them. A
    /// start that is no data cluster gives no cluster at all.
    pub open spec fn chain_from(self, start: u32, fuel: nat) -> Seq<u32>
        decreases fuel,
    {
        if fuel == 0 || start < 2 {
            Seq::empty()
        } else {
            match self.next(start) {
                Some(n) => seq![start] + self.chain_from(n, (fuel - 1) as nat),
                None => seq![start],
            }
        }
    }

    /// The chain of clusters that starts at `start`, cut off after
    /// `cluster_limit` clusters.
    pub open spec fn chain(self, start: u32) -> Seq<u32> {
        self.chain_from(start, self.cluster_limit())
    }

    /// How the walk from `start` on ends when it may visit `fuel` more
    /// clusters.
    pub open spec fn end_from(self, start: u32, fuel: nat) -> ChainEnd
        decreases fuel,
    {
        if fuel == 0 {
            ChainEnd::Limit
        } else {
            match FatEntry::spec_status(self.fat_entry(start)) {
                crate::fat::Status::Data(_) => self.end_from(
                    self.next(start).unwrap(),
                    (fuel - 1) as nat,
                ),
                crate::fat::Status::Eoc(_) => ChainEnd::Marker,
                _ => ChainEnd::Broken,
            }
        }
    }

    /// How the walk along the chain that starts at `start` ends.
    pub open spec fn chain_end(self, start: u32) -> ChainEnd {
        if start < 2 {
            ChainEnd::Empty
        } else {
            self.end_from(start, self.cluster_limit())
        }
    }

    /// The first sector of the data cluster `c`.
    pub open spec fn first_sector(self, c: u32) -> nat {
        (self.data_start_sector + (c - 2) * self.sectors_per_cluster) as nat
    }

    /// The bytes of `count` consecutive sectors, the first being `first`.
    pub open spec fn run_bytes(self, first: nat, count: nat) -> Seq<u8>
        decreases count,
    {
        if count == 0 {
            Seq::empty()
        } else {
            self.run_bytes(first, (count - 1) as nat) + self.sectors[(first + count - 1) as u64]
        }
    }

    /// The bytes of the data cluster `c`.
    pub open spec fn cluster_bytes(self, c: u32) -> Seq<u8> {
        self.run_bytes(self.first_sector(c), self.sectors_per_cluster)
    }

    /// The bytes of the clusters `cs`, one after the other.
    pub open spec fn clusters_bytes(self, cs: Seq<u32>) -> Seq<u8>
        decreases cs.len(),
    {
        if cs.len() == 0 {
            Seq::empty()
        } else {
            self.clusters_bytes(cs.drop_last()) + self.cluster_bytes(cs.last())
        }
    }

    /// The bytes of the chain that starts at `start`.
    pub open spec fn chain_bytes(self, start: u32) -> Seq<u8> {
        self.clusters_bytes(self.chain(start))
    }

    /// Sector `i` of the data cluster `c`.
    pub open spec fn sector_of(self, c: u32, i: nat) -> u64 {
        (self.first_sector(c) + i) as u64
    }

    /// Whether `s` is one of the sectors of the data cluster `c`.
    pub open spec fn in_cluster(self, c: u32, s: u64) -> bool {
        self.first_sector(c) <= s < self.first_sector(c) + self.sectors_per_cluster
    }

    /// Whether sector `s` holds the table entry of one of the clusters
    /// `cs`.
    pub open spec fn holds_entry_of(self, s: u64, cs: Seq<u32>) -> bool {
        exists|m: int| 0 <= m < cs.len() && #[trigger] self.fat_sector(cs[m]) == s
    }

    /// The number of bytes in a cluster.
    pub open spec fn cluster_len(self) -> nat {
        self.sectors_per_cluster * self.bytes_per_sector
    }

    /// Consecutive clusters start exactly `sectors_per_cluster` sectors
    /// apart, so a cluster with a higher number starts at a higher sector.
    pub proof fn lemma_sector_spacing(self, a: u32, b: u32)
        requires
            self.wf(),
            2 <= a < b,
        ensures
            self.first_sector(a) < self.first_sector(b),
            self.first_sector(b) - self.first_sector(a) == (b - a) * self.sectors_per_cluster,
            b == a + 1 ==> self.first_sector(b) == self.first_sector(a) + self.sectors_per_cluster,
    {
        let spc = self.sectors_per_cluster as int;
        assert((b - 2) * spc - (a - 2) * spc == (b - a) * spc) by (nonlinear_arith);
        assert((b - a) * spc >= spc) by (nonlinear_arith)
            requires
                b - a >= 1,
                spc > 0,
        ;
        assert((a - 2) * spc >= 0) by (nonlinear_arith)
            requires
                a >= 2,
                spc > 0,
        ;
        if b == a + 1 {
            assert((b - a) * spc == spc) by (nonlinear_arith)
                requires
                    b - a == 1,
            ;
        }
    }

    /// Every sector of a data cluster lies from the data start on and
    /// below the sector limit.
    pub proof fn lemma_sector_bound(self, c: u32, i: nat)
        requires
            self.wf(),
            2 <= c <= crate::cluster::CLUSTER_MASK,
            i < self.sectors_per_cluster,
        ensures
            self.data_start_sector <= self.first_sector(c) + i < SECTOR_LIMIT,
            self.fat_start_sector <= self.first_sector(c) + i,
    {
        let spc = self.sectors_per_cluster as int;
        assert(0 <= (c - 2) * spc <= 0x0FFF_FFFF * 0xFF) by (nonlinear_arith)
            requires
                2 <= c <= 0x0FFF_FFFF,
                0 < spc <= 0xFF,
        ;
    }

    /// The table entry of every cluster lies whole inside one sector of the
    /// table, and that sector lies below the sector limit.
    pub proof fn lemma_fat_position(self, c: u32)
        requires
            self.wf(),
        ensures
            self.fat_start_sector <= self.fat_sector(c) < SECTOR_LIMIT,
            0 <= (4 * c) % (self.bytes_per_sector as int),
            (4 * c) % (self.bytes_per_sector as int) + 4 <= self.bytes_per_sector,
    {
        let bps = self.bytes_per_sector as int;
        let off = 4 * c;
        let quarter = bps / 4;
        assert(bps == 4 * quarter);
        vstd::arithmetic::div_mod::lemma_mod_mod(off, 4, quarter);
        assert((off % bps) % 4 == off % 4);
        assert(off % 4 == 0);
        vstd::arithmetic::div_mod::lemma_mod_pos_bound(off, bps);
        let r = off % bps;
        assert(r + 4 <= bps) by {
            if r + 4 > bps {
                assert(r % 4 == 0 && bps % 4 == 0 && r < bps);
            }
        }
        vstd::arithmetic::div_mod::lemma_div_pos_is_pos(off, bps);
        vstd::arithmetic::div_mod::lemma_div_is_ordered_by_denominator(off, 1, bps);
        vstd::arithmetic::div_mod::lemma_div_basics(off);
    }

    /// A run of `count` sectors holds `count` sectors' worth of bytes.
    pub proof fn lemma_run_len(self, first: nat, count: nat)
        requires
            self.wf(),
            self.fat_start_sector <= first,
            first + count <= SECTOR_LIMIT,
        ensures
            self.run_bytes(first, count).len() == count * self.bytes_per_sector,
        decreases count,
    {
        let bps = self.bytes_per_sector as int;
        if count > 0 {
            self.lemma_run_len(first, (count - 1) as nat);
            let last = self.sectors[(first + count - 1) as u64];
            assert(last.len() == bps);
            assert((count - 1) * bps + bps == count * bps) by (nonlinear_arith);
        } else {
            assert(count * bps == 0) by (nonlinear_arith)
                requires
                    count == 0,
            ;
        }
    }

    /// A longer run starts with the shorter one.
    pub proof fn lemma_run_prefix(self, first: nat, shorter: nat, longer: nat)
        requires
            shorter <= longer,
        ensures
            self.run_bytes(first, shorter).is_prefix_of(self.run_bytes(first, longer)),
        decreases longer,
    {
        if shorter < longer {
            self.lemma_run_prefix(first, shorter, (longer - 1) as nat);
        }
    }

    /// Every data cluster holds `cluster_len` bytes.
    pub proof fn lemma_cluster_len(self, c: u32)
        requires
            self.wf(),
            2 <= c <= crate::cluster::CLUSTER_MASK,
        ensures
            self.cluster_bytes(c).len() == self.cluster_len(),
    {
        self.lemma_sector_bound(c, (self.sectors_per_cluster - 1) as nat);
        self.lemma_sector_bound(c, 0);
        self.lemma_run_len(self.first_sector(c), self.sectors_per_cluster);
    }

    /// The bytes of one more cluster come behind those of the clusters
    /// before it.
    pub proof fn lemma_clusters_push(self, cs: Seq<u32>, c: u32)
        ensures
            self.clusters_bytes(cs.push(c)) == self.clusters_bytes(cs) + self.cluster_bytes(c),
    {
        assert(cs.push(c).drop_last() =~= cs);
        assert(cs.push(c).last() == c);
    }

    /// The bytes of two sequences of clusters joined are the bytes of the
    /// first followed by the bytes of the second.
    pub proof fn lemma_clusters_concat(self, a: Seq<u32>, b: Seq<u32>)
        ensures
            self.clusters_bytes(a + b) == self.clusters_bytes(a) + self.clusters_bytes(b),
        decreases b.len(),
    {
        if b.len() == 0 {
            assert(a + b =~= a);
            assert(self.clusters_bytes(a) + Seq::<u8>::empty() =~= self.clusters_bytes(a));
        } else {
            self.lemma_clusters_concat(a, b.drop_last());
            assert((a + b).drop_last() =~= a + b.drop_last());
            assert((a + b).last() == b.last());
            assert((self.clusters_bytes(a) + self.clusters_bytes(b.drop_last()))
                + self.cluster_bytes(b.last()) =~= self.clusters_bytes(a) + (self.clusters_bytes(
                b.drop_last(),
            ) + self.cluster_bytes(b.last())));
        }
    }

    /// A chain is never longer than the fuel it is followed with, and all
    /// its clusters are data clusters of 28 bits, but perhaps for the first,
    /// which is the start as given.
    pub proof fn lemma_chain_from(self, start: u32, fuel: nat)
        ensures
            self.chain_from(start, fuel).len() <= fuel,
            forall|i: int|
                0 <= i < self.chain_from(start, fuel).len() ==> 2 <= #[trigger] self.chain_from(
                    start,
                    fuel,
                )[i],
            forall|i: int|
                0 < i < self.chain_from(start, fuel).len() ==> #[trigger] self.chain_from(
                    start,
                    fuel,
                )[i] <= crate::cluster::CLUSTER_MASK,
            self.chain_from(start, fuel).len() > 0 ==> self.chain_from(start, fuel)[0] == start,
        decreases fuel,
    {
        if fuel == 0 || start < 2 {
        } else {
            match self.next(start) {
                Some(n) => {
                    self.lemma_chain_from(n, (fuel - 1) as nat);
                    FatEntry::lemma_next_bounds(self.fat_entry(start));
                    let tail = self.chain_from(n, (fuel - 1) as nat);
                    let whole = self.chain_from(start, fuel);
                    assert(whole == seq![start] + tail);
                    assert forall|i: int| 0 < i < whole.len() implies #[trigger] whole[i]
                        <= crate::cluster::CLUSTER_MASK by {
                        assert(whole[i] == tail[i - 1]);
                        if i - 1 == 0 {
                            assert(tail[0] == n);
                        }
                    }
                    assert forall|i: int| 0 <= i < whole.len() implies 2 <= #[trigger] whole[i] by {
                        if i > 0 {
                            assert(whole[i] == tail[i - 1]);
                        }
                    }
                },
                None => {},
            }
        }
    }

    /// Following a chain ends after at most `cluster_limit` clusters,
    /// whatever the table holds: a table whose entries form a cycle is cut
    /// off there.
    pub proof fn lemma_chain_bounded(self, start: u32)
        ensures
            self.chain(start).len() <= self.cluster_limit(),
    {
        self.lemma_chain_from(start, self.cluster_limit());
    }

    /// A chain whose first entry names no next cluster is that one
    /// cluster, and holds exactly one cluster's bytes.
    pub proof fn lemma_single_cluster(self, start: u32)
        requires
            self.wf(),
            2 <= start <= crate::cluster::CLUSTER_MASK,
            self.next(start) is None,
        ensures
            self.chain(start) == seq![start],
            self.chain_bytes(start) == self.cluster_bytes(start),
            self.chain_bytes(start).len() == self.sectors_per_cluster * self.bytes_per_sector,
    {
        self.lemma_cluster_limit_pos();
        assert(self.chain(start) == seq![start]);
        assert(seq![start].drop_last() =~= Seq::<u32>::empty());
        assert(self.clusters_bytes(Seq::<u32>::empty()) == Seq::<u8>::empty());
        assert(self.clusters_bytes(seq![start]) == self.clusters_bytes(seq![start].drop_last())
            + self.cluster_bytes(seq![start].last()));
        assert(Seq::<u8>::empty() + self.cluster_bytes(start) =~= self.cluster_bytes(start));
        self.lemma_cluster_len(start);
    }

    /// A well-formed volume has an entry for at least one cluster.
    pub proof fn lemma_cluster_limit_pos(self)
        requires
            self.wf(),
        ensures
            self.cluster_limit() >= 1,
    {
        let spf = self.sectors_per_fat as int;
        let bps = self.bytes_per_sector as int;
        assert(spf * bps >= 4) by (nonlinear_arith)
            requires
                spf >= 1,
                bps >= 4,
        ;
    }

    /// The bytes of data clusters are as many times the bytes of one.
    pub proof fn lemma_clusters_len(self, cs: Seq<u32>)
        requires
            self.wf(),
            forall|i: int| 0 <= i < cs.len() ==> 2 <= #[trigger] cs[i] <= crate::cluster::CLUSTER_MASK,
        ensures
            self.clusters_bytes(cs).len() == cs.len() * self.cluster_len(),
        decreases cs.len(),
    {
        let len = self.cluster_len() as int;
        if cs.len() > 0 {
            self.lemma_clusters_len(cs.drop_last());
            self.lemma_cluster_len(cs.last());
            assert((cs.len() - 1) * len + len == cs.len() * len) by (nonlinear_arith);
        } else {
            assert(cs.len() * len == 0) by (nonlinear_arith)
                requires
                    cs.len() == 0,
            ;
        }
    }

    /// A chain holds a whole number of clusters' bytes: as many as it has
    /// clusters, which are at most `cluster_limit`.
    pub proof fn lemma_chain_len(self, start: u32)
        requires
            self.wf(),
            start <= crate::cluster::CLUSTER_MASK,
        ensures
            self.chain_bytes(start).len() == self.chain(start).len() * self.cluster_len(),
            self.chain_bytes(start).len() <= self.cluster_limit() * self.cluster_len(),
    {
        let chain = self.chain(start);
        self.lemma_chain_from(start, self.cluster_limit());
        assert forall|i: int| 0 <= i < chain.len() implies 2 <= #[trigger] chain[i]
            <= crate::cluster::CLUSTER_MASK by {
            if i == 0 {
                assert(chain[0] == start);
            }
        }
        self.lemma_clusters_len(chain);
        let len = self.cluster_len() as int;
        assert(chain.len() * len <= self.cluster_limit() * len) by (nonlinear_arith)
            requires
                chain.len() <= self.cluster_limit(),
                0 <= len,
        ;
    }

    /// The table entries of clusters below `cluster_limit` lie inside the
    /// first table, so no data sector holds one of them.
    pub proof fn lemma_entries_before_data(self, s: u64, cs: Seq<u32>)
        requires
            self.wf(),
            self.data_start_sector <= s,
            forall|m: int| 0 <= m < cs.len() ==> #[trigger] cs[m] < self.cluster_limit(),
        ensures
            !self.holds_entry_of(s, cs),
    {
        let bps = self.bytes_per_sector as int;
        let spf = self.sectors_per_fat as int;
        assert forall|m: int| 0 <= m < cs.len() implies #[trigger] self.fat_sector(cs[m]) != s by {
            let c = cs[m] as int;
            assert(c < self.cluster_limit());
            assert(4 * c < spf * bps) by {
                vstd::arithmetic::div_mod::lemma_fundamental_div_mod(spf * bps, 4);
                vstd::arithmetic::div_mod::lemma_mod_pos_bound(spf * bps, 4);
            }
            assert((4 * c) / bps < spf) by {
                vstd::arithmetic::div_mod::lemma_div_by_multiple_is_strongly_ordered(
                    4 * c,
                    spf * bps,
                    spf,
                    bps,
                );
                vstd::arithmetic::div_mod::lemma_div_by_multiple(spf, bps);
            }
        }
    }
}

} // verus!

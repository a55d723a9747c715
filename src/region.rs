//! Contiguous address ranges ("regions") rebuilt from an Intel HEX record
//! stream, their alignment-aware merging, and their packetization.
use vstd::prelude::*;
use crate::packet::{wire_bytes, FirmwareUpdatePacket, PacketModel, MAX_DATA_LENGTH};
use crate::record::{record_models, Record, RecordModel};
use crate::wire::{push_all, push_zeros, round_up_8, zeros};

verus! {

/// What a region holds: its first address and its bytes.
pub struct RegionModel {
    pub base: u32,
    pub data: Seq<u8>,
}

/// One past the last address of `r`.
pub open spec fn region_end(r: RegionModel) -> int {
    r.base + r.data.len()
}

/// The regions lie in ascending address order and no two share an address.
pub open spec fn sorted_disjoint(rs: Seq<RegionModel>) -> bool {
    forall|i: int, j: int| 0 <= i < j < rs.len() ==> region_end(rs[i]) <= rs[j].base
}

/// Sorted by base address, ascending.
pub open spec fn sorted_by_base(rs: Seq<RegionModel>) -> bool {
    forall|i: int, j: int| 0 <= i < j < rs.len() ==> rs[i].base <= rs[j].base
}

/// No two regions (at distinct positions) share an address.
pub open spec fn pairwise_disjoint(rs: Seq<RegionModel>) -> bool {
    forall|i: int, j: int|
        0 <= i < rs.len() && 0 <= j < rs.len() && i != j ==> region_end(rs[i]) <= rs[j].base
            || region_end(rs[j]) <= rs[i].base
}

/// `p` is a reordering of the positions `0..n`.
pub open spec fn is_reordering(p: Seq<int>, n: nat) -> bool {
    &&& p.len() == n
    &&& forall|i: int| 0 <= i < n ==> 0 <= #[trigger] p[i] < n
    &&& forall|i: int, j: int| 0 <= i < n && 0 <= j < n && i != j ==> p[i] != p[j]
}

/// `out` holds the regions of `rs`, reordered by ascending base address.
pub open spec fn is_sorted_reordering(rs: Seq<RegionModel>, out: Seq<RegionModel>) -> bool {
    &&& out.len() == rs.len()
    &&& sorted_by_base(out)
    &&& exists|p: Seq<int>|
        is_reordering(p, rs.len()) && forall|i: int| 0 <= i < out.len() ==> out[i] == rs[p[i]]
}

/// A contiguous run of firmware bytes at a known absolute address.
#[derive(Debug, Clone, PartialEq, Eq)]
pub struct Region {
    base: u32,
    data: Vec<u8>,
}

impl View for Region {
    type V = RegionModel;

    closed spec fn view(&self) -> RegionModel {
        RegionModel { base: self.base, data: self.data@ }
    }
}

/// The models of a sequence of regions.
pub open spec fn models(rs: Seq<Region>) -> Seq<RegionModel> {
    rs.map_values(|r: Region| r@)
}

/// State of the region builder between two records.
pub struct BuildState {
    /// Added to each data record's offset.
    pub segment: u32,
    /// The offset that continues the open region.
    pub pointer: int,
    /// The region being accumulated (empty between regions).
    pub open: RegionModel,
    /// The regions finished so far, in the order they were closed.
    pub done: Seq<RegionModel>,
}

/// The segment base that a non-data record sets.
pub open spec fn segment_after(r: RecordModel) -> u32 {
    match r {
        RecordModel::ExtendedSegmentAddress(b) => ((b as u32) << 4u32) as u32,
        RecordModel::ExtendedLinearAddress(b) => ((b as u32) << 16u32) as u32,
        _ => 0u32,
    }
}

/// The builder's transition on one record.
pub open spec fn build_step(s: BuildState, r: RecordModel) -> BuildState {
    match r {
        RecordModel::Data { offset, value } => {
            if value.len() == 0 {
                s
            } else if s.open.data.len() == 0 {
                BuildState {
                    pointer: offset + value.len(),
                    open: RegionModel { base: (s.segment + offset) as u32, data: value },
                    ..s
                }
            } else if offset != s.pointer {
                BuildState {
                    pointer: offset + value.len(),
                    open: RegionModel { base: (s.segment + offset) as u32, data: value },
                    done: s.done.push(s.open),
                    ..s
                }
            } else {
                BuildState {
                    pointer: offset + value.len(),
                    open: RegionModel { base: s.open.base, data: s.open.data + value },
                    ..s
                }
            }
        },
        _ => {
            let seg = segment_after(r);
            BuildState {
                segment: seg,
                pointer: 0,
                open: RegionModel { base: seg, data: Seq::empty() },
                done: if s.open.data.len() > 0 { s.done.push(s.open) } else { s.done },
            }
        },
    }
}

/// The builder's state after the records `rs`, in order.
pub open spec fn build_run(rs: Seq<RecordModel>) -> BuildState
    decreases rs.len(),
{
    if rs.len() == 0 {
        BuildState {
            segment: 0,
            pointer: 0,
            open: RegionModel { base: 0, data: Seq::empty() },
            done: Seq::empty(),
        }
    } else {
        build_step(build_run(rs.drop_last()), rs.last())
    }
}

/// The regions that the records `rs` close, in the order they are closed.
/// Bytes after the last non-data record belong to no closed region.
pub open spec fn spans_of(rs: Seq<RecordModel>) -> Seq<RegionModel> {
    build_run(rs).done
}

/// Every region that the builder closes holds at least one byte, and the
/// segment base stays where a 16-bit offset added to it fits in 32 bits.
pub proof fn lemma_build_run_bounds(rs: Seq<RecordModel>)
    ensures
        build_run(rs).segment <= 0xffff0000,
        forall|k: int| 0 <= k < build_run(rs).done.len() ==> build_run(rs).done[k].data.len() > 0,
    decreases rs.len(),
{
    if rs.len() > 0 {
        lemma_build_run_bounds(rs.drop_last());
        let r = rs.last();
        match r {
            RecordModel::ExtendedSegmentAddress(b) => {
                assert(((b as u32) << 4u32) <= 0xffff0u32) by (bit_vector);
            },
            RecordModel::ExtendedLinearAddress(b) => {
                assert(((b as u32) << 16u32) <= 0xffff0000u32) by (bit_vector);
            },
            _ => {},
        }
    }
}

/// Relies on `slice::sort_by_key` (std): it reorders the regions so that
/// their base addresses ascend.
#[verifier::external_body]
fn sort_by_base(v: &mut Vec<Region>)
    ensures
        is_sorted_reordering(models(old(v)@), models(final(v)@)),
{
    v.sort_by_key(|r| r.base)
}

impl Region {
    /// An empty region at `base`.
    pub fn new(base: u32) -> (r: Self)
        ensures
            r@ == (RegionModel { base, data: Seq::empty() }),
    {
        Region { base, data: Vec::new() }
    }

    /// The number of bytes.
    pub fn len(&self) -> (r: usize)
        ensures
            r == self@.data.len(),
    {
        self.data.len()
    }

    /// Whether the region holds no byte.
    pub fn is_empty(&self) -> (r: bool)
        ensures
            r == (self@.data.len() == 0),
    {
        self.data.len() == 0
    }

    /// The first address.
    pub fn address(&self) -> (r: u32)
        ensures
            r == self@.base,
    {
        self.base
    }

    /// The bytes, from the first address on.
    pub fn data(&self) -> (r: &[u8])
        ensures
            r@ == self@.data,
    {
        self.data.as_slice()
    }

    /// Rebuilds the contiguous regions that a record stream describes, sorted
    /// by base address. A data record continues the open region when its
    /// offset is the one that follows the previous record's bytes; any other
    /// data record starts a new region. Every non-data record closes the open
    /// region and sets the segment base (to zero, but for the address
    /// extensions); closing after or before setting the base gives the same
    /// region. Empty data records change nothing.
    pub fn build_regions(records: &[Record]) -> (r: Vec<Region>)
        ensures
            is_sorted_reordering(spans_of(record_models(records@)), models(r@)),
            pairwise_disjoint(spans_of(record_models(records@))) ==> sorted_disjoint(models(r@)),
    {
        let mut regions: Vec<Region> = Vec::new();
        let mut segment: u32 = 0;
        let mut pointer: u64 = 0;
        let mut base: u32 = 0;
        let mut data: Vec<u8> = Vec::new();
        let mut i: usize = 0;
        while i < records.len()
            invariant
                i <= records@.len(),
                ({
                    let s = build_run(record_models(records@).subrange(0, i as int));
                    &&& s.segment == segment
                    &&& segment <= 0xffff0000
                    &&& s.done == models(regions@)
                    &&& s.open.data == data@
                    &&& data@.len() > 0 ==> s.open.base == base
                    &&& pointer == if s.pointer > u64::MAX { u64::MAX as int } else { s.pointer }
                }),
            decreases records@.len() - i,
        {
            proof {
                assert(record_models(records@).subrange(0, i as int + 1).drop_last() =~= record_models(records@).subrange(0, i as int));
                assert(record_models(records@)[i as int] == records@[i as int]@);
                lemma_build_run_bounds(record_models(records@).subrange(0, i as int));
            }
            match &records[i] {
                Record::Data { offset, value } => {
                    let length = value.len();
                    if length > 0 {
                        if data.len() == 0 {
                            base = segment + *offset as u32;
                        } else if *offset as u64 != pointer {
                            let closed = Region { base, data };
                            proof {
                                assert(models(regions@.push(closed)) =~= models(regions@).push(closed@));
                            }
                            regions.push(closed);
                            base = segment + *offset as u32;
                            data = Vec::new();
                        }
                        push_all(&mut data, value.as_slice());
                        pointer = (*offset as u64).saturating_add(length as u64);
                    }
                },
                _ => {
                    segment = match &records[i] {
                        Record::ExtendedSegmentAddress(b) => (*b as u32) << 4,
                        Record::ExtendedLinearAddress(b) => (*b as u32) << 16,
                        _ => 0,
                    };
                    if data.len() > 0 {
                        let closed = Region { base, data };
                        proof {
                            assert(models(regions@.push(closed)) =~= models(regions@).push(closed@));
                        }
                        regions.push(closed);
                        data = Vec::new();
                    }
                    base = segment;
                    pointer = 0;
                },
            }
            i += 1;
            proof {
                lemma_build_run_bounds(record_models(records@).subrange(0, i as int));
            }
        }
        proof {
            assert(record_models(records@).subrange(0, records@.len() as int) =~= record_models(records@));
        }
        sort_by_base(&mut regions);
        proof {
            lemma_build_run_bounds(record_models(records@));
            if pairwise_disjoint(spans_of(record_models(records@))) {
                lemma_sorted_reordering_disjoint(spans_of(record_models(records@)), models(regions@));
            }
        }
        regions
    }
}

/// Reordering non-empty, pairwise disjoint regions by base address leaves
/// them sorted and non-overlapping.
pub proof fn lemma_sorted_reordering_disjoint(rs: Seq<RegionModel>, out: Seq<RegionModel>)
    requires
        is_sorted_reordering(rs, out),
        pairwise_disjoint(rs),
        forall|k: int| 0 <= k < rs.len() ==> rs[k].data.len() > 0,
    ensures
        sorted_disjoint(out),
{
    let p = choose|p: Seq<int>|
        is_reordering(p, rs.len()) && forall|i: int| 0 <= i < out.len() ==> out[i] == rs[p[i]];
    assert forall|i: int, j: int| 0 <= i < j < out.len() implies region_end(out[i]) <= out[j].base by {
        assert(out[i] == rs[p[i]] && out[j] == rs[p[j]]);
        assert(p[i] != p[j]);
        assert(0 <= p[i] < rs.len() && 0 <= p[j] < rs.len());
        assert(rs[p[j]].data.len() > 0);
    }
}

/// `a` followed by zeros up to `b`'s base, then `b`'s bytes, as one region at
/// `a`'s base.
pub open spec fn pad_join(a: RegionModel, b: RegionModel) -> RegionModel {
    RegionModel { base: a.base, data: a.data + zeros((b.base - region_end(a)) as nat) + b.data }
}

/// `b` starts no later than the first 8-byte boundary at or after `a`'s end.
pub open spec fn joins_aligned(a: RegionModel, b: RegionModel) -> bool {
    b.base <= round_up_8(region_end(a))
}

/// The regions `rs`, each joined to the one before it (with zero padding)
/// where the gap ends by the next 8-byte boundary.
pub open spec fn merge_aligned(rs: Seq<RegionModel>) -> Seq<RegionModel>
    decreases rs.len(),
{
    if rs.len() <= 1 {
        rs
    } else {
        let acc = merge_aligned(rs.drop_last());
        let prev = acc.last();
        let curr = rs.last();
        if joins_aligned(prev, curr) {
            acc.drop_last().push(pad_join(prev, curr))
        } else {
            acc.push(curr)
        }
    }
}

/// Merging sorted, non-overlapping regions leaves them sorted and
/// non-overlapping, and the last merged region ends where the last input
/// region ends.
pub proof fn lemma_merge_aligned_sorted_disjoint(rs: Seq<RegionModel>)
    requires
        sorted_disjoint(rs),
    ensures
        sorted_disjoint(merge_aligned(rs)),
        rs.len() > 0 ==> merge_aligned(rs).len() > 0 && region_end(merge_aligned(rs).last())
            == region_end(rs.last()),
    decreases rs.len(),
{
    if rs.len() > 1 {
        let front = rs.drop_last();
        assert(sorted_disjoint(front)) by {
            assert forall|i: int, j: int| 0 <= i < j < front.len() implies region_end(front[i])
                <= front[j].base by {
                assert(front[i] == rs[i] && front[j] == rs[j]);
            }
        }
        lemma_merge_aligned_sorted_disjoint(front);
        let acc = merge_aligned(front);
        let prev = acc.last();
        let curr = rs.last();
        assert(region_end(rs[rs.len() - 2]) <= curr.base);
        assert(front.last() == rs[rs.len() - 2]);
        assert forall|i: int| 0 <= i < acc.len() - 1 implies region_end(#[trigger] acc[i]) <= prev.base by {
            assert(region_end(acc[i]) <= acc[acc.len() - 1].base);
        }
        let out = merge_aligned(rs);
        if joins_aligned(prev, curr) {
            assert forall|i: int, j: int| 0 <= i < j < out.len() implies region_end(out[i]) <= out[j].base by {
                if j < out.len() - 1 {
                    assert(out[i] == acc[i] && out[j] == acc[j]);
                } else {
                    assert(out[i] == acc[i]);
                }
            }
        } else {
            assert forall|i: int, j: int| 0 <= i < j < out.len() implies region_end(out[i]) <= out[j].base by {
                if j < out.len() - 1 {
                    assert(out[i] == acc[i] && out[j] == acc[j]);
                } else if i < out.len() - 2 {
                    assert(out[i] == acc[i]);
                    assert(region_end(acc[i]) <= prev.base);
                }
            }
        }
    }
}

/// All of the non-empty `rs` as one region from the first base to the last
/// end, every gap filled with zeros.
pub open spec fn join_all(rs: Seq<RegionModel>) -> RegionModel
    recommends
        rs.len() > 0,
    decreases rs.len(),
{
    if rs.len() <= 1 {
        rs[0]
    } else {
        pad_join(join_all(rs.drop_last()), rs.last())
    }
}

/// A copy of `r`.
fn copy_region(r: &Region) -> (c: Region)
    ensures
        c@ == r@,
{
    let mut data: Vec<u8> = Vec::new();
    push_all(&mut data, r.data.as_slice());
    assert(data@ =~= r.data@);
    Region { base: r.base, data }
}

/// Merges neighbouring regions that become contiguous once the earlier one
/// is padded to the next 8-byte boundary: the gap is filled with zeros.
/// Regions further apart stay separate.
pub fn merge_regions(regions: &[Region]) -> (r: Vec<Region>)
    requires
        sorted_disjoint(models(regions@)),
    ensures
        models(r@) == merge_aligned(models(regions@)),
        sorted_disjoint(models(r@)),
{
    let ghost rs = models(regions@);
    let mut result: Vec<Region> = Vec::new();
    proof {
        lemma_merge_aligned_sorted_disjoint(rs);
    }
    if regions.len() == 0 {
        assert(models(result@) =~= rs);
        return result;
    }
    let mut prev = copy_region(&regions[0]);
    proof {
        assert(rs.subrange(0, 1) =~= seq![rs[0]]);
    }
    let mut i: usize = 1;
    while i < regions.len()
        invariant
            rs == models(regions@),
            sorted_disjoint(rs),
            1 <= i <= rs.len(),
            merge_aligned(rs.subrange(0, i as int)) == models(result@).push(prev@),
            region_end(prev@) == region_end(rs[i - 1]),
        decreases rs.len() - i,
    {
        let curr = &regions[i];
        proof {
            assert(rs[i as int] == curr@);
            assert(rs.subrange(0, i as int + 1).drop_last() =~= rs.subrange(0, i as int));
            assert(region_end(rs[i - 1]) <= rs[i as int].base);
        }
        let end: u64 = prev.base as u64 + prev.data.len() as u64;
        let next: u64 = (end + 7) / 8 * 8;
        proof {
            assert(round_up_8(end as int) == next);
        }
        if curr.base as u64 <= next {
            let npad = (curr.base as u64 - end) as usize;
            let ghost before = prev@;
            push_zeros(&mut prev.data, npad);
            push_all(&mut prev.data, curr.data.as_slice());
            proof {
                assert(prev@ =~= pad_join(before, curr@));
                assert(models(result@).push(before).drop_last() =~= models(result@));
            }
        } else {
            let done = prev;
            proof {
                assert(models(result@.push(done)) =~= models(result@).push(done@));
            }
            result.push(done);
            prev = copy_region(curr);
        }
        i += 1;
    }
    proof {
        assert(rs.subrange(0, rs.len() as int) =~= rs);
        assert(models(result@.push(prev)) =~= models(result@).push(prev@));
    }
    result.push(prev);
    result
}

impl Region {
    /// All regions as one, from the first base to the last end, every gap
    /// filled with zeros whatever its size; `None` for no region.
    pub fn single_region(regions: &[Region]) -> (r: Option<Region>)
        requires
            sorted_disjoint(models(regions@)),
        ensures
            regions@.len() == 0 <==> r is None,
            r matches Some(m) ==> m@ == join_all(models(regions@)),
    {
        let ghost rs = models(regions@);
        if regions.len() == 0 {
            return None;
        }
        let mut mono = copy_region(&regions[0]);
        let mut i: usize = 1;
        while i < regions.len()
            invariant
                rs == models(regions@),
                sorted_disjoint(rs),
                1 <= i <= rs.len(),
                join_all(rs.subrange(0, i as int)) == mono@,
                region_end(mono@) == region_end(rs[i - 1]),
            decreases rs.len() - i,
        {
            let curr = &regions[i];
            proof {
                assert(rs[i as int] == curr@);
                assert(rs.subrange(0, i as int + 1).drop_last() =~= rs.subrange(0, i as int));
                assert(region_end(rs[i - 1]) <= rs[i as int].base);
            }
            let end: u64 = mono.base as u64 + mono.data.len() as u64;
            let npad = (curr.base as u64 - end) as usize;
            let ghost before = mono@;
            push_zeros(&mut mono.data, npad);
            push_all(&mut mono.data, curr.data.as_slice());
            assert(mono@ =~= pad_join(before, curr@));
            i += 1;
        }
        proof {
            assert(rs.subrange(0, rs.len() as int) =~= rs);
        }
        Some(mono)
    }
}

/// The number of 200-byte chunks that `n` bytes take, the last one partial.
pub open spec fn chunk_count(n: nat) -> nat {
    ((n + 199) / 200) as nat
}

/// The packets of region `r`: chunk `i` holds bytes `200 * i` up to
/// `200 * i + 200` (or the end) and goes to address `base + 200 * i`.
pub open spec fn packets_of(r: RegionModel) -> Seq<PacketModel> {
    Seq::new(
        chunk_count(r.data.len()),
        |i: int|
            PacketModel {
                address: (r.base + 200 * i) as u32,
                payload: r.data.subrange(
                    200 * i,
                    if 200 * i + 200 <= r.data.len() { 200 * i + 200 } else { r.data.len() as int },
                ),
            },
    )
}

/// The packets of all the regions `rs`, region after region.
pub open spec fn packets_of_all(rs: Seq<RegionModel>) -> Seq<PacketModel>
    decreases rs.len(),
{
    if rs.len() == 0 {
        Seq::empty()
    } else {
        packets_of_all(rs.drop_last()) + packets_of(rs.last())
    }
}

/// A region that the packetizer takes: its addresses fit in 32 bits and its
/// last chunk is a whole number of 8-byte flash words.
pub open spec fn packetizable(r: RegionModel) -> bool {
    region_end(r) <= 0x1_0000_0000 && r.data.len() % 8 == 0
}

/// The models of a sequence of packets.
pub open spec fn packet_models(ps: Seq<FirmwareUpdatePacket>) -> Seq<PacketModel> {
    ps.map_values(|p: FirmwareUpdatePacket| p@)
}

impl Region {
    fn packets(&self) -> (r: Vec<FirmwareUpdatePacket>)
        requires
            packetizable(self@),
        ensures
            packet_models(r@) == packets_of(self@),
    {
        let ghost m = self@;
        let n = self.data.len();
        let mut packets: Vec<FirmwareUpdatePacket> = Vec::new();
        let mut start: usize = 0;
        let mut k: usize = 0;
        while start < n
            invariant
                m == self@,
                n == m.data.len(),
                packetizable(m),
                start <= n,
                start < n ==> start == 200 * k,
                start == n ==> k == chunk_count(n as nat),
                k <= chunk_count(n as nat),
                packet_models(packets@) == packets_of(m).subrange(0, k as int),
            decreases n - start,
        {
            let end: usize = if n - start >= MAX_DATA_LENGTH { start + MAX_DATA_LENGTH } else { n };
            let mut chunk: [u8; 200] = [0u8; 200];
            let mut j: usize = start;
            while j < end
                invariant
                    start <= j <= end <= n,
                    end - start <= 200,
                    n == self.data@.len(),
                    forall|t: int| 0 <= t < j - start ==> chunk@[t] == self.data@[start + t],
                decreases end - j,
            {
                chunk[j - start] = self.data[j];
                j += 1;
            }
            let addr: u32 = self.base + start as u32;
            let packet = FirmwareUpdatePacket::new(addr, chunk, end - start);
            proof {
                assert(packet@.payload =~= packets_of(m)[k as int].payload);
                assert(packets_of(m).subrange(0, k as int + 1) =~= packets_of(m).subrange(0, k as int).push(packet@));
                assert(packet_models(packets@.push(packet)) =~= packet_models(packets@).push(packet@));
            }
            packets.push(packet);
            start = end;
            k += 1;
            proof {
                let kk = k as int;
                let nn = n as int;
                if start == n {
                    assert((nn + 199) / 200 == kk) by (nonlinear_arith)
                        requires
                            200 * (kk - 1) < nn <= 200 * kk,
                    ;
                } else {
                    assert(kk <= (nn + 199) / 200) by (nonlinear_arith)
                        requires
                            200 * kk < nn,
                    ;
                }
            }
        }
        proof {
            assert(packets_of(m).subrange(0, k as int) =~= packets_of(m));
        }
        packets
    }

    /// Splits the region into packets of 200 bytes each, the last one
    /// holding what is left, at ascending addresses from the region's base.
    pub fn make_packets(&mut self) -> (r: Vec<FirmwareUpdatePacket>)
        requires
            packetizable(old(self)@),
        ensures
            *final(self) == *old(self),
            packet_models(r@) == packets_of(old(self)@),
    {
        self.packets()
    }
}

/// The packets of every region, region after region.
pub fn make_packets(regions: &mut [Region]) -> (r: Vec<FirmwareUpdatePacket>)
    requires
        forall|k: int| 0 <= k < old(regions)@.len() ==> packetizable(#[trigger] old(regions)@[k]@),
    ensures
        final(regions)@ == old(regions)@,
        packet_models(r@) == packets_of_all(models(old(regions)@)),
{
    let ghost rs = models(regions@);
    let mut packets: Vec<FirmwareUpdatePacket> = Vec::new();
    let mut i: usize = 0;
    while i < regions.len()
        invariant
            rs == models(regions@),
            regions@ == old(regions)@,
            forall|k: int| 0 <= k < regions@.len() ==> packetizable(#[trigger] regions@[k]@),
            i <= rs.len(),
            packet_models(packets@) == packets_of_all(rs.subrange(0, i as int)),
        decreases rs.len() - i,
    {
        let more = regions[i].packets();
        proof {
            assert(rs.subrange(0, i as int + 1).drop_last() =~= rs.subrange(0, i as int));
            assert(rs[i as int] == regions@[i as int]@);
        }
        let ghost before = packets@;
        let mut j: usize = 0;
        while j < more.len()
            invariant
                j <= more@.len(),
                packets@ == before + more@.subrange(0, j as int),
            decreases more@.len() - j,
        {
            packets.push(more[j]);
            j += 1;
            assert(packets@ =~= before + more@.subrange(0, j as int));
        }
        proof {
            assert(more@.subrange(0, more@.len() as int) =~= more@);
            assert(packet_models(before + more@) =~= packet_models(before) + packet_models(more@));
        }
        i += 1;
    }
    proof {
        assert(rs.subrange(0, rs.len() as int) =~= rs);
    }
    packets
}

/// A region of exactly `200 * n` bytes packetizes into `n` packets of 200
/// bytes each, at `base`, `base + 200`, and so on.
pub proof fn lemma_whole_chunks(r: RegionModel, n: nat)
    requires
        packetizable(r),
        r.data.len() == 200 * n,
    ensures
        packets_of(r).len() == n,
        forall|i: int|
            0 <= i < n ==> (#[trigger] packets_of(r)[i]).payload.len() == 200
                && packets_of(r)[i].address == r.base + 200 * i,
{
    assert((200 * n + 199) / 200 == n) by (nonlinear_arith);
    assert forall|i: int| 0 <= i < n implies (#[trigger] packets_of(r)[i]).payload.len() == 200
        && packets_of(r)[i].address == r.base + 200 * i by {
        assert(200 * i + 200 <= 200 * n) by (nonlinear_arith)
            requires
                i < n,
        ;
    }
}

/// A region of `200 * n + k` bytes, with `0 < k < 200` and `k` a multiple
/// of 8, packetizes into `n + 1` packets; the last carries `k` bytes and the
/// last `200 - k` bytes of its data field are zero.
pub proof fn lemma_partial_last_chunk(r: RegionModel, n: nat, k: nat)
    requires
        packetizable(r),
        r.data.len() == 200 * n + k,
        0 < k < 200,
        k % 8 == 0,
    ensures
        packets_of(r).len() == n + 1,
        packets_of(r)[n as int].payload.len() == k,
        packets_of(r)[n as int].address == r.base + 200 * n,
        wire_bytes(packets_of(r)[n as int]).subrange(12 + k as int, 212) == zeros((200 - k) as nat),
{
    assert((200 * n + k + 199) / 200 == n + 1) by (nonlinear_arith)
        requires
            0 < k < 200,
    ;
    let last = packets_of(r)[n as int];
    assert(last.payload.len() == k);
    assert(wire_bytes(last).subrange(12 + k as int, 212) =~= zeros((200 - k) as nat));
}

/// Two regions in order, the second beginning at or after the first's end,
/// merge into one exactly when the second begins by the first 8-byte
/// boundary at or after the first's end; the zeros between them are then
/// exactly as many as the gap's bytes. Otherwise both stay as they are.
pub proof fn lemma_merge_two(a: RegionModel, b: RegionModel)
    requires
        region_end(a) <= b.base,
    ensures
        b.base <= round_up_8(region_end(a)) ==> merge_aligned(seq![a, b]) == seq![
            RegionModel {
                base: a.base,
                data: a.data + zeros((b.base - region_end(a)) as nat) + b.data,
            },
        ],
        b.base > round_up_8(region_end(a)) ==> merge_aligned(seq![a, b]) == seq![a, b],
{
    let rs = seq![a, b];
    assert(rs.drop_last() =~= seq![a]);
    assert(merge_aligned(seq![a]) == seq![a]);
    assert(seq![a].drop_last() =~= Seq::<RegionModel>::empty());
    if b.base <= round_up_8(region_end(a)) {
        assert(merge_aligned(rs) =~= seq![pad_join(a, b)]);
    } else {
        assert(merge_aligned(rs) =~= seq![a, b]);
    }
}

} // verus!

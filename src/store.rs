//! The data-file layout of a block, its metadata, and the plan of a filtered read.
use vstd::prelude::*;
use crate::codec::{code_accepted, last_value};
use crate::indexer::{BlockIndex, CodeGroup, groups_within};

verus! {

/// The index part of a block's metadata: the codes in stored order, and for
/// each the byte range of its records in the data file.
pub struct IndexDescriptor {
    pub codes: Vec<u32>,
    pub starts: Vec<u64>,
    pub ends: Vec<u64>,
    pub start_timestamp: u64,
    pub end_timestamp: u64,
}

/// What is stored beside a block's data file.
pub struct BlockMetadata {
    pub block_id: u64,
    pub length: u64,
    pub index: Option<IndexDescriptor>,
}

/// The bytes of `d` in the ranges `rs`, one after another.
pub open spec fn range_bytes(d: Seq<u8>, rs: Seq<(usize, usize)>) -> Seq<u8>
    decreases rs.len(),
{
    if rs.len() == 0 {
        seq![]
    } else {
        range_bytes(d, rs.drop_last()) + d.subrange(rs.last().0 as int, rs.last().1 as int)
    }
}

/// The bytes of the records of the groups, group after group.
pub open spec fn layout(d: Seq<u8>, gs: Seq<CodeGroup>) -> Seq<u8>
    decreases gs.len(),
{
    if gs.len() == 0 {
        seq![]
    } else {
        layout(d, gs.drop_last()) + range_bytes(d, gs.last().ranges@)
    }
}

/// The offset arrays of `desc` partition a data file of `length` bytes: each
/// code's range starts where the previous one ends, the first at zero and the
/// last ending at `length`.
pub open spec fn offsets_partition(desc: IndexDescriptor, length: u64) -> bool {
    let n = desc.codes@.len();
    &&& desc.starts@.len() == n
    &&& desc.ends@.len() == n
    &&& n == 0 ==> length == 0
    &&& n > 0 ==> desc.starts@[0] == 0 && desc.ends@[n - 1] == length
    &&& forall|i: int| 0 <= i < n ==> desc.starts@[i] <= #[trigger] desc.ends@[i]
    &&& forall|i: int| 0 <= i < n - 1 ==> #[trigger] desc.ends@[i] == desc.starts@[i + 1]
}

/// The data file and metadata written for a block: with an index, the records
/// grouped by code in code order, and the descriptor of each group's range;
/// without one, the payload as it is.
pub open spec fn written(
    block_id: u64,
    d: Seq<u8>,
    index: Option<BlockIndex>,
    file: Seq<u8>,
    meta: BlockMetadata,
) -> bool {
    &&& meta.block_id == block_id
    &&& meta.length == file.len()
    &&& match index {
        None => file == d && meta.index is None,
        Some(idx) => {
            &&& file == layout(d, idx.groups@)
            &&& meta.index matches Some(desc) && {
                &&& desc.codes@.len() == idx.groups@.len()
                &&& forall|i: int|
                    0 <= i < idx.groups@.len() ==> #[trigger] desc.codes@[i] == idx.groups@[i].code
                &&& forall|i: int|
                    0 <= i < idx.groups@.len() ==> #[trigger] desc.starts@[i] == layout(
                        d,
                        idx.groups@.take(i),
                    ).len() && desc.ends@[i] == layout(d, idx.groups@.take(i + 1)).len()
                &&& desc.start_timestamp == idx.min_timestamp
                &&& desc.end_timestamp == idx.max_timestamp
                &&& offsets_partition(desc, meta.length)
            }
        },
    }
}

fn append_range(out: &mut Vec<u8>, data: &Vec<u8>, from: usize, to: usize)
    requires
        from <= to <= data@.len(),
    ensures
        final(out)@ == old(out)@ + data@.subrange(from as int, to as int),
{
    let ghost start = out@;
    let mut p = from;
    while p < to
        invariant
            from <= p <= to <= data@.len(),
            out@ == start + data@.subrange(from as int, p as int),
        decreases to - p,
    {
        out.push(data[p]);
        p = p + 1;
        assert(out@ =~= start + data@.subrange(from as int, p as int));
    }
}

/// The data file and the metadata of a block, as `written` states. The
/// length is the number of bytes written, not that of the payload.
pub fn write_layout(block_id: u64, data: &Vec<u8>, index: &Option<BlockIndex>) -> (r: (
    Vec<u8>,
    BlockMetadata,
))
    requires
        index matches Some(idx) ==> groups_within(idx.groups@, data@.len() as int),
    ensures
        written(block_id, data@, *index, r.0@, r.1),
{
    let mut out: Vec<u8> = Vec::new();
    match index {
        None => {
            append_range(&mut out, data, 0, data.len());
            assert(out@ =~= data@);
            let length = out.len() as u64;
            (out, BlockMetadata { block_id, length, index: None })
        },
        Some(idx) => {
            let ghost d = data@;
            let ghost gs = idx.groups@;
            let mut codes: Vec<u32> = Vec::new();
            let mut starts: Vec<u64> = Vec::new();
            let mut ends: Vec<u64> = Vec::new();
            let mut i: usize = 0;
            while i < idx.groups.len()
                invariant
                    gs == idx.groups@,
                    d == data@,
                    groups_within(gs, d.len() as int),
                    i <= gs.len(),
                    out@ == layout(d, gs.take(i as int)),
                    codes@.len() == i && starts@.len() == i && ends@.len() == i,
                    forall|k: int| 0 <= k < i ==> #[trigger] codes@[k] == gs[k].code,
                    forall|k: int|
                        0 <= k < i ==> #[trigger] starts@[k] == layout(d, gs.take(k)).len()
                            && ends@[k] == layout(d, gs.take(k + 1)).len(),
                decreases gs.len() - i,
            {
                let g = &idx.groups[i];
                let ghost before = out@;
                codes.push(g.code);
                starts.push(out.len() as u64);
                let mut j: usize = 0;
                while j < g.ranges.len()
                    invariant
                        gs == idx.groups@,
                        d == data@,
                        groups_within(gs, d.len() as int),
                        i < gs.len(),
                        *g == gs[i as int],
                        j <= g.ranges@.len(),
                        out@ == before + range_bytes(d, g.ranges@.take(j as int)),
                    decreases g.ranges.len() - j,
                {
                    let (from, to) = g.ranges[j];
                    assert(g.ranges@[j as int] == gs[i as int].ranges@[j as int]);
                    append_range(&mut out, data, from, to);
                    assert(g.ranges@.take(j as int + 1).drop_last() =~= g.ranges@.take(j as int));
                    j = j + 1;
                }
                assert(g.ranges@.take(j as int) =~= g.ranges@);
                assert(gs.take(i as int + 1).drop_last() =~= gs.take(i as int));
                ends.push(out.len() as u64);
                i = i + 1;
            }
            assert(gs.take(i as int) =~= gs);
            let length = out.len() as u64;
            let desc = IndexDescriptor {
                codes,
                starts,
                ends,
                start_timestamp: idx.min_timestamp,
                end_timestamp: idx.max_timestamp,
            };
            proof {
                assert forall|k: int| 0 <= k < gs.len() implies desc.starts@[k] <= #[trigger] desc.ends@[k] by {
                    lemma_layout_grows(d, gs.take(k + 1));
                    assert(gs.take(k + 1).drop_last() =~= gs.take(k));
                }
                assert forall|k: int| 0 <= k < gs.len() - 1 implies #[trigger] desc.ends@[k]
                    == desc.starts@[k + 1] by {
                }
                if gs.len() > 0 {
                    assert(gs.take(0) =~= seq![]);
                }
            }
            (out, BlockMetadata { block_id, length, index: Some(desc) })
        },
    }
}

proof fn lemma_layout_grows(d: Seq<u8>, gs: Seq<CodeGroup>)
    requires
        gs.len() > 0,
    ensures
        layout(d, gs.drop_last()).len() <= layout(d, gs).len(),
{
}

/// The segments of the data file that a filtered read copies, after the first
/// `n` codes, and how much of the starting offset is still to be skipped: a
/// code takes part when `code_accepted` holds of it, and the
/// first `offset` bytes of the ranges that take part are skipped.
pub open spec fn plan_prefix(
    codes: Seq<u32>,
    starts: Seq<u64>,
    ends: Seq<u64>,
    acc: Seq<u8>,
    offset: u64,
    n: int,
) -> (Seq<(u64, u64)>, u64)
    decreases n,
{
    if n <= 0 {
        (seq![], offset)
    } else {
        let prev = plan_prefix(codes, starts, ends, acc, offset, n - 1);
        let i = n - 1;
        if code_accepted(codes[i], acc) && starts[i] < ends[i] {
            let len = ends[i] - starts[i];
            if prev.1 >= len {
                (prev.0, (prev.1 - len) as u64)
            } else {
                (prev.0.push(((starts[i] + prev.1) as u64, ends[i])), 0u64)
            }
        } else {
            prev
        }
    }
}

/// The plan of a filtered read over all the codes of a descriptor.
pub open spec fn plan_of(desc: IndexDescriptor, acc: Seq<u8>, offset: u64) -> (Seq<(u64, u64)>, u64) {
    plan_prefix(desc.codes@, desc.starts@, desc.ends@, acc, offset, desc.codes@.len() as int)
}

/// The three arrays of a descriptor have one entry per code.
pub open spec fn descriptor_consistent(desc: IndexDescriptor) -> bool {
    desc.starts@.len() == desc.codes@.len() && desc.ends@.len() == desc.codes@.len()
}

fn contains_value(acc: &Vec<u8>, v: u8) -> (r: bool)
    ensures
        r == acc@.contains(v),
{
    let mut i: usize = 0;
    while i < acc.len()
        invariant
            i <= acc@.len(),
            forall|k: int| 0 <= k < i ==> acc@[k] != v,
        decreases acc.len() - i,
    {
        if acc[i] == v {
            return true;
        }
        i = i + 1;
    }
    false
}

/// The segments of the data file that a filtered read of a block copies, in
/// order, skipping the first `offset` bytes of the matching ranges. A block
/// without an index gives no segment; metadata whose arrays differ in length
/// gives `None`.
pub fn plan_filtered_read(meta: &BlockMetadata, accepted: &Vec<u8>, offset: u64) -> (r: Option<
    Vec<(u64, u64)>,
>)
    ensures
        match meta.index {
            None => r matches Some(segs) && segs@.len() == 0,
            Some(desc) => {
                &&& r is Some <==> descriptor_consistent(desc)
                &&& r matches Some(segs) ==> segs@ == plan_of(desc, accepted@, offset).0
            },
        },
{
    let mut segs: Vec<(u64, u64)> = Vec::new();
    match &meta.index {
        None => Some(segs),
        Some(desc) => {
            let n = desc.codes.len();
            if desc.starts.len() != n || desc.ends.len() != n {
                return None;
            }
            let mut remaining = offset;
            let mut i: usize = 0;
            while i < n
                invariant
                    n == desc.codes@.len() == desc.starts@.len() == desc.ends@.len(),
                    i <= n,
                    (segs@, remaining) == plan_prefix(
                        desc.codes@,
                        desc.starts@,
                        desc.ends@,
                        accepted@,
                        offset,
                        i as int,
                    ),
                decreases n - i,
            {
                let start = desc.starts[i];
                let end = desc.ends[i];
                let taken = match last_value(desc.codes[i]) {
                    Some(v) => contains_value(accepted, v),
                    None => false,
                };
                if taken && start < end {
                    let len = end - start;
                    if remaining >= len {
                        remaining = remaining - len;
                    } else {
                        segs.push((start + remaining, end));
                        remaining = 0;
                    }
                }
                i = i + 1;
            }
            Some(segs)
        },
    }
}

/// The bytes of `file` in the segments, one after another.
pub open spec fn segment_bytes(file: Seq<u8>, segs: Seq<(u64, u64)>) -> Seq<u8>
    decreases segs.len(),
{
    if segs.len() == 0 {
        seq![]
    } else {
        segment_bytes(file, segs.drop_last()) + file.subrange(
            segs.last().0 as int,
            segs.last().1 as int,
        )
    }
}

/// The bytes of a data file in the segments of a plan, or `None` when a
/// segment does not lie inside the file.
pub fn gather(file: &Vec<u8>, segs: &Vec<(u64, u64)>) -> (r: Option<Vec<u8>>)
    ensures
        r is Some <==> forall|k: int|
            0 <= k < segs@.len() ==> (#[trigger] segs@[k]).0 <= segs@[k].1 <= file@.len(),
        r matches Some(bytes) ==> bytes@ == segment_bytes(file@, segs@),
{
    let mut out: Vec<u8> = Vec::new();
    let mut i: usize = 0;
    while i < segs.len()
        invariant
            i <= segs@.len(),
            forall|k: int| 0 <= k < i ==> (#[trigger] segs@[k]).0 <= segs@[k].1 <= file@.len(),
            out@ == segment_bytes(file@, segs@.take(i as int)),
        decreases segs.len() - i,
    {
        let (from, to) = segs[i];
        if from > to || to > file.len() as u64 {
            return None;
        }
        append_range(&mut out, file, from as usize, to as usize);
        assert(segs@.take(i as int + 1).drop_last() =~= segs@.take(i as int));
        i = i + 1;
    }
    assert(segs@.take(i as int) =~= segs@);
    Some(out)
}

/// A filtered read whose accepted values match no code of the block copies
/// nothing and leaves the whole offset to be skipped.
pub proof fn lemma_disjoint_read_empty(desc: IndexDescriptor, acc: Seq<u8>, offset: u64)
    requires
        forall|i: int|
            0 <= i < desc.codes@.len() ==> !code_accepted(#[trigger] desc.codes@[i], acc),
    ensures
        plan_of(desc, acc, offset) == (Seq::<(u64, u64)>::empty(), offset),
{
    lemma_disjoint_prefix(desc, acc, offset, desc.codes@.len() as int);
}

proof fn lemma_disjoint_prefix(desc: IndexDescriptor, acc: Seq<u8>, offset: u64, n: int)
    requires
        n <= desc.codes@.len(),
        forall|i: int|
            0 <= i < desc.codes@.len() ==> !code_accepted(#[trigger] desc.codes@[i], acc),
    ensures
        plan_prefix(desc.codes@, desc.starts@, desc.ends@, acc, offset, n) == (
            Seq::<(u64, u64)>::empty(),
            offset,
        ),
    decreases n,
{
    if n > 0 {
        lemma_disjoint_prefix(desc, acc, offset, n - 1);
    }
}

proof fn lemma_read_prefix(desc: IndexDescriptor, acc: Seq<u8>, file: Seq<u8>, n: int)
    requires
        offsets_partition(desc, file.len() as u64),
        file.len() <= u64::MAX,
        0 <= n <= desc.codes@.len(),
        forall|i: int|
            0 <= i < desc.codes@.len() ==> code_accepted(#[trigger] desc.codes@[i], acc),
    ensures
        plan_prefix(desc.codes@, desc.starts@, desc.ends@, acc, 0, n).1 == 0,
        segment_bytes(file, plan_prefix(desc.codes@, desc.starts@, desc.ends@, acc, 0, n).0)
            == file.subrange(0, if n == 0 { 0int } else { desc.ends@[n - 1] as int }),
    decreases n,
{
    if n > 0 {
        lemma_read_prefix(desc, acc, file, n - 1);
        let i = n - 1;
        assert(desc.ends@[i] <= file.len()) by {
            lemma_ends_bounded(desc, file.len() as u64, i);
        }
        let prev_end: int = if i == 0 { 0int } else { desc.ends@[i - 1] as int };
        assert(prev_end == desc.starts@[i]);
        assert(code_accepted(desc.codes@[i], acc));
        let prev = plan_prefix(desc.codes@, desc.starts@, desc.ends@, acc, 0, n - 1);
        let cur = plan_prefix(desc.codes@, desc.starts@, desc.ends@, acc, 0, n);
        if desc.starts@[i] < desc.ends@[i] {
            assert(cur.0 == prev.0.push((desc.starts@[i], desc.ends@[i])));
            assert(cur.0.drop_last() =~= prev.0);
            assert(file.subrange(0, prev_end) + file.subrange(prev_end, desc.ends@[i] as int)
                =~= file.subrange(0, desc.ends@[i] as int));
        } else {
            assert(cur == prev);
        }
    } else {
        assert(file.subrange(0, 0) =~= Seq::<u8>::empty());
    }
}

proof fn lemma_ends_bounded(desc: IndexDescriptor, length: u64, i: int)
    requires
        offsets_partition(desc, length),
        0 <= i < desc.codes@.len(),
    ensures
        desc.ends@[i] <= length,
    decreases desc.codes@.len() - i,
{
    if i < desc.codes@.len() - 1 {
        lemma_ends_bounded(desc, length, i + 1);
        assert(desc.ends@[i] == desc.starts@[i + 1]);
        assert(desc.starts@[i + 1] <= desc.ends@[i + 1]);
    }
}

/// Writing an indexed block and reading it back through every code, from
/// offset zero, gives the records of every group in code order: each record
/// that the index holds, grouped by code.
pub proof fn lemma_read_all_codes(
    block_id: u64,
    d: Seq<u8>,
    idx: BlockIndex,
    file: Seq<u8>,
    meta: BlockMetadata,
    acc: Seq<u8>,
)
    requires
        written(block_id, d, Some(idx), file, meta),
        file.len() <= u64::MAX,
        forall|i: int|
            0 <= i < idx.groups@.len() ==> code_accepted(#[trigger] idx.groups@[i].code, acc),
    ensures
        meta.index matches Some(desc) && segment_bytes(file, plan_of(desc, acc, 0).0) == layout(
            d,
            idx.groups@,
        ),
{
    let desc = meta.index.unwrap();
    assert forall|i: int| 0 <= i < desc.codes@.len() implies code_accepted(
        #[trigger] desc.codes@[i],
        acc,
    ) by {
        assert(code_accepted(idx.groups@[i].code, acc));
    }
    let n = desc.codes@.len() as int;
    lemma_read_prefix(desc, acc, file, n);
    assert(file.subrange(0, file.len() as int) =~= file);
}

} // verus!

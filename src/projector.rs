//! The descriptors a namenode hands out: file length, located blocks, a
//! query-bearing path, and a datanode's aggregated usage.
use vstd::prelude::*;
use crate::resolver::ResolvedBlock;

verus! {

/// The byte that separates a path from the query attached to it.
pub const QUERY_MARKER: u8 = 43;

/// A path with the query attached after the marker byte, when there is one.
pub open spec fn query_path_of(path: Seq<u8>, query: Option<Seq<u8>>) -> Seq<u8> {
    match query {
        Some(q) => path.push(QUERY_MARKER) + q,
        None => path,
    }
}

/// The path of a file's descriptor: the file's path, followed by the marker and
/// the query string when a query is active.
pub fn query_path(path: &Vec<u8>, query: &Option<Vec<u8>>) -> (r: Vec<u8>)
    ensures
        r@ == query_path_of(path@, match query {
            Some(q) => Some(q@),
            None => None,
        }),
{
    let mut out: Vec<u8> = Vec::new();
    let mut i: usize = 0;
    while i < path.len()
        invariant
            i <= path@.len(),
            out@ == path@.take(i as int),
        decreases path.len() - i,
    {
        out.push(path[i]);
        i = i + 1;
        assert(out@ =~= path@.take(i as int));
    }
    assert(path@.take(i as int) =~= path@);
    if let Some(q) = query {
        out.push(QUERY_MARKER);
        let ghost head = out@;
        let mut j: usize = 0;
        while j < q.len()
            invariant
                j <= q@.len(),
                out@ == head + q@.take(j as int),
            decreases q.len() - j,
        {
            out.push(q[j]);
            j = j + 1;
            assert(out@ =~= head + q@.take(j as int));
        }
        assert(q@.take(j as int) =~= q@);
    }
    out
}

/// The sum of the lengths of the blocks.
pub open spec fn length_total(bs: Seq<ResolvedBlock>) -> int
    decreases bs.len(),
{
    if bs.len() == 0 {
        0
    } else {
        length_total(bs.drop_last()) + bs.last().length
    }
}

proof fn lemma_length_prefix(bs: Seq<ResolvedBlock>, k: int)
    requires
        0 <= k <= bs.len(),
    ensures
        0 <= length_total(bs.take(k)) <= length_total(bs),
    decreases bs.len(),
{
    if bs.len() > 0 {
        if k == bs.len() {
            assert(bs.take(k) =~= bs);
        } else {
            assert(bs.drop_last().take(k) =~= bs.take(k));
            lemma_length_prefix(bs.drop_last(), k);
        }
        lemma_length_prefix(bs.drop_last(), 0);
        assert(bs.drop_last().take(0) =~= bs.take(0));
    } else {
        assert(bs.take(k) =~= bs);
    }
}

/// Where one block of a file's view lies: the id it is served under, its
/// physical block, its length and its offset in the file.
#[derive(Clone, Copy, PartialEq, Eq, Structural, Debug)]
pub struct LocatedBlock {
    pub block_id: u64,
    pub physical_id: u64,
    pub num_bytes: u64,
    pub offset: u64,
}

/// The located blocks of a file's view and the file's length: each block's
/// offset is the sum of the lengths before it, and each is served under its
/// view's id with its view's length (placement stays that of the physical
/// block). `None` when the file's length does not fit in 64 bits.
pub fn locate_blocks(blocks: &Vec<ResolvedBlock>) -> (r: Option<(Vec<LocatedBlock>, u64)>)
    ensures
        r is Some <==> length_total(blocks@) <= u64::MAX,
        r matches Some((located, length)) ==> {
            &&& length == length_total(blocks@)
            &&& located@.len() == blocks@.len()
            &&& forall|i: int|
                0 <= i < blocks@.len() ==> (#[trigger] located@[i]) == (LocatedBlock {
                    block_id: blocks@[i].served_id,
                    physical_id: blocks@[i].block_id,
                    num_bytes: blocks@[i].length,
                    offset: length_total(blocks@.take(i)) as u64,
                })
        },
{
    let mut located: Vec<LocatedBlock> = Vec::new();
    let mut offset: u64 = 0;
    let mut i: usize = 0;
    while i < blocks.len()
        invariant
            i <= blocks@.len(),
            offset == length_total(blocks@.take(i as int)),
            located@.len() == i,
            forall|k: int|
                0 <= k < i ==> (#[trigger] located@[k]) == (LocatedBlock {
                    block_id: blocks@[k].served_id,
                    physical_id: blocks@[k].block_id,
                    num_bytes: blocks@[k].length,
                    offset: length_total(blocks@.take(k)) as u64,
                }),
        decreases blocks.len() - i,
    {
        let b = blocks[i];
        located.push(LocatedBlock { block_id: b.served_id, physical_id: b.block_id, num_bytes: b.length, offset });
        assert(blocks@.take(i as int + 1).drop_last() =~= blocks@.take(i as int));
        match offset.checked_add(b.length) {
            None => {
                proof {
                    lemma_length_prefix(blocks@, i as int + 1);
                }
                return None;
            },
            Some(t) => {
                offset = t;
            },
        }
        i = i + 1;
    }
    assert(blocks@.take(i as int) =~= blocks@);
    Some((located, offset))
}

/// The most recent state reported for one storage volume.
#[derive(Clone, Copy, PartialEq, Eq, Structural, Debug)]
pub struct VolumeState {
    pub capacity: Option<u64>,
    pub dfs_used: Option<u64>,
    pub remaining: Option<u64>,
    pub block_pool_used: Option<u64>,
    pub non_dfs_used: Option<u64>,
    pub update_timestamp: u64,
}

/// The most recent state that a datanode reported of itself.
#[derive(Clone, Copy, PartialEq, Eq, Structural, Debug)]
pub struct NodeState {
    pub cache_capacity: Option<u64>,
    pub cache_used: Option<u64>,
    pub xceiver_count: Option<u32>,
    pub update_timestamp: u64,
}

/// A datanode's usage summed over its volumes.
#[derive(Clone, Copy, PartialEq, Eq, Structural, Debug)]
pub struct DatanodeUsage {
    pub capacity: u64,
    pub dfs_used: u64,
    pub remaining: u64,
    pub block_pool_used: u64,
    pub non_dfs_used: u64,
    pub cache_capacity: Option<u64>,
    pub cache_used: Option<u64>,
    pub xceiver_count: Option<u32>,
    pub last_update: Option<u64>,
}

/// Field `k` of a volume's state (capacity, dfs used, remaining, block pool
/// used, non-dfs used), zero when it was not reported.
pub open spec fn volume_field(v: VolumeState, k: int) -> int {
    let f = if k == 0 {
        v.capacity
    } else if k == 1 {
        v.dfs_used
    } else if k == 2 {
        v.remaining
    } else if k == 3 {
        v.block_pool_used
    } else {
        v.non_dfs_used
    };
    match f {
        Some(x) => x as int,
        None => 0,
    }
}

/// The sum of field `k` over the volumes.
pub open spec fn field_total(vs: Seq<VolumeState>, k: int) -> int
    decreases vs.len(),
{
    if vs.len() == 0 {
        0
    } else {
        field_total(vs.drop_last(), k) + volume_field(vs.last(), k)
    }
}

/// The latest update time among the volumes, zero when there is none.
pub open spec fn latest_update(vs: Seq<VolumeState>) -> u64
    decreases vs.len(),
{
    if vs.len() == 0 {
        0
    } else if vs.last().update_timestamp > latest_update(vs.drop_last()) {
        vs.last().update_timestamp
    } else {
        latest_update(vs.drop_last())
    }
}

/// Every field's sum over the volumes fits in 64 bits.
pub open spec fn totals_fit(vs: Seq<VolumeState>) -> bool {
    forall|k: int| 0 <= k < 5 ==> #[trigger] field_total(vs, k) <= u64::MAX
}

proof fn lemma_field_prefix(vs: Seq<VolumeState>, k: int, n: int)
    requires
        0 <= n <= vs.len(),
    ensures
        0 <= field_total(vs.take(n), k) <= field_total(vs, k),
    decreases vs.len(),
{
    if vs.len() > 0 {
        if n == vs.len() {
            assert(vs.take(n) =~= vs);
        } else {
            assert(vs.drop_last().take(n) =~= vs.take(n));
            lemma_field_prefix(vs.drop_last(), k, n);
        }
        lemma_field_prefix(vs.drop_last(), k, 0);
        assert(vs.drop_last().take(0) =~= vs.take(0));
    } else {
        assert(vs.take(n) =~= vs);
    }
}

fn add_reported(sum: u64, x: Option<u64>) -> (r: Option<u64>)
    ensures
        r == (if sum + match x {
            Some(v) => v as int,
            None => 0,
        } <= u64::MAX {
            Some(
                (sum + match x {
                    Some(v) => v as int,
                    None => 0,
                }) as u64,
            )
        } else {
            None::<u64>
        }),
{
    match x {
        Some(v) => sum.checked_add(v),
        None => Some(sum),
    }
}

/// A datanode's usage: each volume field summed over the most recent state of
/// each of its volumes, its cache figures from its own most recent state, and
/// as last update the latest time among all those states (`None` when that is
/// zero). `None` when a sum does not fit in 64 bits.
pub fn aggregate_usage(volumes: &Vec<VolumeState>, node: &Option<NodeState>) -> (r: Option<
    DatanodeUsage,
>)
    ensures
        r is Some <==> totals_fit(volumes@),
        r matches Some(u) ==> {
            let latest = match node {
                Some(n) => if n.update_timestamp > latest_update(volumes@) {
                    n.update_timestamp
                } else {
                    latest_update(volumes@)
                },
                None => latest_update(volumes@),
            };
            &&& u.capacity == field_total(volumes@, 0)
            &&& u.dfs_used == field_total(volumes@, 1)
            &&& u.remaining == field_total(volumes@, 2)
            &&& u.block_pool_used == field_total(volumes@, 3)
            &&& u.non_dfs_used == field_total(volumes@, 4)
            &&& u.cache_capacity == (match node {
                Some(n) => n.cache_capacity,
                None => None,
            })
            &&& u.cache_used == (match node {
                Some(n) => n.cache_used,
                None => None,
            })
            &&& u.xceiver_count == (match node {
                Some(n) => n.xceiver_count,
                None => None,
            })
            &&& u.last_update == (if latest == 0 {
                None
            } else {
                Some(latest)
            })
        },
{
    let mut sums: [u64; 5] = [0, 0, 0, 0, 0];
    let mut latest: u64 = 0;
    let mut i: usize = 0;
    while i < volumes.len()
        invariant
            i <= volumes@.len(),
            sums@.len() == 5,
            forall|k: int| 0 <= k < 5 ==> sums@[k] == #[trigger] field_total(volumes@.take(i as int), k),
            latest == latest_update(volumes@.take(i as int)),
        decreases volumes.len() - i,
    {
        let v = volumes[i];
        let ghost pre = volumes@.take(i as int);
        let ghost next = volumes@.take(i as int + 1);
        assert(next.drop_last() =~= pre);
        let fields: [Option<u64>; 5] = [v.capacity, v.dfs_used, v.remaining, v.block_pool_used, v.non_dfs_used];
        let mut k: usize = 0;
        while k < 5
            invariant
                i < volumes@.len(),
                v == volumes@[i as int],
                next.drop_last() == pre,
                next.len() > 0 && next.last() == v,
                next == volumes@.take(i as int + 1),
                pre == volumes@.take(i as int),
                sums@.len() == 5,
                k <= 5,
                fields@ == seq![v.capacity, v.dfs_used, v.remaining, v.block_pool_used, v.non_dfs_used],
                forall|m: int| 0 <= m < k ==> sums@[m] == #[trigger] field_total(next, m),
                forall|m: int| k <= m < 5 ==> sums@[m] == #[trigger] field_total(pre, m),
            decreases 5 - k,
        {
            assert(volume_field(v, k as int) == match fields@[k as int] {
                Some(x) => x as int,
                None => 0,
            });
            assert(field_total(next, k as int) == field_total(pre, k as int) + volume_field(
                v,
                k as int,
            ));
            match add_reported(sums[k], fields[k]) {
                None => {
                    proof {
                        lemma_field_prefix(volumes@, k as int, i as int + 1);
                        assert(field_total(volumes@, k as int) > u64::MAX);
                    }
                    return None;
                },
                Some(t) => {
                    sums[k] = t;
                },
            }
            k = k + 1;
        }
        if v.update_timestamp > latest {
            latest = v.update_timestamp;
        }
        i = i + 1;
    }
    assert(volumes@.take(i as int) =~= volumes@);
    let (cache_capacity, cache_used, xceiver_count) = match node {
        Some(n) => {
            if n.update_timestamp > latest {
                latest = n.update_timestamp;
            }
            (n.cache_capacity, n.cache_used, n.xceiver_count)
        },
        None => (None, None, None),
    };
    let last_update = if latest == 0 {
        None
    } else {
        Some(latest)
    };
    Some(
        DatanodeUsage {
            capacity: sums[0],
            dfs_used: sums[1],
            remaining: sums[2],
            block_pool_used: sums[3],
            non_dfs_used: sums[4],
            cache_capacity,
            cache_used,
            xceiver_count,
            last_update,
        },
    )
}

} // verus!

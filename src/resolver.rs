//! Turning a file's block list into the blocks of its (optionally filtered) view.
use vstd::prelude::*;
use crate::codec::{codes_in_alphabet, encode_block_id, mask_of, synthetic_id, MAX_PHYSICAL_ID};

verus! {

/// What the spatial index matched in one candidate block: the values of the
/// matched codes and the length of the records under each.
pub struct QueryMatch {
    pub block_id: u64,
    pub codes: Vec<u8>,
    pub lengths: Vec<u32>,
}

/// A block of a file's view: the physical block, the id under which it is
/// served (a synthetic id for a filtered view) and the length it contributes.
#[derive(Clone, Copy, PartialEq, Eq, Structural, Debug)]
pub struct ResolvedBlock {
    pub block_id: u64,
    pub served_id: u64,
    pub length: u64,
    pub filtered: bool,
}

/// Why a filtered view could not be resolved.
#[derive(Clone, Copy, PartialEq, Eq, Structural, Debug)]
pub enum ResolveError {
    /// The block id or a matched code cannot be carried by a synthetic id.
    Unencodable(u64),
    /// The matched lengths of the block do not fit in 64 bits.
    LengthOverflow(u64),
}

/// The sum of the lengths.
pub open spec fn total(s: Seq<u32>) -> int
    decreases s.len(),
{
    if s.len() == 0 {
        0
    } else {
        total(s.drop_last()) + s.last()
    }
}

/// The blocks of an unfiltered view: each block id whose stored length the
/// directory gives, in order; the others are not visible yet.
pub open spec fn unfiltered_prefix(ids: Seq<u64>, lengths: Seq<Option<u64>>, n: int) -> Seq<
    ResolvedBlock,
>
    decreases n,
{
    if n <= 0 {
        seq![]
    } else {
        match lengths[n - 1] {
            Some(len) => unfiltered_prefix(ids, lengths, n - 1).push(
                ResolvedBlock { block_id: ids[n - 1], served_id: ids[n - 1], length: len, filtered: false },
            ),
            None => unfiltered_prefix(ids, lengths, n - 1),
        }
    }
}

/// The view of a file without a query. `lengths[i]` is the stored length of
/// block `block_ids[i]` in the block directory, `None` where it has none.
pub fn resolve_unfiltered(block_ids: &Vec<u64>, lengths: &Vec<Option<u64>>) -> (r: Vec<ResolvedBlock>)
    requires
        block_ids@.len() == lengths@.len(),
    ensures
        r@ == unfiltered_prefix(block_ids@, lengths@, block_ids@.len() as int),
{
    let mut out: Vec<ResolvedBlock> = Vec::new();
    let mut i: usize = 0;
    while i < block_ids.len()
        invariant
            block_ids@.len() == lengths@.len(),
            i <= block_ids@.len(),
            out@ == unfiltered_prefix(block_ids@, lengths@, i as int),
        decreases block_ids.len() - i,
    {
        if let Some(len) = lengths[i] {
            out.push(ResolvedBlock { block_id: block_ids[i], served_id: block_ids[i], length: len, filtered: false });
        }
        i = i + 1;
    }
    out
}

/// What one query match contributes: nothing when no code matched; else the
/// block served under its synthetic id, with the sum of the matched lengths.
pub open spec fn match_result(m: QueryMatch) -> Result<Option<ResolvedBlock>, ResolveError> {
    if m.codes@.len() == 0 {
        Ok(None)
    } else if !(m.block_id < MAX_PHYSICAL_ID && codes_in_alphabet(m.codes@)) {
        Err(ResolveError::Unencodable(m.block_id))
    } else if total(m.lengths@) > u64::MAX {
        Err(ResolveError::LengthOverflow(m.block_id))
    } else {
        Ok(
            Some(
                ResolvedBlock {
                    block_id: m.block_id,
                    served_id: synthetic_id(m.block_id, mask_of(m.codes@)),
                    length: total(m.lengths@) as u64,
                    filtered: true,
                },
            ),
        )
    }
}

/// The blocks of a filtered view from the first `n` matches, when none of them fails.
pub open spec fn filtered_prefix(ms: Seq<QueryMatch>, n: int) -> Seq<ResolvedBlock>
    decreases n,
{
    if n <= 0 {
        seq![]
    } else {
        match match_result(ms[n - 1]) {
            Ok(Some(b)) => filtered_prefix(ms, n - 1).push(b),
            _ => filtered_prefix(ms, n - 1),
        }
    }
}

proof fn lemma_total_prefix(s: Seq<u32>, k: int)
    requires
        0 <= k <= s.len(),
    ensures
        0 <= total(s.take(k)) <= total(s),
    decreases s.len(),
{
    if s.len() > 0 {
        if k == s.len() {
            assert(s.take(k) =~= s);
        } else {
            assert(s.drop_last().take(k) =~= s.take(k));
            lemma_total_prefix(s.drop_last(), k);
        }
        lemma_total_prefix(s.drop_last(), 0);
        assert(s.drop_last().take(0) =~= s.take(0));
    } else {
        assert(s.take(k) =~= s);
    }
}

fn sum_lengths(lengths: &Vec<u32>) -> (r: Option<u64>)
    ensures
        r == (if total(lengths@) <= u64::MAX {
            Some(total(lengths@) as u64)
        } else {
            None::<u64>
        }),
{
    let mut sum: u64 = 0;
    let mut i: usize = 0;
    while i < lengths.len()
        invariant
            i <= lengths@.len(),
            sum == total(lengths@.take(i as int)),
        decreases lengths.len() - i,
    {
        assert(lengths@.take(i as int + 1).drop_last() =~= lengths@.take(i as int));
        match sum.checked_add(lengths[i] as u64) {
            None => {
                proof {
                    lemma_total_prefix(lengths@, i as int + 1);
                }
                return None;
            },
            Some(t) => {
                sum = t;
            },
        }
        i = i + 1;
    }
    assert(lengths@.take(i as int) =~= lengths@);
    Some(sum)
}

/// What one query match contributes to a filtered view, as `match_result` states.
pub fn resolve_match(m: &QueryMatch) -> (r: Result<Option<ResolvedBlock>, ResolveError>)
    ensures
        r == match_result(*m),
{
    if m.codes.len() == 0 {
        return Ok(None);
    }
    let served_id = match encode_block_id(m.block_id, &m.codes) {
        None => {
            return Err(ResolveError::Unencodable(m.block_id));
        },
        Some(id) => id,
    };
    match sum_lengths(&m.lengths) {
        None => Err(ResolveError::LengthOverflow(m.block_id)),
        Some(length) => Ok(Some(ResolvedBlock { block_id: m.block_id, served_id, length, filtered: true })),
    }
}

/// The view of a file under a query, from what the spatial index matched in
/// each candidate block: blocks with no matched code are left out, the others
/// are served under their synthetic id with the sum of their matched lengths.
/// The first match that cannot be resolved gives its error.
pub fn resolve_filtered(matches: &Vec<QueryMatch>) -> (r: Result<Vec<ResolvedBlock>, ResolveError>)
    ensures
        r is Ok <==> forall|i: int| 0 <= i < matches@.len() ==> (#[trigger] match_result(matches@[i])) is Ok,
        r matches Ok(v) ==> v@ == filtered_prefix(matches@, matches@.len() as int),
        r matches Err(e) ==> exists|i: int|
            0 <= i < matches@.len() && #[trigger] match_result(matches@[i]) == Err::<Option<ResolvedBlock>, ResolveError>(e),
{
    let mut out: Vec<ResolvedBlock> = Vec::new();
    let mut i: usize = 0;
    while i < matches.len()
        invariant
            i <= matches@.len(),
            forall|k: int| 0 <= k < i ==> (#[trigger] match_result(matches@[k])) is Ok,
            out@ == filtered_prefix(matches@, i as int),
        decreases matches.len() - i,
    {
        match resolve_match(&matches[i]) {
            Err(e) => {
                return Err(e);
            },
            Ok(Some(b)) => {
                out.push(b);
            },
            Ok(None) => {},
        }
        i = i + 1;
    }
    Ok(out)
}

/// Candidates with no matched code add nothing to a filtered view: when only
/// one of the matches has codes, the view is that block alone, with the sum of
/// its matched lengths.
pub proof fn lemma_single_match(ms: Seq<QueryMatch>, j: int)
    requires
        0 <= j < ms.len(),
        forall|i: int| 0 <= i < ms.len() && i != j ==> (#[trigger] ms[i]).codes@.len() == 0,
        match_result(ms[j]) is Ok,
        ms[j].codes@.len() > 0,
    ensures
        filtered_prefix(ms, ms.len() as int).len() == 1,
        filtered_prefix(ms, ms.len() as int)[0].length == total(ms[j].lengths@),
        filtered_prefix(ms, ms.len() as int)[0].block_id == ms[j].block_id,
{
    lemma_single_prefix(ms, j, ms.len() as int);
    let m = ms[j];
    lemma_total_prefix(m.lengths@, 0);
    assert(match_result(m) is Ok);
    if total(m.lengths@) > u64::MAX {
        assert(match_result(m) is Err);
    }
    assert(match_result(m)->Ok_0->Some_0.length == total(m.lengths@));
}

proof fn lemma_single_prefix(ms: Seq<QueryMatch>, j: int, n: int)
    requires
        0 <= j < ms.len(),
        0 <= n <= ms.len(),
        forall|i: int| 0 <= i < ms.len() && i != j ==> (#[trigger] ms[i]).codes@.len() == 0,
        match_result(ms[j]) is Ok,
        ms[j].codes@.len() > 0,
    ensures
        n <= j ==> filtered_prefix(ms, n).len() == 0,
        n > j ==> filtered_prefix(ms, n).len() == 1 && filtered_prefix(ms, n)[0] == match_result(
            ms[j],
        )->Ok_0->Some_0,
    decreases n,
{
    if n > 0 {
        lemma_single_prefix(ms, j, n - 1);
        if n - 1 != j {
            assert(ms[n - 1].codes@.len() == 0);
        }
    }
}

} // verus!

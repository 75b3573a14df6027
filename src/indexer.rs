//! Scanning a raw block into records and grouping accepted records by spatial code.
use vstd::prelude::*;
use crate::codec::{pack_code, packed};

verus! {

/// The record delimiter.
pub const NEWLINE: u8 = 10;

/// The field delimiter.
pub const COMMA: u8 = 44;

/// Bytes trimmed from the end of the timestamp field before it is parsed.
pub const TIMESTAMP_TRIM: usize = 2;

/// The field that holds a record's timestamp.
pub const TIMESTAMP_FIELD: usize = 3;

/// One record of a block: its byte range in the block (the delimiter included)
/// and the offsets of its field delimiters from its start.
pub struct Observation {
    pub start: usize,
    pub end: usize,
    pub commas: Vec<usize>,
}

impl View for Observation {
    type V = (int, int, Seq<usize>);

    open spec fn view(&self) -> (int, int, Seq<usize>) {
        (self.start as int, self.end as int, self.commas@)
    }
}

/// The records of `d` that start at `s`, scanning from `p`: each record runs up
/// to and including a newline, and the last one to the end of the data.
pub open spec fn lines_from(d: Seq<u8>, s: int, p: int) -> Seq<(int, int)>
    decreases d.len() - p,
{
    if p >= d.len() {
        if s < p {
            seq![(s, p)]
        } else {
            seq![]
        }
    } else if d[p] == NEWLINE {
        seq![(s, p + 1)] + lines_from(d, p + 1, p + 1)
    } else {
        lines_from(d, s, p + 1)
    }
}

/// The records of `d`, in order.
pub open spec fn lines(d: Seq<u8>) -> Seq<(int, int)> {
    lines_from(d, 0, 0)
}

/// Offsets from `s` of the field delimiters in `d[s..e]`.
pub open spec fn comma_offsets(d: Seq<u8>, s: int, e: int) -> Seq<usize>
    decreases e - s,
{
    if e <= s {
        seq![]
    } else if d[e - 1] == COMMA {
        comma_offsets(d, s, e - 1).push((e - 1 - s) as usize)
    } else {
        comma_offsets(d, s, e - 1)
    }
}

/// The record of `d` spanning `r`, with its field delimiters.
pub open spec fn record(d: Seq<u8>, r: (int, int)) -> (int, int, Seq<usize>) {
    (r.0, r.1, comma_offsets(d, r.0, r.1))
}

/// Number of fields of a record.
pub open spec fn field_count(o: (int, int, Seq<usize>)) -> int {
    o.2.len() as int + 1
}

/// The schema width of a block: the field count of its first record after the header.
pub open spec fn schema_width(d: Seq<u8>) -> int {
    if lines(d).len() >= 2 {
        field_count(record(d, lines(d)[1]))
    } else {
        0
    }
}

/// The records among the first `n` of `d` that are kept: not the header, and
/// with as many fields as the schema width.
pub open spec fn accepted_prefix(d: Seq<u8>, n: int) -> Seq<(int, int, Seq<usize>)>
    decreases n,
{
    if n <= 1 {
        seq![]
    } else {
        let o = record(d, lines(d)[n - 1]);
        if field_count(o) == schema_width(d) {
            accepted_prefix(d, n - 1).push(o)
        } else {
            accepted_prefix(d, n - 1)
        }
    }
}

/// The records of `d` that are indexed.
pub open spec fn accepted(d: Seq<u8>) -> Seq<(int, int, Seq<usize>)> {
    accepted_prefix(d, lines(d).len() as int)
}

/// The delimiter offsets of a record are ascending and inside it.
pub open spec fn commas_within(s: int, e: int, c: Seq<usize>) -> bool {
    &&& forall|i: int, j: int| 0 <= i < j < c.len() ==> c[i] < c[j]
    &&& forall|i: int| 0 <= i < c.len() ==> c[i] < e - s
}

/// `o` is a record of a block of `len` bytes.
pub open spec fn record_within(o: (int, int, Seq<usize>), len: int) -> bool {
    0 <= o.0 < o.1 <= len && commas_within(o.0, o.1, o.2)
}

proof fn lemma_commas_within(d: Seq<u8>, s: int, e: int)
    requires
        0 <= s <= e <= d.len() <= usize::MAX,
    ensures
        commas_within(s, e, comma_offsets(d, s, e)),
    decreases e - s,
{
    if e > s {
        lemma_commas_within(d, s, e - 1);
        let c = comma_offsets(d, s, e);
        let prev = comma_offsets(d, s, e - 1);
        if d[e - 1] == COMMA {
            assert(c == prev.push((e - 1 - s) as usize));
        } else {
            assert(c == prev);
        }
    }
}

/// Splits a block into its records.
pub fn split_records(data: &Vec<u8>) -> (r: Vec<Observation>)
    ensures
        r@.len() == lines(data@).len(),
        forall|i: int| 0 <= i < r@.len() ==> (#[trigger] r@[i])@ == record(data@, lines(data@)[i]),
{
    let ghost d = data@;
    let mut out: Vec<Observation> = Vec::new();
    let mut commas: Vec<usize> = Vec::new();
    let mut s: usize = 0;
    let mut p: usize = 0;
    while p < data.len()
        invariant
            d == data@,
            s <= p <= data.len(),
            commas@ == comma_offsets(d, s as int, p as int),
            forall|i: int| 0 <= i < out@.len() ==> (#[trigger] out@[i])@ == record(d, lines(d)[i]),
            lines(d) == out@.map_values(|o: Observation| (o@.0, o@.1)) + lines_from(
                d,
                s as int,
                p as int,
            ),
        decreases data.len() - p,
    {
        let b = data[p];
        if b == COMMA {
            commas.push(p - s);
        }
        if b == NEWLINE {
            let ghost prev = out@.map_values(|o: Observation| (o@.0, o@.1));
            let done = Observation { start: s, end: p + 1, commas };
            out.push(done);
            assert(out@.map_values(|o: Observation| (o@.0, o@.1)) =~= prev.push(
                (s as int, p as int + 1),
            ));
            assert(lines_from(d, s as int, p as int) == seq![(s as int, p as int + 1)]
                + lines_from(d, p as int + 1, p as int + 1));
            assert(prev + lines_from(d, s as int, p as int) =~= prev.push(
                (s as int, p as int + 1),
            ) + lines_from(d, p as int + 1, p as int + 1));
            assert(lines(d)[out@.len() - 1] == (s as int, p as int + 1));
            commas = Vec::new();
            s = p + 1;
        }
        p = p + 1;
    }
    if s < p {
        let ghost prev = out@.map_values(|o: Observation| (o@.0, o@.1));
        out.push(Observation { start: s, end: p, commas });
        assert(out@.map_values(|o: Observation| (o@.0, o@.1)) =~= prev.push((s as int, p as int)));
        assert(lines(d)[out@.len() - 1] == (s as int, p as int));
    } else {
        assert(out@.map_values(|o: Observation| (o@.0, o@.1)) + lines_from(d, s as int, p as int)
            =~= out@.map_values(|o: Observation| (o@.0, o@.1)));
    }
    assert forall|i: int| 0 <= i < out@.len() implies (#[trigger] out@[i])@ == record(
        d,
        lines(d)[i],
    ) by {
        assert(out@.map_values(|o: Observation| (o@.0, o@.1))[i] == (out@[i]@.0, out@[i]@.1));
    }
    out
}

fn copy_offsets(c: &Vec<usize>) -> (r: Vec<usize>)
    ensures
        r@ == c@,
{
    let mut r: Vec<usize> = Vec::new();
    let mut i: usize = 0;
    while i < c.len()
        invariant
            i <= c.len(),
            r@ == c@.take(i as int),
        decreases c.len() - i,
    {
        r.push(c[i]);
        i = i + 1;
        assert(r@ =~= c@.take(i as int));
    }
    assert(c@.take(i as int) =~= c@);
    r
}

/// The records of a block that are indexed: every record but the header (the
/// first one), kept only when it has as many fields as the first record after
/// the header. Records of another width are left out, not refused.
pub fn scan_observations(data: &Vec<u8>) -> (r: Vec<Observation>)
    ensures
        r@.len() == accepted(data@).len(),
        forall|i: int| 0 <= i < r@.len() ==> (#[trigger] r@[i])@ == accepted(data@)[i],
        forall|i: int| 0 <= i < r@.len() ==> record_within((#[trigger] r@[i])@, data@.len() as int),
{
    let ghost d = data@;
    let all = split_records(data);
    let mut out: Vec<Observation> = Vec::new();
    let n = data.len();
    if all.len() < 2 {
        assert(accepted(d) =~= seq![]);
        return out;
    }
    let width = all[1].commas.len();
    let mut i: usize = 1;
    while i < all.len()
        invariant
            d == data@,
            2 <= all@.len() == lines(d).len(),
            forall|k: int| 0 <= k < all@.len() ==> (#[trigger] all@[k])@ == record(d, lines(d)[k]),
            n == d.len(),
            width + 1 == schema_width(d),
            1 <= i <= all@.len(),
            out@.len() == accepted_prefix(d, i as int).len(),
            forall|k: int| 0 <= k < out@.len() ==> (#[trigger] out@[k])@ == accepted_prefix(
                d,
                i as int,
            )[k],
            forall|k: int| 0 <= k < out@.len() ==> record_within((#[trigger] out@[k])@, d.len() as int),
        decreases all.len() - i,
    {
        let o = &all[i];
        if o.commas.len() == width {
            let copy = Observation { start: o.start, end: o.end, commas: copy_offsets(&o.commas) };
            proof {
                lemma_line_bounds(d, i as int);
                lemma_commas_within(d, o.start as int, o.end as int);
            }
            out.push(copy);
        }
        i = i + 1;
    }
    out
}

proof fn lemma_lines_from_bounds(d: Seq<u8>, s: int, p: int)
    requires
        0 <= s <= p <= d.len(),
    ensures
        forall|k: int|
            0 <= k < lines_from(d, s, p).len() ==> s <= (#[trigger] lines_from(d, s, p)[k]).0
                < lines_from(d, s, p)[k].1 <= d.len(),
    decreases d.len() - p,
{
    if p < d.len() {
        if d[p] == NEWLINE {
            lemma_lines_from_bounds(d, p + 1, p + 1);
            let rest = lines_from(d, p + 1, p + 1);
            let all = lines_from(d, s, p);
            assert(all == seq![(s, p + 1)] + rest);
            assert forall|k: int| 0 <= k < all.len() implies s <= (#[trigger] all[k]).0 < all[k].1
                <= d.len() by {
                if k > 0 {
                    assert(all[k] == rest[k - 1]);
                }
            }
        } else {
            lemma_lines_from_bounds(d, s, p + 1);
            assert(lines_from(d, s, p) == lines_from(d, s, p + 1));
        }
    } else if s < p {
        assert(lines_from(d, s, p) == seq![(s, p)]);
        assert(lines_from(d, s, p)[0] == (s, p));
    } else {
        assert(lines_from(d, s, p).len() == 0);
    }
}

proof fn lemma_line_bounds(d: Seq<u8>, k: int)
    requires
        0 <= k < lines(d).len(),
    ensures
        0 <= lines(d)[k].0 < lines(d)[k].1 <= d.len(),
{
    lemma_lines_from_bounds(d, 0, 0);
}

/// The value of a run of decimal digits.
pub open spec fn digits_value(b: Seq<u8>) -> int
    decreases b.len(),
{
    if b.len() == 0 {
        0
    } else {
        digits_value(b.drop_last()) * 10 + (b.last() - 48)
    }
}

/// `b` holds decimal digits only.
pub open spec fn all_digits(b: Seq<u8>) -> bool {
    forall|i: int| 0 <= i < b.len() ==> 48 <= #[trigger] b[i] <= 57
}

/// `b` without one leading plus sign.
pub open spec fn unsigned_body(b: Seq<u8>) -> Seq<u8> {
    if b.len() > 0 && b[0] == 43 {
        b.drop_first()
    } else {
        b
    }
}

/// The unsigned 64-bit integer written in decimal in `b`, with an optional
/// leading plus sign; `None` when `b` is no such number or it does not fit.
pub open spec fn decimal_value(b: Seq<u8>) -> Option<u64> {
    let body = unsigned_body(b);
    if body.len() > 0 && all_digits(body) && digits_value(body) <= u64::MAX {
        Some(digits_value(body) as u64)
    } else {
        None
    }
}

proof fn lemma_digits_prefix(b: Seq<u8>, k: int)
    requires
        all_digits(b),
        0 <= k <= b.len(),
    ensures
        0 <= digits_value(b.take(k)) <= digits_value(b),
    decreases b.len(),
{
    if b.len() > 0 {
        if k == b.len() {
            assert(b.take(k) =~= b);
        } else {
            let init = b.drop_last();
            assert(init.take(k) =~= b.take(k));
            lemma_digits_prefix(init, k);
        }
        lemma_digits_prefix(b.drop_last(), b.len() - 1);
        assert(b.drop_last().take(b.len() - 1) =~= b.drop_last());
    }
}

/// Parses the decimal number in `data[start..end]` as `decimal_value` states.
pub fn parse_decimal(data: &Vec<u8>, start: usize, end: usize) -> (r: Option<u64>)
    requires
        start <= end <= data@.len(),
    ensures
        r == decimal_value(data@.subrange(start as int, end as int)),
{
    let ghost b = data@.subrange(start as int, end as int);
    let mut i = start;
    if i < end && data[i] == 43 {
        i = i + 1;
    }
    let first = i;
    let ghost body = data@.subrange(first as int, end as int);
    assert(body =~= unsigned_body(b));
    if first == end {
        assert(body.len() == 0);
        return None;
    }
    let mut value: u64 = 0;
    while i < end
        invariant
            start <= first <= i <= end <= data@.len(),
            body == data@.subrange(first as int, end as int),
            b == data@.subrange(start as int, end as int),
            body == unsigned_body(b),
            body.len() > 0,
            body.take(i - first) =~= data@.subrange(first as int, i as int),
            all_digits(body.take(i - first)),
            value == digits_value(body.take(i - first)),
        decreases end - i,
    {
        let c = data[i];
        let ghost pre = body.take(i - first);
        let ghost next = body.take(i + 1 - first);
        assert(next.drop_last() =~= pre);
        assert(body[i - first] == c);
        assert(next.last() == c);
        if c < 48 || c > 57 {
            assert(!(48 <= body[i - first] <= 57));
            assert(!all_digits(body));
            return None;
        }
        assert(all_digits(next));
        assert(digits_value(next) == digits_value(pre) * 10 + (c - 48));
        let step = value.checked_mul(10);
        match step {
            None => {
                proof {
                    if all_digits(body) {
                        lemma_digits_prefix(body, i + 1 - first);
                        assert(digits_value(body) > u64::MAX);
                    }
                }
                return None;
            },
            Some(t) => match t.checked_add((c - 48) as u64) {
                None => {
                    proof {
                        if all_digits(body) {
                            lemma_digits_prefix(body, i + 1 - first);
                        }
                    }
                    return None;
                },
                Some(u) => {
                    value = u;
                },
            },
        }
        i = i + 1;
        assert(body.take(i - first) =~= data@.subrange(first as int, i as int));
    }
    assert(body.take(i - first) =~= body);
    Some(value)
}

/// The absolute byte range of field `k` of a record, for a field followed by a delimiter.
pub open spec fn field_span(o: (int, int, Seq<usize>), k: int) -> (int, int) {
    (o.0 + if k == 0 {
        0
    } else {
        o.2[k - 1] + 1
    }, o.0 + o.2[k])
}

/// The timestamp of a record: its field `TIMESTAMP_FIELD` without its last
/// `TIMESTAMP_TRIM` bytes, read in decimal; `None` when there is no such field
/// or it is no number.
pub open spec fn timestamp_of(d: Seq<u8>, o: (int, int, Seq<usize>)) -> Option<u64> {
    if o.2.len() > TIMESTAMP_FIELD {
        let span = field_span(o, TIMESTAMP_FIELD as int);
        if span.1 - TIMESTAMP_TRIM >= span.0 {
            decimal_value(d.subrange(span.0, span.1 - TIMESTAMP_TRIM))
        } else {
            None
        }
    } else {
        None
    }
}

/// The byte range of field `k` of a record, when a delimiter follows it.
pub fn field_range(o: &Observation, k: usize) -> (r: Option<(usize, usize)>)
    requires
        commas_within(o.start as int, o.end as int, o.commas@),
        o.start <= o.end,
    ensures
        r is Some <==> k < o.commas@.len(),
        r matches Some(span) ==> (span.0 as int, span.1 as int) == field_span(o@, k as int),
{
    if k >= o.commas.len() {
        return None;
    }
    let from = if k == 0 {
        o.start
    } else {
        o.start + o.commas[k - 1] + 1
    };
    Some((from, o.start + o.commas[k]))
}

/// The timestamp of a record, as `timestamp_of` states.
pub fn timestamp(data: &Vec<u8>, o: &Observation) -> (r: Option<u64>)
    requires
        record_within(o@, data@.len() as int),
    ensures
        r == timestamp_of(data@, o@),
{
    match field_range(o, TIMESTAMP_FIELD) {
        None => None,
        Some((from, to)) => {
            if TIMESTAMP_FIELD > 0 {
                assert(o.commas@[TIMESTAMP_FIELD - 1] < o.commas@[TIMESTAMP_FIELD as int]);
            }
            if to - from < TIMESTAMP_TRIM {
                None
            } else {
                parse_decimal(data, from, to - TIMESTAMP_TRIM)
            }
        },
    }
}

/// The record's spatial code, as its characters, when one could be computed.
pub open spec fn code_view(c: Option<Vec<char>>) -> Option<Seq<char>> {
    match c {
        Some(v) => Some(v@),
        None => None,
    }
}

/// The views of the records.
pub open spec fn views(obs: Seq<Observation>) -> Seq<(int, int, Seq<usize>)> {
    obs.map_values(|o: Observation| o@)
}

/// An indexed record: its code's key, its byte range and its timestamp.
pub type Entry = (u32, (usize, usize), u64);

/// The entry of a record with spatial code `code`, when both the code and the
/// timestamp can be read.
pub open spec fn entry_of(d: Seq<u8>, o: (int, int, Seq<usize>), code: Option<Seq<char>>) -> Option<
    Entry,
> {
    match code {
        Some(cs) => match (packed(cs), timestamp_of(d, o)) {
            (Some(k), Some(t)) => Some((k, (o.0 as usize, o.1 as usize), t)),
            _ => None,
        },
        None => None,
    }
}

/// The entries of the first `n` records, in order.
pub open spec fn entries(
    d: Seq<u8>,
    obs: Seq<(int, int, Seq<usize>)>,
    codes: Seq<Option<Vec<char>>>,
    n: int,
) -> Seq<Entry>
    decreases n,
{
    if n <= 0 {
        seq![]
    } else {
        match entry_of(d, obs[n - 1], code_view(codes[n - 1])) {
            Some(e) => entries(d, obs, codes, n - 1).push(e),
            None => entries(d, obs, codes, n - 1),
        }
    }
}

/// The byte ranges of the entries with key `k`, in order.
pub open spec fn ranges_for(es: Seq<Entry>, k: u32) -> Seq<(usize, usize)>
    decreases es.len(),
{
    if es.len() == 0 {
        seq![]
    } else if es.last().0 == k {
        ranges_for(es.drop_last(), k).push(es.last().1)
    } else {
        ranges_for(es.drop_last(), k)
    }
}

/// The smallest timestamp of the entries, `u64::MAX` when there is none.
pub open spec fn min_timestamp(es: Seq<Entry>) -> u64
    decreases es.len(),
{
    if es.len() == 0 {
        u64::MAX
    } else if es.last().2 < min_timestamp(es.drop_last()) {
        es.last().2
    } else {
        min_timestamp(es.drop_last())
    }
}

/// The largest timestamp of the entries, `0` when there is none.
pub open spec fn max_timestamp(es: Seq<Entry>) -> u64
    decreases es.len(),
{
    if es.len() == 0 {
        0
    } else if es.last().2 > max_timestamp(es.drop_last()) {
        es.last().2
    } else {
        max_timestamp(es.drop_last())
    }
}

/// The byte ranges of the records that share one spatial code.
pub struct CodeGroup {
    pub code: u32,
    pub ranges: Vec<(usize, usize)>,
}

/// A block's index: one group per spatial code, ordered by code, and the time
/// range of the indexed records.
pub struct BlockIndex {
    pub groups: Vec<CodeGroup>,
    pub min_timestamp: u64,
    pub max_timestamp: u64,
}

/// `groups` holds the entries `es`: one non-empty group per key that occurs,
/// keys strictly ascending, each group's ranges in the order of the entries.
pub open spec fn groups_hold(groups: Seq<CodeGroup>, es: Seq<Entry>) -> bool {
    &&& forall|i: int, j: int| 0 <= i < j < groups.len() ==> groups[i].code < groups[j].code
    &&& forall|i: int|
        0 <= i < groups.len() ==> (#[trigger] groups[i]).ranges@ == ranges_for(es, groups[i].code)
            && groups[i].ranges@.len() > 0
    &&& forall|k: u32|
        #![trigger ranges_for(es, k)]
        ranges_for(es, k).len() > 0 ==> exists|i: int| 0 <= i < groups.len() && groups[i].code == k
}

/// Every range of every group lies inside a block of `len` bytes.
pub open spec fn groups_within(groups: Seq<CodeGroup>, len: int) -> bool {
    forall|i: int, j: int|
        0 <= i < groups.len() && 0 <= j < groups[i].ranges@.len() ==> {
            let r = #[trigger] groups[i].ranges@[j];
            r.0 <= r.1 <= len
        }
}

/// `idx` is the index of the entries `es`.
pub open spec fn indexes(idx: BlockIndex, es: Seq<Entry>) -> bool {
    &&& groups_hold(idx.groups@, es)
    &&& idx.min_timestamp == min_timestamp(es)
    &&& idx.max_timestamp == max_timestamp(es)
}

proof fn lemma_ranges_push(es: Seq<Entry>, e: Entry, k: u32)
    ensures
        ranges_for(es.push(e), k) == if e.0 == k {
            ranges_for(es, k).push(e.1)
        } else {
            ranges_for(es, k)
        },
{
    assert(es.push(e).drop_last() =~= es);
}

fn insert_entry(
    groups: &mut Vec<CodeGroup>,
    e: Entry,
    Ghost(es): Ghost<Seq<Entry>>,
    Ghost(len): Ghost<int>,
)
    requires
        groups_hold(old(groups)@, es),
        groups_within(old(groups)@, len),
        e.1.0 <= e.1.1 <= len,
    ensures
        groups_hold(final(groups)@, es.push(e)),
        groups_within(final(groups)@, len),
{
    let key = e.0;
    let ghost es2 = es.push(e);
    let ghost pre = groups@;
    let mut j: usize = 0;
    while j < groups.len() && groups[j].code < key
        invariant
            groups@ == pre,
            j <= groups@.len(),
            forall|m: int| 0 <= m < j ==> (#[trigger] groups@[m]).code < key,
        decreases groups.len() - j,
    {
        j = j + 1;
    }
    if j < groups.len() && groups[j].code == key {
        let mut g = groups.remove(j);
        g.ranges.push(e.1);
        groups.insert(j, g);
        proof {
            assert forall|a: int, b: int|
                0 <= a < groups@.len() && 0 <= b < groups@[a].ranges@.len() implies {
                let r = #[trigger] groups@[a].ranges@[b];
                r.0 <= r.1 <= len
            } by {
                if a != j {
                    assert(groups@[a] == pre[a]);
                } else if b < pre[a].ranges@.len() {
                    assert(groups@[a].ranges@[b] == pre[a].ranges@[b]);
                }
            }
            assert forall|i: int| 0 <= i < groups@.len() implies (#[trigger] groups@[i]).ranges@
                == ranges_for(es2, groups@[i].code) && groups@[i].ranges@.len() > 0 by {
                lemma_ranges_push(es, e, groups@[i].code);
                if i != j {
                    assert(groups@[i] == pre[i]);
                }
            }
            assert forall|k: u32| #![trigger ranges_for(es2, k)] ranges_for(es2, k).len() > 0 implies exists|
                i: int,
            | 0 <= i < groups@.len() && groups@[i].code == k by {
                lemma_ranges_push(es, e, k);
                if k != key {
                    let i = choose|i: int| 0 <= i < pre.len() && pre[i].code == k;
                    assert(groups@[i] == pre[i] || i == j);
                } else {
                    assert(groups@[j as int].code == k);
                }
            }
            assert forall|a: int, b: int| 0 <= a < b < groups@.len() implies groups@[a].code
                < groups@[b].code by {
                assert(groups@[a].code == pre[a].code);
                assert(groups@[b].code == pre[b].code);
            }
        }
    } else {
        let mut ranges: Vec<(usize, usize)> = Vec::new();
        ranges.push(e.1);
        groups.insert(j, CodeGroup { code: key, ranges });
        proof {
            assert forall|a: int, b: int|
                0 <= a < groups@.len() && 0 <= b < groups@[a].ranges@.len() implies {
                let r = #[trigger] groups@[a].ranges@[b];
                r.0 <= r.1 <= len
            } by {
                if a < j {
                    assert(groups@[a] == pre[a]);
                } else if a > j {
                    assert(groups@[a] == pre[a - 1]);
                }
            }
            lemma_ranges_push(es, e, key);
            if ranges_for(es, key).len() > 0 {
                let i = choose|i: int| 0 <= i < pre.len() && pre[i].code == key;
                if i < j {
                    assert(pre[i].code < key);
                } else if j < pre.len() {
                    assert(pre[j as int].code > key);
                    assert(i == j || pre[j as int].code < pre[i].code);
                }
            }
            assert(ranges_for(es2, key) =~= seq![e.1]);
            assert forall|i: int| 0 <= i < groups@.len() implies (#[trigger] groups@[i]).ranges@
                == ranges_for(es2, groups@[i].code) && groups@[i].ranges@.len() > 0 by {
                lemma_ranges_push(es, e, groups@[i].code);
                if i < j {
                    assert(groups@[i] == pre[i]);
                } else if i > j {
                    assert(groups@[i] == pre[i - 1]);
                }
            }
            assert forall|k: u32| #![trigger ranges_for(es2, k)] ranges_for(es2, k).len() > 0 implies exists|
                i: int,
            | 0 <= i < groups@.len() && groups@[i].code == k by {
                lemma_ranges_push(es, e, k);
                if k != key {
                    let i = choose|i: int| 0 <= i < pre.len() && pre[i].code == k;
                    if i < j {
                        assert(groups@[i] == pre[i]);
                    } else {
                        assert(groups@[i + 1] == pre[i]);
                    }
                } else {
                    assert(groups@[j as int].code == k);
                }
            }
            assert forall|a: int, b: int| 0 <= a < b < groups@.len() implies groups@[a].code
                < groups@[b].code by {
                if j < pre.len() {
                    assert(pre[j as int].code > key);
                }
                if a < j {
                    assert(groups@[a] == pre[a]);
                } else if a > j {
                    assert(groups@[a] == pre[a - 1]);
                }
                if b < j {
                    assert(groups@[b] == pre[b]);
                } else if b > j {
                    assert(groups@[b] == pre[b - 1]);
                    if a != j {
                        assert(pre[a - if a > j { 1int } else { 0int }].code < pre[b - 1].code);
                    } else if b - 1 > j {
                        assert(pre[j as int].code < pre[b - 1].code);
                    }
                }
            }
        }
    }
}

/// Builds the index of a block's records, given the spatial code computed for
/// each record (`None` where none could be). Records whose code or timestamp
/// cannot be read are left out of the index.
pub fn index_observations(
    data: &Vec<u8>,
    obs: &Vec<Observation>,
    codes: &Vec<Option<Vec<char>>>,
) -> (r: BlockIndex)
    requires
        obs@.len() == codes@.len(),
        forall|i: int| 0 <= i < obs@.len() ==> record_within((#[trigger] obs@[i])@, data@.len() as int),
    ensures
        indexes(r, entries(data@, views(obs@), codes@, obs@.len() as int)),
        groups_within(r.groups@, data@.len() as int),
{
    let mut groups: Vec<CodeGroup> = Vec::new();
    let mut lo: u64 = u64::MAX;
    let mut hi: u64 = 0;
    let mut i: usize = 0;
    while i < obs.len()
        invariant
            obs@.len() == codes@.len(),
            forall|m: int| 0 <= m < obs@.len() ==> record_within((#[trigger] obs@[m])@, data@.len() as int),
            i <= obs@.len(),
            groups_hold(groups@, entries(data@, views(obs@), codes@, i as int)),
            groups_within(groups@, data@.len() as int),
            lo == min_timestamp(entries(data@, views(obs@), codes@, i as int)),
            hi == max_timestamp(entries(data@, views(obs@), codes@, i as int)),
        decreases obs.len() - i,
    {
        let ghost es = entries(data@, views(obs@), codes@, i as int);
        let o = &obs[i];
        let key = match &codes[i] {
            Some(cs) => pack_code(cs),
            None => None,
        };
        if let Some(k) = key {
            if let Some(t) = timestamp(data, o) {
                let e: Entry = (k, (o.start, o.end), t);
                insert_entry(&mut groups, e, Ghost(es), Ghost(data@.len() as int));
                assert(es.push(e).drop_last() =~= es);
                if t < lo {
                    lo = t;
                }
                if t > hi {
                    hi = t;
                }
            }
        }
        i = i + 1;
    }
    BlockIndex { groups, min_timestamp: lo, max_timestamp: hi }
}

proof fn lemma_entry_in_ranges(es: Seq<Entry>, a: int)
    requires
        0 <= a < es.len(),
    ensures
        ranges_for(es, es[a].0).contains(es[a].1),
    decreases es.len(),
{
    let k = es[a].0;
    let init = es.drop_last();
    if a == es.len() - 1 {
        let r = ranges_for(es, k);
        assert(r == ranges_for(init, k).push(es[a].1));
        assert(r[r.len() - 1] == es[a].1);
    } else {
        assert(init[a] == es[a]);
        lemma_entry_in_ranges(init, a);
        let prev = ranges_for(init, k);
        let j = choose|j: int| 0 <= j < prev.len() && prev[j] == es[a].1;
        lemma_ranges_push(init, es.last(), k);
        assert(init.push(es.last()) =~= es);
        assert(ranges_for(es, k)[j] == es[a].1);
    }
}

/// Records with different spatial codes are kept apart: the index holds each
/// in the group of its own code, and those are two different groups. The
/// returned pair gives the positions of the two groups.
pub proof fn lemma_distinct_codes_distinct_groups(groups: Seq<CodeGroup>, es: Seq<Entry>, a: int, b: int) -> (r: (int, int))
    requires
        groups_hold(groups, es),
        0 <= a < es.len(),
        0 <= b < es.len(),
        es[a].0 != es[b].0,
    ensures
        0 <= r.0 < groups.len() && 0 <= r.1 < groups.len(),
        r.0 != r.1,
        groups[r.0].code == es[a].0 && groups[r.0].ranges@.contains(es[a].1),
        groups[r.1].code == es[b].0 && groups[r.1].ranges@.contains(es[b].1),
{
    lemma_entry_in_ranges(es, a);
    lemma_entry_in_ranges(es, b);
    assert(ranges_for(es, es[a].0).len() > 0);
    assert(ranges_for(es, es[b].0).len() > 0);
    let i = choose|i: int| 0 <= i < groups.len() && groups[i].code == es[a].0;
    let j = choose|j: int| 0 <= j < groups.len() && groups[j].code == es[b].0;
    assert(groups[i].ranges@ == ranges_for(es, groups[i].code));
    assert(groups[j].ranges@ == ranges_for(es, groups[j].code));
    (i, j)
}

} // verus!

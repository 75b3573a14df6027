//! The spatial-code alphabet and the reversible synthetic block id.
use vstd::prelude::*;

verus! {

/// Number of symbols in the spatial-code alphabet.
pub const ALPHABET_SIZE: u8 = 32;

/// Block ids below this bound can be carried by a synthetic id.
pub const MAX_PHYSICAL_ID: u64 = 0x1_0000_0000;

/// The value of each symbol of the alphabet; `None` for any other character.
pub open spec fn char_value(c: char) -> Option<u8> {
    match c {
        '0' => Some(0u8), '1' => Some(1u8), '2' => Some(2u8), '3' => Some(3u8),
        '4' => Some(4u8), '5' => Some(5u8), '6' => Some(6u8), '7' => Some(7u8),
        '8' => Some(8u8), '9' => Some(9u8), 'b' => Some(10u8), 'c' => Some(11u8),
        'd' => Some(12u8), 'e' => Some(13u8), 'f' => Some(14u8), 'g' => Some(15u8),
        'h' => Some(16u8), 'j' => Some(17u8), 'k' => Some(18u8), 'm' => Some(19u8),
        'n' => Some(20u8), 'p' => Some(21u8), 'q' => Some(22u8), 'r' => Some(23u8),
        's' => Some(24u8), 't' => Some(25u8), 'u' => Some(26u8), 'v' => Some(27u8),
        'w' => Some(28u8), 'x' => Some(29u8), 'y' => Some(30u8), 'z' => Some(31u8),
        _ => None,
    }
}

/// The value of a symbol of the alphabet, or `None` for any other character.
pub fn value_of(c: char) -> (r: Option<u8>)
    ensures
        r == char_value(c),
{
    match c {
        '0' => Some(0), '1' => Some(1), '2' => Some(2), '3' => Some(3),
        '4' => Some(4), '5' => Some(5), '6' => Some(6), '7' => Some(7),
        '8' => Some(8), '9' => Some(9), 'b' => Some(10), 'c' => Some(11),
        'd' => Some(12), 'e' => Some(13), 'f' => Some(14), 'g' => Some(15),
        'h' => Some(16), 'j' => Some(17), 'k' => Some(18), 'm' => Some(19),
        'n' => Some(20), 'p' => Some(21), 'q' => Some(22), 'r' => Some(23),
        's' => Some(24), 't' => Some(25), 'u' => Some(26), 'v' => Some(27),
        'w' => Some(28), 'x' => Some(29), 'y' => Some(30), 'z' => Some(31),
        _ => None,
    }
}

/// Number of characters in a spatial code.
pub const CODE_LEN: usize = 4;

/// Keys of packed spatial codes are below this bound.
pub const KEY_BOUND: u32 = 0x1000_0000;

/// The code of character `i` of `cs`.
pub open spec fn ch(cs: Seq<char>, i: int) -> int {
    cs[i] as u32 as int
}

/// The key of a spatial code of `CODE_LEN` ASCII characters: their codes read
/// as a base-128 number, so that keys order as the codes do as strings.
/// `None` for a code of another length or with another character.
pub open spec fn packed(cs: Seq<char>) -> Option<u32> {
    if cs.len() == CODE_LEN && forall|i: int| 0 <= i < CODE_LEN ==> #[trigger] ch(cs, i) < 128 {
        Some((ch(cs, 0) * 0x20_0000 + ch(cs, 1) * 0x4000 + ch(cs, 2) * 128 + ch(cs, 3)) as u32)
    } else {
        None
    }
}

/// The last character of the spatial code packed as `key`.
pub open spec fn last_char(key: u32) -> char {
    ((key % 128) as u8) as char
}

/// A filtered read that accepts the values `acc` takes the code packed as
/// `key`: its last character is a symbol of the alphabet whose value is in `acc`.
pub open spec fn code_accepted(key: u32, acc: Seq<u8>) -> bool {
    match char_value(last_char(key)) {
        Some(v) => acc.contains(v),
        None => false,
    }
}

/// The value of the last character of a packed code, when it is a symbol.
pub fn last_value(key: u32) -> (r: Option<u8>)
    ensures
        r == char_value(last_char(key)),
{
    value_of(((key % 128) as u8) as char)
}

/// Packs a spatial code into its key, as `packed` states.
pub fn pack_code(chars: &Vec<char>) -> (r: Option<u32>)
    ensures
        r == packed(chars@),
        r matches Some(k) ==> k < KEY_BOUND,
{
    if chars.len() != CODE_LEN {
        return None;
    }
    let mut vals: [u32; 4] = [0, 0, 0, 0];
    let mut i: usize = 0;
    while i < CODE_LEN
        invariant
            chars@.len() == CODE_LEN,
            i <= CODE_LEN,
            vals@.len() == 4,
            forall|j: int| 0 <= j < i ==> #[trigger] ch(chars@, j) < 128,
            forall|j: int| 0 <= j < i ==> vals@[j] == ch(chars@, j),
        decreases CODE_LEN - i,
    {
        let c = chars[i] as u32;
        if c >= 128 {
            return None;
        }
        vals[i] = c;
        i = i + 1;
    }
    Some(vals[0] * 0x20_0000 + vals[1] * 0x4000 + vals[2] * 128 + vals[3])
}

/// The characters of the spatial code packed as `key`.
pub fn unpack_code(key: u32) -> (r: Vec<char>)
    requires
        key < KEY_BOUND,
    ensures
        packed(r@) == Some(key),
{
    let d0 = key / 0x20_0000;
    let d1 = key / 0x4000 % 128;
    let d2 = key / 128 % 128;
    let d3 = key % 128;
    let r = vec![(d0 as u8) as char, (d1 as u8) as char, (d2 as u8) as char, (d3 as u8) as char];
    proof {
        assert(ch(r@, 0) == d0 && ch(r@, 1) == d1 && ch(r@, 2) == d2 && ch(r@, 3) == d3);
        assert(key == d0 * 0x20_0000 + d1 * 0x4000 + d2 * 128 + d3);
    }
    r
}

/// Whether bit `v` of `mask` is set.
pub open spec fn has_bit(mask: u32, v: u8) -> bool {
    (mask >> (v as u32)) & 1u32 == 1u32
}

/// The mask with one bit set for each value in `codes`.
pub open spec fn mask_of(codes: Seq<u8>) -> u32
    decreases codes.len(),
{
    if codes.len() == 0 {
        0
    } else {
        mask_of(codes.drop_last()) | (1u32 << (codes.last() as u32))
    }
}

/// The values whose bits are set in `mask`, among those below `n`, ascending.
pub open spec fn codes_below(mask: u32, n: nat) -> Seq<u8>
    decreases n,
{
    if n == 0 {
        seq![]
    } else if has_bit(mask, (n - 1) as u8) {
        codes_below(mask, (n - 1) as nat).push((n - 1) as u8)
    } else {
        codes_below(mask, (n - 1) as nat)
    }
}

/// Every value in `codes` is a value of the alphabet.
pub open spec fn codes_in_alphabet(codes: Seq<u8>) -> bool {
    forall|i: int| 0 <= i < codes.len() ==> codes[i] < ALPHABET_SIZE
}

/// `codes` is strictly ascending.
pub open spec fn strictly_ascending(codes: Seq<u8>) -> bool {
    forall|i: int, j: int| 0 <= i < j < codes.len() ==> codes[i] < codes[j]
}

/// The synthetic id of a physical block and a code mask: the block id in the low
/// half, the mask in the high half.
pub open spec fn synthetic_id(block_id: u64, mask: u32) -> u64 {
    ((mask as u64) << 32u64) | block_id
}

/// The physical block id carried by a synthetic id.
pub open spec fn physical_of(id: u64) -> u64 {
    id & 0xffff_ffffu64
}

/// The code mask carried by a synthetic id.
pub open spec fn mask_in(id: u64) -> u32 {
    (id >> 32u64) as u32
}

proof fn lemma_bit_or(m: u32, c: u8, v: u8)
    requires
        c < 32,
        v < 32,
    ensures
        has_bit(m | (1u32 << (c as u32)), v) == (has_bit(m, v) || v == c),
{
    let cc = c as u32;
    let vv = v as u32;
    assert((((m | (1u32 << cc)) >> vv) & 1u32 == 1u32) == (((m >> vv) & 1u32 == 1u32) || vv == cc))
        by (bit_vector)
        requires
            cc < 32u32,
            vv < 32u32,
    ;
}

/// Bit `v` of `mask_of(codes)` is set exactly when `v` is in `codes`.
pub proof fn lemma_mask_bits(codes: Seq<u8>, v: u8)
    requires
        codes_in_alphabet(codes),
        v < ALPHABET_SIZE,
    ensures
        has_bit(mask_of(codes), v) == codes.contains(v),
    decreases codes.len(),
{
    if codes.len() == 0 {
        assert(((0u32 >> (v as u32)) & 1u32) == 0u32) by (bit_vector);
    } else {
        let init = codes.drop_last();
        assert forall|i: int| 0 <= i < init.len() implies init[i] < ALPHABET_SIZE by {
            assert(init[i] == codes[i]);
        }
        lemma_mask_bits(init, v);
        lemma_bit_or(mask_of(init), codes.last(), v);
        assert(codes =~= init.push(codes.last()));
        if init.contains(v) {
            let k = choose|k: int| 0 <= k < init.len() && init[k] == v;
            assert(codes[k] == v);
        }
        if codes.contains(v) && v != codes.last() {
            let k = choose|k: int| 0 <= k < codes.len() && codes[k] == v;
            assert(k < init.len());
            assert(init[k] == v);
        }
    }
}

proof fn lemma_codes_below(mask: u32, n: nat)
    requires
        n <= 32,
    ensures
        strictly_ascending(codes_below(mask, n)),
        forall|i: int| 0 <= i < codes_below(mask, n).len() ==> codes_below(mask, n)[i] < n,
        forall|v: u8| codes_below(mask, n).contains(v) <==> (v < n && has_bit(mask, v)),
    decreases n,
{
    if n > 0 {
        lemma_codes_below(mask, (n - 1) as nat);
        let prev = codes_below(mask, (n - 1) as nat);
        let cur = codes_below(mask, n);
        assert forall|v: u8| cur.contains(v) <==> (v < n && has_bit(mask, v)) by {
            if has_bit(mask, (n - 1) as u8) {
                assert(cur == prev.push((n - 1) as u8));
                if cur.contains(v) {
                    let k = choose|k: int| 0 <= k < cur.len() && cur[k] == v;
                    if k < prev.len() {
                        assert(prev[k] == v);
                    }
                }
                if v < n && has_bit(mask, v) {
                    if v < n - 1 {
                        let k = choose|k: int| 0 <= k < prev.len() && prev[k] == v;
                        assert(cur[k] == v);
                    } else {
                        assert(cur[prev.len() as int] == v);
                    }
                }
            } else {
                if v < n && has_bit(mask, v) {
                    assert(v != n - 1);
                }
            }
        }
    }
}

/// Two strictly ascending sequences with the same elements are equal.
proof fn lemma_ascending_unique(a: Seq<u8>, b: Seq<u8>)
    requires
        strictly_ascending(a),
        strictly_ascending(b),
        forall|v: u8| a.contains(v) <==> b.contains(v),
    ensures
        a == b,
    decreases a.len(),
{
    if a.len() == 0 {
        if b.len() > 0 {
            assert(b.contains(b[0]));
        }
        assert(a =~= b);
    } else {
        assert(a.contains(a[0]));
        assert(b.len() > 0);
        assert(b.contains(b[0]));
        let ka = choose|k: int| 0 <= k < b.len() && b[k] == a[0];
        let kb = choose|k: int| 0 <= k < a.len() && a[k] == b[0];
        assert(a[0] == b[0]) by {
            if kb > 0 {
                assert(a[0] < a[kb]);
            }
            if ka > 0 {
                assert(b[0] < b[ka]);
            }
        }
        let ta = a.drop_first();
        let tb = b.drop_first();
        assert forall|v: u8| ta.contains(v) <==> tb.contains(v) by {
            if ta.contains(v) {
                let k = choose|k: int| 0 <= k < ta.len() && ta[k] == v;
                assert(a[k + 1] == v && a[0] < a[k + 1]);
                assert(a.contains(v));
                let j = choose|j: int| 0 <= j < b.len() && b[j] == v;
                assert(j != 0);
                assert(tb[j - 1] == v);
            }
            if tb.contains(v) {
                let k = choose|k: int| 0 <= k < tb.len() && tb[k] == v;
                assert(b[k + 1] == v && b[0] < b[k + 1]);
                assert(b.contains(v));
                let j = choose|j: int| 0 <= j < a.len() && a[j] == v;
                assert(j != 0);
                assert(ta[j - 1] == v);
            }
        }
        lemma_ascending_unique(ta, tb);
        assert(a =~= seq![a[0]] + ta);
        assert(b =~= seq![b[0]] + tb);
    }
}

/// The synthetic id for physical block `block_id` viewed through the matched
/// codes `codes`, or `None` when the block id or a code cannot be carried.
pub fn encode_block_id(block_id: u64, codes: &Vec<u8>) -> (r: Option<u64>)
    ensures
        r is Some <==> (block_id < MAX_PHYSICAL_ID && codes_in_alphabet(codes@)),
        r matches Some(id) ==> id == synthetic_id(block_id, mask_of(codes@)),
{
    if block_id >= MAX_PHYSICAL_ID {
        return None;
    }
    let mut mask: u32 = 0;
    let mut i: usize = 0;
    while i < codes.len()
        invariant
            i <= codes.len(),
            codes_in_alphabet(codes@.take(i as int)),
            mask == mask_of(codes@.take(i as int)),
        decreases codes.len() - i,
    {
        let c = codes[i];
        if c >= ALPHABET_SIZE {
            return None;
        }
        assert(codes@.take(i as int + 1).drop_last() =~= codes@.take(i as int));
        mask = mask | (1u32 << (c as u32));
        i = i + 1;
    }
    assert(codes@.take(i as int) =~= codes@);
    let m = mask as u64;
    Some((m << 32u64) | block_id)
}

/// The physical block id and the ascending matched codes carried by a synthetic id.
pub fn decode_block_id(id: u64) -> (r: (u64, Vec<u8>))
    ensures
        r.0 == physical_of(id),
        r.1@ == codes_below(mask_in(id), 32),
{
    let block_id = id & 0xffff_ffffu64;
    let mask = (id >> 32u64) as u32;
    let mut codes: Vec<u8> = Vec::new();
    let mut v: u8 = 0;
    while v < ALPHABET_SIZE
        invariant
            v <= ALPHABET_SIZE,
            mask == mask_in(id),
            codes@ == codes_below(mask, v as nat),
        decreases ALPHABET_SIZE - v,
    {
        if (mask >> (v as u32)) & 1u32 == 1u32 {
            codes.push(v);
        }
        v = v + 1;
    }
    (block_id, codes)
}

/// A synthetic id gives back its physical block id and its matched codes:
/// decoding the encoding of a block id and a strictly ascending set of codes
/// yields that same block id and those same codes, in the same order.
pub proof fn lemma_decode_encode(block_id: u64, codes: Seq<u8>)
    requires
        block_id < MAX_PHYSICAL_ID,
        codes_in_alphabet(codes),
        strictly_ascending(codes),
    ensures
        physical_of(synthetic_id(block_id, mask_of(codes))) == block_id,
        codes_below(mask_in(synthetic_id(block_id, mask_of(codes))), 32) == codes,
{
    let m = mask_of(codes);
    let id = synthetic_id(block_id, m);
    assert((((m as u64) << 32u64) | block_id) & 0xffff_ffffu64 == block_id
        && ((((m as u64) << 32u64) | block_id) >> 32u64) as u32 == m) by (bit_vector)
        requires
            block_id < 0x1_0000_0000u64,
    ;
    lemma_codes_below(m, 32);
    assert forall|v: u8| codes_below(m, 32).contains(v) <==> codes.contains(v) by {
        if v < 32 {
            lemma_mask_bits(codes, v);
        }
        if codes.contains(v) {
            let k = choose|k: int| 0 <= k < codes.len() && codes[k] == v;
            assert(codes[k] < 32);
        }
    }
    lemma_ascending_unique(codes_below(m, 32), codes);
}

} // verus!

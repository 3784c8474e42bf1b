//! The compact posting-list format: unsigned integers are written in VByte form
//! (seven payload bits per byte, least significant group first, the high bit set on
//! every byte but the last), and document ids and positions are delta-coded.

use vstd::prelude::*;

verus! {

/// Weight of the `k`-th seven-bit group: `128^k`.
pub open spec fn group_weight(k: nat) -> nat
    decreases k,
{
    if k == 0 {
        1
    } else {
        128 * group_weight((k - 1) as nat)
    }
}

/// Number of bytes of the VByte group that starts at `i`: the bytes up to and
/// including the first one below 128. `None` when no such byte follows `i` in `s`.
pub open spec fn varint_len(s: Seq<u8>, i: int) -> Option<nat>
    decreases s.len() - i,
{
    if i < 0 || i >= s.len() {
        None
    } else if s[i] < 128 {
        Some(1)
    } else {
        match varint_len(s, i + 1) {
            Some(n) => Some(n + 1),
            None => None,
        }
    }
}

/// Sum of the payloads of the `n` bytes starting at `i`, each weighted by its group.
pub open spec fn varint_sum(s: Seq<u8>, i: int, n: nat) -> nat
    decreases n,
{
    if n == 0 {
        0
    } else {
        (s[i] % 128) as nat + 128 * varint_sum(s, i + 1, (n - 1) as nat)
    }
}

/// The VByte group at `i`, read as the decoder reads it: its value (kept to the low
/// 32 bits) and the index just past it. `None` when the group does not end inside `s`
/// or is longer than five bytes.
pub open spec fn varint_at(s: Seq<u8>, i: int) -> Option<(int, int)> {
    match varint_len(s, i) {
        Some(n) => if n <= 5 {
            Some(((varint_sum(s, i, n) % 0x1_0000_0000) as int, i + n))
        } else {
            None
        },
        None => None,
    }
}

proof fn lemma_varint_len_bounds(s: Seq<u8>, i: int)
    ensures
        varint_len(s, i) matches Some(n) ==> 1 <= n && i + n <= s.len() && 0 <= i,
    decreases s.len() - i,
{
    if 0 <= i < s.len() && s[i] >= 128 {
        lemma_varint_len_bounds(s, i + 1);
    }
}

proof fn lemma_varint_len_step(s: Seq<u8>, i: int, k: nat)
    requires
        varint_len(s, i) matches Some(n) && k < n,
    ensures
        0 <= i + k < s.len(),
        varint_len(s, i) matches Some(n) && (k + 1 < n ==> s[i + k] >= 128) && (k + 1 == n
            ==> s[i + k] < 128),
    decreases k,
{
    lemma_varint_len_bounds(s, i);
    let n = varint_len(s, i).unwrap();
    if s[i] >= 128 {
        lemma_varint_len_bounds(s, i + 1);
        assert(varint_len(s, i + 1) == Some((n - 1) as nat));
    }
    if k > 0 {
        lemma_varint_len_step(s, i + 1, (k - 1) as nat);
        assert(i + 1 + (k - 1) == i + k);
    }
}

proof fn lemma_varint_sum_push(s: Seq<u8>, i: int, k: nat)
    ensures
        varint_sum(s, i, k + 1) == varint_sum(s, i, k) + (s[i + k] % 128) as nat * group_weight(k),
    decreases k,
{
    if k > 0 {
        lemma_varint_sum_push(s, i + 1, (k - 1) as nat);
        let a = (s[i] % 128) as nat;
        let b = (s[i + k] % 128) as nat;
        let r = varint_sum(s, i + 1, (k - 1) as nat);
        let w = group_weight((k - 1) as nat);
        assert(i + 1 + (k - 1) as nat == i + k);
        assert(varint_sum(s, i + 1, k) == r + b * w);
        assert(128 * (r + b * w) == 128 * r + b * (128 * w)) by (nonlinear_arith);
        assert(varint_sum(s, i, k) == a + 128 * r);
        assert(group_weight(k) == 128 * w);
        assert(varint_sum(s, i, k + 1) == a + 128 * varint_sum(s, i + 1, k));
        assert(varint_sum(s, i, k + 1) == varint_sum(s, i, k) + b * group_weight(k));
    } else {
        assert(varint_sum(s, i, 1) == (s[i] % 128) as nat + 128 * varint_sum(s, i + 1, 0));
        assert(varint_sum(s, i + 1, 0) == 0);
        assert(group_weight(0) == 1);
        assert(varint_sum(s, i, 0) == 0);
        assert(varint_sum(s, i, k + 1) == varint_sum(s, i, k) + (s[i + k] % 128) as nat * group_weight(k));
    }
}

/// Reads one VByte group of `data` at `*index`, advances `*index` past it and
/// returns its value.
pub fn decode_varint(data: &[u8], index: &mut usize) -> (value: u32)
    requires
        varint_at(data@, *old(index) as int) is Some,
    ensures
        varint_at(data@, *old(index) as int) == Some((value as int, *final(index) as int)),
{
    let ghost start = *index as int;
    proof {
        lemma_varint_len_bounds(data@, start);
    }
    let ghost n = varint_len(data@, start).unwrap();
    let mut result: u32 = 0;
    let mut shift: u32 = 0;
    let ghost mut k: nat = 0;
    loop
        invariant_except_break
            k < n,
            shift == 7 * k,
            varint_sum(data@, start, k) < group_weight(k),
        invariant
            varint_len(data@, start) == Some(n),
            1 <= n <= 5,
            start + n <= data@.len(),
            0 <= start,
            k <= n,
            *index as int == start + k,
            result as int == varint_sum(data@, start, k) % 0x1_0000_0000,
        ensures
            k == n,
        decreases n - k,
    {
        proof {
            lemma_varint_len_step(data@, start, k);
            lemma_varint_sum_push(data@, start, k);
        }
        let byte = data[*index];
        *index += 1;
        let chunk = (byte & 127) as u32;
        assert(chunk == byte % 128) by (bit_vector)
            requires chunk == (byte & 127) as u32;
        let ghost prev = varint_sum(data@, start, k);
        assert(prev == result) by {
            assert(group_weight(k) <= 0x1000_0000) by {
                reveal_with_fuel(group_weight, 5);
            }
        }
        let shifted = chunk << shift;
        let next = result | shifted;
        proof {
            reveal_with_fuel(group_weight, 6);
            let w = group_weight(k);
            if shift == 0 {
                assert(next == result + chunk) by (bit_vector)
                    requires result == 0u32, chunk < 128u32, next == result | (chunk << 0u32);
                assert(w == 1);
            } else if shift == 7 {
                assert(next == result + chunk * 128) by (bit_vector)
                    requires result < 128u32, chunk < 128u32, next == result | (chunk << 7u32);
                assert(w == 128);
            } else if shift == 14 {
                assert(next == result + chunk * 0x4000) by (bit_vector)
                    requires result < 0x4000u32, chunk < 128u32, next == result | (chunk << 14u32);
                assert(w == 0x4000);
            } else if shift == 21 {
                assert(next == result + chunk * 0x20_0000) by (bit_vector)
                    requires result < 0x20_0000u32, chunk < 128u32, next == result | (chunk << 21u32);
                assert(w == 0x20_0000);
            } else {
                assert(next == (result + chunk * 0x1000_0000) % 0x1_0000_0000) by (bit_vector)
                    requires result < 0x1000_0000u32, chunk < 128u32, next == result | (chunk << 28u32);
                assert(w == 0x1000_0000);
            }
            assert(varint_sum(data@, start, k + 1) == prev + chunk * w);
            assert(chunk * w <= 127 * w) by (nonlinear_arith)
                requires chunk <= 127;
            assert(group_weight(k + 1) == 128 * w);
        }
        result = next;
        if byte & 128 == 0 {
            assert(byte & 128 == 0 ==> byte < 128) by (bit_vector);
            proof {
                k = k + 1;
            }
            break;
        }
        assert(byte & 128 != 0 ==> byte >= 128) by (bit_vector);
        shift += 7;
        proof {
            k = k + 1;
        }
    }
    result
}

/// A value read at byte `i` ends after `i`, within the bytes, and fits in a `u32`.
pub proof fn lemma_varint_at_advances(s: Seq<u8>, i: int)
    ensures
        varint_at(s, i) matches Some((v, next)) ==> 0 <= i < next <= s.len() && 0 <= v
            <= u32::MAX,
{
    lemma_varint_len_bounds(s, i);
}

/// Reads `count` delta-coded positions starting at byte `i`, the running position
/// starting from `last`: the positions and the index just past them. `None` where the
/// decoder would fail (a group that does not end inside `s`, a group longer than five
/// bytes, or a position beyond `u32::MAX`).
pub open spec fn decode_positions(s: Seq<u8>, i: int, count: nat, last: int) -> Option<
    (Seq<u32>, int),
>
    decreases count,
{
    if count == 0 {
        Some((seq![], i))
    } else {
        match varint_at(s, i) {
            None => None,
            Some((delta, next)) => {
                let pos = last + delta;
                if pos > u32::MAX {
                    None
                } else {
                    match decode_positions(s, next, (count - 1) as nat, pos) {
                        None => None,
                        Some((rest, end)) => Some((seq![pos as u32] + rest, end)),
                    }
                }
            },
        }
    }
}

/// Reading `count` positions yields `count` of them and does not go back.
pub proof fn lemma_decode_positions_bounds(s: Seq<u8>, i: int, count: nat, last: int)
    ensures
        decode_positions(s, i, count, last) matches Some((ps, end)) ==> i <= end && (count > 0
            ==> end <= s.len()) && ps.len() == count,
    decreases count,
{
    if count > 0 {
        lemma_varint_at_advances(s, i);
        if let Some((delta, next)) = varint_at(s, i) {
            lemma_decode_positions_bounds(s, next, (count - 1) as nat, last + delta);
        }
    }
}

/// A posting list read from byte `i` to the end of `s`, document ids running from
/// `last_doc`: each entry is a document id delta, a position count, then that many
/// position deltas (positions restart from 0 in every entry). `None` where the
/// decoder would fail, including a document id beyond `u32::MAX`.
pub open spec fn decode_postings_from(s: Seq<u8>, i: int, last_doc: int) -> Option<
    Seq<(u32, Seq<u32>)>,
>
    decreases s.len() - i,
{
    if i >= s.len() {
        Some(seq![])
    } else {
        match varint_at(s, i) {
            None => None,
            Some((delta, j)) => {
                let doc = last_doc + delta;
                if doc > u32::MAX {
                    None
                } else {
                    match varint_at(s, j) {
                        None => None,
                        Some((freq, k)) => {
                            match decode_positions(s, k, freq as nat, 0) {
                                None => None,
                                Some((ps, e)) => {
                                    proof {
                                        lemma_varint_at_advances(s, i);
                                        lemma_varint_at_advances(s, j);
                                        lemma_decode_positions_bounds(s, k, freq as nat, 0);
                                    }
                                    match decode_postings_from(s, e, doc) {
                                        None => None,
                                        Some(rest) => Some(seq![(doc as u32, ps)] + rest),
                                    }
                                },
                            }
                        },
                    }
                }
            },
        }
    }
}

/// The posting list that `s` encodes, as the decoder reads it from its first byte.
pub open spec fn decoded_postings(s: Seq<u8>) -> Option<Seq<(u32, Seq<u32>)>> {
    decode_postings_from(s, 0, 0)
}

/// One entry of a posting list: a document and the positions of the term in it.
#[derive(Debug)]
pub struct Posting {
    pub doc_id: u32,
    pub positions: Vec<u32>,
}

impl View for Posting {
    type V = (u32, Seq<u32>);

    open spec fn view(&self) -> (u32, Seq<u32>) {
        (self.doc_id, self.positions@)
    }
}

/// The views of a vector of postings.
pub open spec fn postings_view(v: Seq<Posting>) -> Seq<(u32, Seq<u32>)> {
    v.map_values(|p: Posting| p@)
}

/// Decodes a whole delta/VByte posting list.
pub fn decode_posting_list(data: &[u8]) -> (postings: Vec<Posting>)
    requires
        decoded_postings(data@) is Some,
    ensures
        decoded_postings(data@) == Some(postings_view(postings@)),
{
    let mut postings: Vec<Posting> = Vec::new();
    let mut index: usize = 0;
    let mut last_doc_id: u32 = 0;
    while index < data.len()
        invariant
            decode_postings_from(data@, index as int, last_doc_id as int) is Some,
            decoded_postings(data@) == Some(
                postings_view(postings@) + decode_postings_from(
                    data@,
                    index as int,
                    last_doc_id as int,
                ).unwrap(),
            ),
        decreases data.len() - index,
    {
        let ghost i0 = index as int;
        let ghost rest = decode_postings_from(data@, i0, last_doc_id as int).unwrap();
        let doc_delta = decode_varint(data, &mut index);
        let doc_id = last_doc_id + doc_delta;
        last_doc_id = doc_id;
        let ghost j0 = index as int;
        let freq = decode_varint(data, &mut index);
        proof {
            lemma_varint_at_advances(data@, j0);
        }
        let ghost k0 = index as int;
        let ghost (all_ps, e) = decode_positions(data@, k0, freq as nat, 0).unwrap();
        proof {
            lemma_varint_at_advances(data@, i0);
            lemma_decode_positions_bounds(data@, k0, freq as nat, 0);
        }
        let mut positions: Vec<u32> = Vec::new();
        let mut last_pos: u32 = 0;
        let mut c: u32 = 0;
        while c < freq
            invariant
                c <= freq,
                decode_positions(data@, index as int, (freq - c) as nat, last_pos as int)
                    == Some((all_ps.subrange(c as int, freq as int), e)),
                positions@ == all_ps.subrange(0, c as int),
                all_ps.len() == freq,
            decreases freq - c,
        {
            let ghost tail = all_ps.subrange(c as int, freq as int);
            let pos_delta = decode_varint(data, &mut index);
            let pos = last_pos + pos_delta;
            assert(tail[0] == pos);
            positions.push(pos);
            last_pos = pos;
            c += 1;
            assert(tail.drop_first() =~= all_ps.subrange(c as int, freq as int));
            assert(positions@ =~= all_ps.subrange(0, c as int));
        }
        assert(positions@ =~= all_ps);
        assert(index as int == e);
        assert(i0 < index);
        let ghost before = postings_view(postings@);
        postings.push(Posting { doc_id, positions });
        assert(postings_view(postings@) =~= before.push((doc_id, all_ps)));
        assert(rest =~= seq![(doc_id, all_ps)] + decode_postings_from(
            data@,
            index as int,
            last_doc_id as int,
        ).unwrap());
        assert(before + rest =~= postings_view(postings@) + decode_postings_from(
            data@,
            index as int,
            last_doc_id as int,
        ).unwrap());
    }
    assert(postings_view(postings@) + seq![] =~= postings_view(postings@));
    postings
}


/// The VByte form of `v`: seven-bit groups, least significant first, the high bit
/// set on every byte but the last.
pub open spec fn encode_varint(v: nat) -> Seq<u8>
    decreases v,
{
    if v < 128 {
        seq![v as u8]
    } else {
        seq![(v % 128 + 128) as u8] + encode_varint(v / 128)
    }
}

proof fn lemma_encode_varint_long(v: nat, k: nat)
    requires
        v >= group_weight(k),
    ensures
        encode_varint(v).len() >= k + 1,
    decreases k,
{
    if k > 0 {
        let g = group_weight((k - 1) as nat);
        assert(group_weight(k) == 128 * g);
        assert(g >= 1) by {
            lemma_group_weight_positive((k - 1) as nat);
        }
        assert(v >= 128);
        assert(v / 128 >= g) by (nonlinear_arith)
            requires
                v >= 128 * g,
        ;
        lemma_encode_varint_long(v / 128, (k - 1) as nat);
    }
}

proof fn lemma_group_weight_positive(k: nat)
    ensures
        group_weight(k) >= 1,
    decreases k,
{
    if k > 0 {
        lemma_group_weight_positive((k - 1) as nat);
    }
}

/// The VByte form of `v`, wherever it stands among other bytes, is read back as `v`
/// and takes one byte for each started group of seven bits: 1 byte below 2^7, 2 below
/// 2^14, 3 below 2^21, 4 below 2^28, otherwise 5.
pub proof fn lemma_varint_round_trip(v: u32, before: Seq<u8>, after: Seq<u8>)
    ensures
        varint_at(before + encode_varint(v as nat) + after, before.len() as int) == Some(
            (v as int, before.len() + encode_varint(v as nat).len() as int),
        ),
        encode_varint(v as nat).len() == (if v < 0x80 {
            1int
        } else if v < 0x4000 {
            2int
        } else if v < 0x20_0000 {
            3int
        } else if v < 0x1000_0000 {
            4int
        } else {
            5int
        }),
{
    let e = encode_varint(v as nat);
    let s = before + e + after;
    assert(s.subrange(before.len() as int, (before.len() + e.len()) as int) =~= e);
    lemma_varint_at_encoded(v as nat, s, before.len() as int);
    reveal_with_fuel(group_weight, 6);
    assert(group_weight(1) == 0x80);
    assert(group_weight(2) == 0x4000);
    assert(group_weight(3) == 0x20_0000);
    assert(group_weight(4) == 0x1000_0000);
    assert(group_weight(5) == 0x8_0000_0000);
    if v < 0x80 {
        lemma_encode_varint_short(v as nat, 1);
    } else if v < 0x4000 {
        lemma_encode_varint_short(v as nat, 2);
        lemma_encode_varint_long(v as nat, 1);
    } else if v < 0x20_0000 {
        lemma_encode_varint_short(v as nat, 3);
        lemma_encode_varint_long(v as nat, 2);
    } else if v < 0x1000_0000 {
        lemma_encode_varint_short(v as nat, 4);
        lemma_encode_varint_long(v as nat, 3);
    } else {
        lemma_encode_varint_short(v as nat, 5);
        lemma_encode_varint_long(v as nat, 4);
    }
}

/// Positions written as VByte deltas, each from the one before (the first from `last`).
pub open spec fn encode_positions(ps: Seq<u32>, last: int) -> Seq<u8>
    decreases ps.len(),
{
    if ps.len() == 0 {
        seq![]
    } else {
        encode_varint((ps[0] - last) as nat) + encode_positions(ps.drop_first(), ps[0] as int)
    }
}

/// Postings written as: document id delta (from the previous document, the first
/// from `last_doc`), number of positions, then the delta-coded positions.
pub open spec fn encode_postings_from(p: Seq<(u32, Seq<u32>)>, last_doc: int) -> Seq<u8>
    decreases p.len(),
{
    if p.len() == 0 {
        seq![]
    } else {
        encode_varint((p[0].0 - last_doc) as nat) + encode_varint(p[0].1.len()) + encode_positions(
            p[0].1,
            0,
        ) + encode_postings_from(p.drop_first(), p[0].0 as int)
    }
}

/// The on-disk form of a posting list.
pub open spec fn encoded_postings(p: Seq<(u32, Seq<u32>)>) -> Seq<u8> {
    encode_postings_from(p, 0)
}

/// `s` never decreases.
pub open spec fn is_nondecreasing(s: Seq<u32>) -> bool {
    forall|i: int, j: int| 0 <= i <= j < s.len() ==> s[i] <= s[j]
}

/// A posting list that the format can hold: document ids never decrease, positions
/// never decrease within an entry, and no entry has more than `u32::MAX` positions.
pub open spec fn postings_encodable(p: Seq<(u32, Seq<u32>)>) -> bool {
    &&& forall|i: int, j: int| 0 <= i <= j < p.len() ==> p[i].0 <= p[j].0
    &&& forall|i: int| 0 <= i < p.len() ==> is_nondecreasing(#[trigger] p[i].1)
    &&& forall|i: int| 0 <= i < p.len() ==> #[trigger] p[i].1.len() <= u32::MAX
}

proof fn lemma_split_subrange(s: Seq<u8>, i: int, x: Seq<u8>, y: Seq<u8>)
    requires
        0 <= i,
        i + x.len() + y.len() <= s.len(),
        s.subrange(i, i + x.len() + y.len()) == x + y,
    ensures
        s.subrange(i, i + x.len()) == x,
        s.subrange(i + x.len(), i + x.len() + y.len()) == y,
{
    let whole = s.subrange(i, i + x.len() + y.len());
    assert forall|t: int| 0 <= t < x.len() implies s.subrange(i, i + x.len())[t] == x[t] by {
        assert(whole[t] == (x + y)[t]);
    }
    assert forall|t: int| 0 <= t < y.len() implies s.subrange(
        i + x.len(),
        i + x.len() + y.len(),
    )[t] == y[t] by {
        assert(whole[x.len() + t] == (x + y)[x.len() + t]);
    }
    assert(s.subrange(i, i + x.len()) =~= x);
    assert(s.subrange(i + x.len(), i + x.len() + y.len()) =~= y);
}

proof fn lemma_encode_varint_reads_back(v: nat, s: Seq<u8>, i: int)
    requires
        0 <= i,
        i + encode_varint(v).len() <= s.len(),
        s.subrange(i, i + encode_varint(v).len()) == encode_varint(v),
    ensures
        varint_len(s, i) == Some(encode_varint(v).len()),
        varint_sum(s, i, encode_varint(v).len()) == v,
    decreases v,
{
    let e = encode_varint(v);
    assert(s[i] == s.subrange(i, i + e.len())[0]);
    if v >= 128 {
        let t = encode_varint(v / 128);
        let h = seq![(v % 128 + 128) as u8];
        assert(e == h + t);
        lemma_split_subrange(s, i, h, t);
        lemma_encode_varint_reads_back(v / 128, s, i + 1);
        assert(e.len() == t.len() + 1);
        assert(varint_sum(s, i, e.len()) == (s[i] % 128) as nat + 128 * varint_sum(
            s,
            i + 1,
            t.len(),
        ));
    } else {
        assert(varint_sum(s, i, 1) == (s[i] % 128) as nat + 128 * varint_sum(s, i + 1, 0));
    }
}

proof fn lemma_encode_varint_short(v: nat, k: nat)
    requires
        v < group_weight(k),
        k >= 1,
    ensures
        encode_varint(v).len() <= k,
        encode_varint(v).len() >= 1,
    decreases v,
{
    if v >= 128 {
        assert(k >= 2) by {
            if k == 1 {
                assert(group_weight(1) == 128) by {
                    reveal_with_fuel(group_weight, 2);
                }
            }
        }
        assert(v / 128 < group_weight((k - 1) as nat));
        lemma_encode_varint_short(v / 128, (k - 1) as nat);
    }
}

/// Reading back one written VByte group.
proof fn lemma_varint_at_encoded(v: nat, s: Seq<u8>, i: int)
    requires
        v <= u32::MAX,
        0 <= i,
        i + encode_varint(v).len() <= s.len(),
        s.subrange(i, i + encode_varint(v).len()) == encode_varint(v),
    ensures
        varint_at(s, i) == Some((v as int, i + encode_varint(v).len())),
{
    lemma_encode_varint_reads_back(v, s, i);
    assert(group_weight(5) == 0x8_0000_0000) by {
        reveal_with_fuel(group_weight, 6);
    }
    lemma_encode_varint_short(v, 5);
}

proof fn lemma_positions_read_back(ps: Seq<u32>, last: int, s: Seq<u8>, i: int)
    requires
        is_nondecreasing(ps),
        0 <= last,
        ps.len() > 0 ==> last <= ps[0],
        0 <= i,
        i + encode_positions(ps, last).len() <= s.len(),
        s.subrange(i, i + encode_positions(ps, last).len()) == encode_positions(ps, last),
    ensures
        decode_positions(s, i, ps.len(), last) == Some((ps, i + encode_positions(ps, last).len())),
    decreases ps.len(),
{
    if ps.len() > 0 {
        let d = (ps[0] - last) as nat;
        let head = encode_varint(d);
        let tail = encode_positions(ps.drop_first(), ps[0] as int);
        let all = encode_positions(ps, last);
        assert(all == head + tail);
        lemma_split_subrange(s, i, head, tail);
        lemma_varint_at_encoded(d, s, i);
        let j = i + head.len();
        assert(is_nondecreasing(ps.drop_first()));
        lemma_positions_read_back(ps.drop_first(), ps[0] as int, s, j);
        assert(seq![ps[0]] + ps.drop_first() =~= ps);
    }
}

proof fn lemma_postings_read_back(p: Seq<(u32, Seq<u32>)>, last: int, s: Seq<u8>, i: int)
    requires
        postings_encodable(p),
        0 <= last,
        p.len() > 0 ==> last <= p[0].0,
        0 <= i <= s.len(),
        s.subrange(i, s.len() as int) == encode_postings_from(p, last),
    ensures
        decode_postings_from(s, i, last) == Some(p),
    decreases p.len(),
{
    let all = encode_postings_from(p, last);
    if p.len() == 0 {
        assert(s.subrange(i, s.len() as int).len() == 0);
    } else {
        let a = encode_varint((p[0].0 - last) as nat);
        let b = encode_varint(p[0].1.len());
        let c = encode_positions(p[0].1, 0);
        let rest = encode_postings_from(p.drop_first(), p[0].0 as int);
        assert(all == a + (b + (c + rest)));
        assert(s.len() == i + all.len());
        lemma_split_subrange(s, i, a, b + (c + rest));
        lemma_varint_at_encoded((p[0].0 - last) as nat, s, i);
        let j = i + a.len();
        lemma_split_subrange(s, j, b, c + rest);
        lemma_varint_at_encoded(p[0].1.len(), s, j);
        let k = j + b.len();
        lemma_split_subrange(s, k, c, rest);
        assert(is_nondecreasing(p[0].1));
        lemma_positions_read_back(p[0].1, 0, s, k);
        let e = k + c.len();
        assert(s.subrange(e, s.len() as int) == rest);
        let q = p.drop_first();
        assert(postings_encodable(q)) by {
            assert forall|x: int, y: int| 0 <= x <= y < q.len() implies q[x].0 <= q[y].0 by {
                assert(q[x] == p[x + 1] && q[y] == p[y + 1]);
            }
            assert forall|x: int| 0 <= x < q.len() implies is_nondecreasing(#[trigger] q[x].1) by {
                assert(q[x] == p[x + 1]);
            }
            assert forall|x: int| 0 <= x < q.len() implies #[trigger] q[x].1.len() <= u32::MAX by {
                assert(q[x] == p[x + 1]);
            }
        }
        if q.len() > 0 {
            assert(q[0] == p[1]);
        }
        lemma_postings_read_back(q, p[0].0 as int, s, e);
        assert(i < s.len());
        assert(seq![(p[0].0, p[0].1)] + q =~= p);
    }
}

/// Decoding gives back every posting list written in the format: for a list whose
/// document ids and positions never decrease, `decoded_postings` of its encoding is
/// the list itself.
pub proof fn lemma_decode_inverts_encode(p: Seq<(u32, Seq<u32>)>)
    requires
        postings_encodable(p),
    ensures
        decoded_postings(encoded_postings(p)) == Some(p),
{
    let s = encoded_postings(p);
    assert(s.subrange(0, s.len() as int) =~= s);
    lemma_postings_read_back(p, 0, s, 0);
}


proof fn lemma_encode_positions_snoc(ps: Seq<u32>, last: int, x: u32)
    ensures
        encode_positions(ps.push(x), last) == encode_positions(ps, last) + encode_varint(
            (x - (if ps.len() == 0 {
                last
            } else {
                ps.last() as int
            })) as nat,
        ),
    decreases ps.len(),
{
    if ps.len() == 0 {
        assert(ps.push(x).drop_first() =~= Seq::<u32>::empty());
        assert(ps.push(x)[0] == x);
        assert(encode_positions(ps.push(x).drop_first(), x as int) == Seq::<u8>::empty());
        assert(encode_positions(ps.push(x), last) =~= encode_varint((x - last) as nat) + seq![]);
    } else {
        assert(ps.push(x).drop_first() =~= ps.drop_first().push(x));
        lemma_encode_positions_snoc(ps.drop_first(), ps[0] as int, x);
        if ps.len() > 1 {
            assert(ps.drop_first().last() == ps.last());
        }
        let h = encode_varint((ps[0] - last) as nat);
        assert(encode_positions(ps.push(x), last) == h + encode_positions(
            ps.drop_first().push(x),
            ps[0] as int,
        ));
        assert(encode_positions(ps, last) == h + encode_positions(ps.drop_first(), ps[0] as int));
        let t = encode_varint((x - ps.last()) as nat);
        assert(h + (encode_positions(ps.drop_first(), ps[0] as int) + t) =~= (h
            + encode_positions(ps.drop_first(), ps[0] as int)) + t);
    }
}

/// The bytes of one posting-list entry, document id taken as a delta from `last_doc`.
pub open spec fn encode_entry(e: (u32, Seq<u32>), last_doc: int) -> Seq<u8> {
    encode_varint((e.0 - last_doc) as nat) + encode_varint(e.1.len()) + encode_positions(e.1, 0)
}

proof fn lemma_encode_postings_snoc(p: Seq<(u32, Seq<u32>)>, last: int, x: (u32, Seq<u32>))
    ensures
        encode_postings_from(p.push(x), last) == encode_postings_from(p, last) + encode_entry(
            x,
            if p.len() == 0 {
                last
            } else {
                p.last().0 as int
            },
        ),
    decreases p.len(),
{
    if p.len() == 0 {
        assert(p.push(x).drop_first() =~= Seq::<(u32, Seq<u32>)>::empty());
        assert(p.push(x)[0] == x);
        assert(encode_postings_from(p.push(x).drop_first(), x.0 as int) == Seq::<u8>::empty());
        assert(encode_postings_from(p.push(x), last) =~= encode_entry(x, last) + seq![]);
    } else {
        assert(p.push(x).drop_first() =~= p.drop_first().push(x));
        lemma_encode_postings_snoc(p.drop_first(), p[0].0 as int, x);
        if p.len() > 1 {
            assert(p.drop_first().last() == p.last());
        }
        let h = encode_entry(p[0], last);
        assert(encode_postings_from(p.push(x), last) =~= h + encode_postings_from(
            p.drop_first().push(x),
            p[0].0 as int,
        ));
        assert(encode_postings_from(p, last) =~= h + encode_postings_from(
            p.drop_first(),
            p[0].0 as int,
        ));
        let t = encode_entry(x, p.last().0 as int);
        assert(h + (encode_postings_from(p.drop_first(), p[0].0 as int) + t) =~= (h
            + encode_postings_from(p.drop_first(), p[0].0 as int)) + t);
    }
}

/// Appends the VByte form of `v` to `out`.
pub fn encode_varint_into(v: u32, out: &mut Vec<u8>)
    ensures
        final(out)@ == old(out)@ + encode_varint(v as nat),
{
    let mut rest = v;
    while rest >= 128
        invariant
            old(out)@ + encode_varint(v as nat) == out@ + encode_varint(rest as nat),
        decreases rest,
    {
        let byte = ((rest & 127) | 128) as u8;
        assert(((rest & 127) | 128) as u8 == (rest % 128 + 128) as u8) by (bit_vector);
        let ghost before = out@;
        out.push(byte);
        let next = rest >> 7;
        assert(rest >> 7 == rest / 128) by (bit_vector);
        assert(encode_varint(rest as nat) == seq![byte] + encode_varint(next as nat));
        assert(before + (seq![byte] + encode_varint(next as nat)) =~= out@ + encode_varint(
            next as nat,
        ));
        rest = next;
    }
    let ghost before = out@;
    out.push(rest as u8);
    assert(before + encode_varint(rest as nat) =~= out@);
}

/// Writes a posting list in the compact format that `decode_posting_list` reads.
pub fn encode_posting_list(postings: &Vec<Posting>) -> (data: Vec<u8>)
    requires
        postings_encodable(postings_view(postings@)),
    ensures
        data@ == encoded_postings(postings_view(postings@)),
{
    let ghost pv = postings_view(postings@);
    let mut out: Vec<u8> = Vec::new();
    let mut last_doc: u32 = 0;
    let mut t: usize = 0;
    while t < postings.len()
        invariant
            pv == postings_view(postings@),
            postings_encodable(pv),
            t <= postings.len(),
            out@ == encode_postings_from(pv.take(t as int), 0),
            last_doc as int == (if t == 0 {
                0
            } else {
                pv[t - 1].0 as int
            }),
        decreases postings.len() - t,
    {
        let p = &postings[t];
        assert(pv[t as int] == p@);
        assert(last_doc <= p.doc_id) by {
            if t > 0 {
                assert(pv[t - 1].0 <= pv[t as int].0);
            }
        }
        let ghost before = out@;
        encode_varint_into(p.doc_id - last_doc, &mut out);
        assert(p.positions.len() <= u32::MAX) by {
            assert(pv[t as int].1.len() <= u32::MAX);
        }
        let count = p.positions.len() as u32;
        encode_varint_into(count, &mut out);
        let ghost mid = out@;
        let mut last_pos: u32 = 0;
        let mut q: usize = 0;
        assert(is_nondecreasing(pv[t as int].1));
        while q < p.positions.len()
            invariant
                q <= p.positions.len(),
                is_nondecreasing(p.positions@),
                out@ == mid + encode_positions(p.positions@.take(q as int), 0),
                last_pos as int == (if q == 0 {
                    0
                } else {
                    p.positions@[q - 1] as int
                }),
            decreases p.positions.len() - q,
        {
            let pos = p.positions[q];
            assert(last_pos <= pos) by {
                if q > 0 {
                    assert(p.positions@[q - 1] <= p.positions@[q as int]);
                }
            }
            proof {
                lemma_encode_positions_snoc(p.positions@.take(q as int), 0, pos);
                assert(p.positions@.take(q as int).push(pos) =~= p.positions@.take(q + 1));
            }
            let ghost inner = out@;
            encode_varint_into(pos - last_pos, &mut out);
            assert(mid + encode_positions(p.positions@.take(q + 1), 0) =~= inner + encode_varint(
                (pos - last_pos) as nat,
            ));
            last_pos = pos;
            q += 1;
        }
        assert(p.positions@.take(q as int) =~= p.positions@);
        proof {
            lemma_encode_postings_snoc(pv.take(t as int), 0, pv[t as int]);
            assert(pv.take(t as int).push(pv[t as int]) =~= pv.take(t + 1));
            if t > 0 {
                assert(pv.take(t as int).last() == pv[t - 1]);
            }
            assert(out@ =~= before + encode_entry(pv[t as int], last_doc as int));
        }
        last_doc = p.doc_id;
        t += 1;
    }
    assert(pv.take(t as int) =~= pv);
    out
}


proof fn lemma_positions_sorted(s: Seq<u8>, i: int, count: nat, last: int)
    requires
        last >= 0,
    ensures
        decode_positions(s, i, count, last) matches Some((ps, e)) ==> is_nondecreasing(ps) && (
        forall|k: int| 0 <= k < ps.len() ==> last <= #[trigger] ps[k]),
    decreases count,
{
    if count > 0 {
        if let Some((delta, next)) = varint_at(s, i) {
            lemma_varint_at_advances(s, i);
            let pos = last + delta;
            lemma_positions_sorted(s, next, (count - 1) as nat, pos);
            if let Some((ps, e)) = decode_positions(s, i, count, last) {
                let rest = decode_positions(s, next, (count - 1) as nat, pos).unwrap().0;
                assert(ps == seq![pos as u32] + rest);
                assert(ps[0] == pos);
                assert forall|a: int, b: int| 0 <= a <= b < ps.len() implies ps[a] <= ps[b] by {
                    if a > 0 {
                        assert(ps[a] == rest[a - 1] && ps[b] == rest[b - 1]);
                    } else if b > 0 {
                        assert(ps[b] == rest[b - 1]);
                    }
                }
                assert forall|k: int| 0 <= k < ps.len() implies last <= #[trigger] ps[k] by {
                    if k > 0 {
                        assert(ps[k] == rest[k - 1]);
                    }
                }
            }
        }
    }
}

/// Decoded posting lists are sorted: document ids never decrease (and are at least
/// `last_doc`), and the positions of every entry never decrease.
pub proof fn lemma_decoded_sorted(s: Seq<u8>, i: int, last_doc: int)
    requires
        last_doc >= 0,
    ensures
        decode_postings_from(s, i, last_doc) matches Some(p) ==> (forall|k: int|
            0 <= k < p.len() ==> last_doc <= #[trigger] p[k].0) && (forall|a: int, b: int|
            0 <= a <= b < p.len() ==> p[a].0 <= p[b].0) && (forall|k: int|
            0 <= k < p.len() ==> is_nondecreasing(#[trigger] p[k].1)),
    decreases s.len() - i,
{
    if i < s.len() {
        if let Some((delta, j)) = varint_at(s, i) {
            let doc = last_doc + delta;
            if let Some((freq, k)) = varint_at(s, j) {
                if let Some((ps, e)) = decode_positions(s, k, freq as nat, 0) {
                    lemma_varint_at_advances(s, i);
                    lemma_varint_at_advances(s, j);
                    lemma_decode_positions_bounds(s, k, freq as nat, 0);
                    lemma_positions_sorted(s, k, freq as nat, 0);
                    lemma_decoded_sorted(s, e, doc);
                    if doc <= u32::MAX {
                        if let Some(p) = decode_postings_from(s, i, last_doc) {
                            let rest = decode_postings_from(s, e, doc).unwrap();
                            assert(p == seq![(doc as u32, ps)] + rest);
                            assert(p[0].0 == doc);
                            assert forall|x: int| 0 <= x < p.len() implies last_doc
                                <= #[trigger] p[x].0 by {
                                if x > 0 {
                                    assert(p[x] == rest[x - 1]);
                                }
                            }
                            assert forall|a: int, b: int| 0 <= a <= b < p.len() implies p[a].0
                                <= p[b].0 by {
                                if a > 0 {
                                    assert(p[a] == rest[a - 1] && p[b] == rest[b - 1]);
                                } else if b > 0 {
                                    assert(p[b] == rest[b - 1]);
                                }
                            }
                            assert forall|x: int| 0 <= x < p.len() implies is_nondecreasing(
                                #[trigger] p[x].1,
                            ) by {
                                if x > 0 {
                                    assert(p[x] == rest[x - 1]);
                                }
                            }
                        }
                    }
                }
            }
        }
    }
}

/// Every position of every entry is below `u32::MAX`.
pub open spec fn entries_below_max(p: Seq<(u32, Seq<u32>)>) -> bool {
    forall|k: int, j: int| 0 <= k < p.len() && 0 <= j < p[k].1.len() ==> #[trigger] p[k].1[j] < u32::MAX
}

/// A posting list that the search can use: it decodes.
pub open spec fn list_well_formed(s: Seq<u8>) -> bool {
    decoded_postings(s) is Some
}

/// The VByte group at `index`, if the decoder could read one there: its value and the
/// index just past it.
pub fn try_decode_varint(data: &[u8], index: usize) -> (r: Option<(u32, usize)>)
    ensures
        varint_at(data@, index as int) is Some <==> r is Some,
        r matches Some((v, next)) ==> varint_at(data@, index as int) == Some((v as int, next as int)),
{
    let ghost start = index as int;
    let mut i = index;
    let mut k: usize = 0;
    while i < data.len() && k < 5
        invariant
            start == index as int,
            index <= i,
            i as int == start + k,
            k <= 5,
            varint_len(data@, start) is Some <==> varint_len(data@, i as int) is Some,
            varint_len(data@, i as int) matches Some(n) ==> varint_len(data@, start) == Some(
                (n + k) as nat,
            ),
        decreases data.len() - i,
    {
        let byte = data[i];
        if byte < 128 {
            proof {
                assert(data@[i as int] < 128);
                assert(varint_len(data@, i as int) == Some(1nat));
                assert(varint_len(data@, start) == Some((1 + k) as nat));
                assert(1 + k <= 5);
                assert(varint_at(data@, start) is Some);
            }
            let mut index_copy = index;
            let v = decode_varint(data, &mut index_copy);
            return Some((v, index_copy));
        }
        assert(varint_len(data@, i as int) is Some <==> varint_len(data@, i + 1) is Some);
        i += 1;
        k += 1;
    }
    proof {
        if i >= data.len() {
            assert(varint_len(data@, i as int) is None);
        } else {
            if let Some(n) = varint_len(data@, i as int) {
                lemma_varint_len_bounds(data@, i as int);
                assert(varint_len(data@, start) == Some(n + 5));
            }
        }
    }
    None
}

/// Whether `data` is a posting list that the search can use: it decodes without
/// failure.
pub fn posting_list_well_formed(data: &[u8]) -> (ok: bool)
    ensures
        ok == list_well_formed(data@),
{
    let mut index: usize = 0;
    let mut last_doc_id: u32 = 0;
    let ghost mut done: Seq<(u32, Seq<u32>)> = seq![];
    while index < data.len()
        invariant
            decoded_postings(data@) == match decode_postings_from(
                data@,
                index as int,
                last_doc_id as int,
            ) {
                Some(rest) => Some(done + rest),
                None => None,
            },
        decreases data.len() - index,
    {
        let ghost i0 = index as int;
        proof {
            lemma_varint_at_advances(data@, i0);
        }
        let (doc_delta, j) = match try_decode_varint(data, index) {
            Some(r) => r,
            None => {
                return false;
            },
        };
        proof {
            lemma_varint_at_advances(data@, j as int);
        }
        let doc_id = match last_doc_id.checked_add(doc_delta) {
            Some(d) => d,
            None => {
                return false;
            },
        };
        let (freq, k0) = match try_decode_varint(data, j) {
            Some(r) => r,
            None => {
                return false;
            },
        };
        assert(i0 < data@.len());
        assert(decode_postings_from(data@, i0, last_doc_id as int) == match decode_positions(
            data@,
            k0 as int,
            freq as nat,
            0,
        ) {
            None => None,
            Some((all, e)) => match decode_postings_from(data@, e, doc_id as int) {
                None => None,
                Some(r2) => Some(seq![(doc_id, all)] + r2),
            },
        });
        let mut at = k0;
        let mut last_pos: u32 = 0;
        let mut c: u32 = 0;
        let ghost mut ps: Seq<u32> = seq![];
        while c < freq
            invariant
                c <= freq,
                k0 <= at,
                ps.len() == c,
                decoded_postings(data@) == match decode_postings_from(
                    data@,
                    i0,
                    last_doc_id as int,
                ) {
                    Some(rest) => Some(done + rest),
                    None => None,
                },
                decode_postings_from(data@, i0, last_doc_id as int) == match decode_positions(
                    data@,
                    k0 as int,
                    freq as nat,
                    0,
                ) {
                    None => None,
                    Some((all, e)) => match decode_postings_from(data@, e, doc_id as int) {
                        None => None,
                        Some(r2) => Some(seq![(doc_id, all)] + r2),
                    },
                },
                decode_positions(data@, k0 as int, freq as nat, 0) == match decode_positions(
                    data@,
                    at as int,
                    (freq - c) as nat,
                    last_pos as int,
                ) {
                    Some((tail, e)) => Some((ps + tail, e)),
                    None => None,
                },
            decreases freq - c,
        {
            proof {
                lemma_varint_at_advances(data@, at as int);
            }
            let (pos_delta, next) = match try_decode_varint(data, at) {
                Some(r) => r,
                None => {
                    return false;
                },
            };

            let pos = match last_pos.checked_add(pos_delta) {
                Some(p) => p,
                None => {
                    return false;
                },
            };
            let ghost tail = decode_positions(data@, next as int, (freq - c - 1) as nat, pos as int);
            proof {
                if let Some((t, e)) = tail {
                    assert(ps + (seq![pos] + t) =~= ps.push(pos) + t);
                }
                ps = ps.push(pos);
            }
            at = next;
            last_pos = pos;
            c += 1;
        }
        let ghost (all, e) = decode_positions(data@, k0 as int, freq as nat, 0).unwrap();
        assert(ps + seq![] =~= ps);
        assert(all == ps);
        proof {
            lemma_decode_positions_bounds(data@, k0 as int, freq as nat, 0);
            let entry = (doc_id, ps);
            match decode_postings_from(data@, at as int, doc_id as int) {
                Some(rest) => {
                    assert(done + (seq![entry] + rest) =~= done.push(entry) + rest);
                },
                None => {},
            }
            done = done.push(entry);
        }
        index = at;
        last_doc_id = doc_id;
    }
    assert(done + seq![] =~= done);
    true
}

proof fn lemma_varint_len_offset(a: Seq<u8>, b: Seq<u8>, i: int)
    requires
        0 <= i,
    ensures
        varint_len(a + b, a.len() + i) == varint_len(b, i),
    decreases b.len() - i,
{
    if i < b.len() {
        assert((a + b)[a.len() + i] == b[i]);
        if b[i] >= 128 {
            lemma_varint_len_offset(a, b, i + 1);
            assert(a.len() + i + 1 == a.len() + (i + 1));
        }
    }
}

proof fn lemma_varint_sum_offset(a: Seq<u8>, b: Seq<u8>, i: int, n: nat)
    requires
        0 <= i,
        i + n <= b.len(),
    ensures
        varint_sum(a + b, a.len() + i, n) == varint_sum(b, i, n),
    decreases n,
{
    if n > 0 {
        assert((a + b)[a.len() + i] == b[i]);
        lemma_varint_sum_offset(a, b, i + 1, (n - 1) as nat);
        assert(a.len() + i + 1 == a.len() + (i + 1));
    }
}

/// A VByte group of `b` reads the same after bytes put in front of `b`.
proof fn lemma_varint_at_offset(a: Seq<u8>, b: Seq<u8>, i: int)
    requires
        0 <= i,
    ensures
        varint_at(a + b, a.len() + i) == match varint_at(b, i) {
            Some((v, next)) => Some((v, next + a.len())),
            None => None,
        },
{
    lemma_varint_len_offset(a, b, i);
    lemma_varint_len_bounds(b, i);
    if let Some(n) = varint_len(b, i) {
        lemma_varint_sum_offset(a, b, i, n);
    }
}

proof fn lemma_varint_len_prefix(a: Seq<u8>, b: Seq<u8>, i: int)
    requires
        varint_len(a, i) is Some,
    ensures
        varint_len(a + b, i) == varint_len(a, i),
    decreases a.len() - i,
{
    lemma_varint_len_bounds(a, i);
    assert((a + b)[i] == a[i]);
    if a[i] >= 128 {
        lemma_varint_len_prefix(a, b, i + 1);
    }
}

proof fn lemma_varint_sum_prefix(a: Seq<u8>, b: Seq<u8>, i: int, n: nat)
    requires
        0 <= i,
        i + n <= a.len(),
    ensures
        varint_sum(a + b, i, n) == varint_sum(a, i, n),
    decreases n,
{
    if n > 0 {
        assert((a + b)[i] == a[i]);
        lemma_varint_sum_prefix(a, b, i + 1, (n - 1) as nat);
    }
}

/// A VByte group that ends inside `a` reads the same when bytes follow `a`.
proof fn lemma_varint_at_prefix(a: Seq<u8>, b: Seq<u8>, i: int)
    requires
        varint_at(a, i) is Some,
    ensures
        varint_at(a + b, i) == varint_at(a, i),
{
    lemma_varint_len_bounds(a, i);
    lemma_varint_len_prefix(a, b, i);
    let n = varint_len(a, i).unwrap();
    lemma_varint_sum_prefix(a, b, i, n);
}

proof fn lemma_positions_offset(a: Seq<u8>, b: Seq<u8>, i: int, count: nat, last: int)
    requires
        0 <= i,
    ensures
        decode_positions(a + b, a.len() + i, count, last) == match decode_positions(
            b,
            i,
            count,
            last,
        ) {
            Some((ps, e)) => Some((ps, e + a.len())),
            None => None,
        },
    decreases count,
{
    if count > 0 {
        lemma_varint_at_offset(a, b, i);
        lemma_varint_at_advances(b, i);
        if let Some((delta, next)) = varint_at(b, i) {
            lemma_positions_offset(a, b, next, (count - 1) as nat, last + delta);
            assert(next + a.len() == a.len() + next);
        }
    }
}

proof fn lemma_positions_prefix(a: Seq<u8>, b: Seq<u8>, i: int, count: nat, last: int)
    requires
        decode_positions(a, i, count, last) is Some,
    ensures
        decode_positions(a + b, i, count, last) == decode_positions(a, i, count, last),
    decreases count,
{
    if count > 0 {
        lemma_varint_at_prefix(a, b, i);
        let (delta, next) = varint_at(a, i).unwrap();
        lemma_positions_prefix(a, b, next, (count - 1) as nat, last + delta);
    }
}

/// A posting list of `b` read from byte `i` reads the same after bytes put in front of `b`.
proof fn lemma_postings_offset(a: Seq<u8>, b: Seq<u8>, i: int, last: int)
    requires
        0 <= i,
    ensures
        decode_postings_from(a + b, a.len() + i, last) == decode_postings_from(b, i, last),
    decreases b.len() - i,
{
    if i < b.len() {
        lemma_varint_at_offset(a, b, i);
        lemma_varint_at_advances(b, i);
        if let Some((delta, j)) = varint_at(b, i) {
            lemma_varint_at_offset(a, b, j);
            lemma_varint_at_advances(b, j);
            if let Some((freq, k)) = varint_at(b, j) {
                lemma_positions_offset(a, b, k, freq as nat, 0);
                lemma_decode_positions_bounds(b, k, freq as nat, 0);
                if let Some((ps, e)) = decode_positions(b, k, freq as nat, 0) {
                    lemma_postings_offset(a, b, e, last + delta);
                    assert(j + a.len() == a.len() + j);
                    assert(k + a.len() == a.len() + k);
                    assert(e + a.len() == a.len() + e);
                }
            }
        }
    }
}

/// The document id that delta coding continues from after `p`: its last id, or
/// `last` when `p` is empty.
pub open spec fn last_doc_of(p: Seq<(u32, Seq<u32>)>, last: int) -> int {
    if p.len() == 0 {
        last
    } else {
        p.last().0 as int
    }
}

/// One step of reading a posting list: the entry at `i`, then the rest.
proof fn lemma_postings_unfold(s: Seq<u8>, i: int, last: int)
    requires
        0 <= i < s.len(),
        varint_at(s, i) is Some,
        last + varint_at(s, i).unwrap().0 <= u32::MAX,
        varint_at(s, varint_at(s, i).unwrap().1) is Some,
        decode_positions(
            s,
            varint_at(s, varint_at(s, i).unwrap().1).unwrap().1,
            varint_at(s, varint_at(s, i).unwrap().1).unwrap().0 as nat,
            0,
        ) is Some,
    ensures
        ({
            let (delta, j) = varint_at(s, i).unwrap();
            let (freq, k) = varint_at(s, j).unwrap();
            let (ps, e) = decode_positions(s, k, freq as nat, 0).unwrap();
            decode_postings_from(s, i, last) == match decode_postings_from(s, e, last + delta) {
                Some(r) => Some(seq![((last + delta) as u32, ps)] + r),
                None => None,
            }
        }),
{
}

/// Reading a posting list of `a` from byte `i` and then going on into `b`: what `a`
/// gives, then what follows from the end of `a`.
#[verifier::rlimit(60)]
proof fn lemma_postings_prefix(a: Seq<u8>, b: Seq<u8>, i: int, last: int)
    requires
        0 <= i <= a.len(),
        0 <= last,
        decode_postings_from(a, i, last) is Some,
    ensures
        decode_postings_from(a + b, i, last) == match decode_postings_from(
            a + b,
            a.len() as int,
            last_doc_of(decode_postings_from(a, i, last).unwrap(), last),
        ) {
            Some(r) => Some(decode_postings_from(a, i, last).unwrap() + r),
            None => None,
        },
    decreases a.len() - i,
{
    let ab = a + b;
    let p = decode_postings_from(a, i, last).unwrap();
    if i >= a.len() {
        assert(p =~= Seq::<(u32, Seq<u32>)>::empty());
        if let Some(r) = decode_postings_from(ab, a.len() as int, last) {
            assert(p + r =~= r);
        }
    } else {
        lemma_varint_at_advances(a, i);
        let (delta, j) = varint_at(a, i).unwrap();
        lemma_varint_at_advances(a, j);
        let (freq, k) = varint_at(a, j).unwrap();
        lemma_decode_positions_bounds(a, k, freq as nat, 0);
        let (ps, e) = decode_positions(a, k, freq as nat, 0).unwrap();
        let doc = last + delta;
        lemma_postings_unfold(a, i, last);
        let rest = decode_postings_from(a, e, doc).unwrap();
        assert(p == seq![(doc as u32, ps)] + rest);
        lemma_varint_at_prefix(a, b, i);
        lemma_varint_at_prefix(a, b, j);
        lemma_positions_prefix(a, b, k, freq as nat, 0);
        assert(i < ab.len());
        lemma_postings_unfold(ab, i, last);
        lemma_postings_prefix(a, b, e, doc);
        let tail_last = last_doc_of(rest, doc);
        assert(0 <= doc <= u32::MAX);
        assert(last_doc_of(p, last) == tail_last) by {
            if rest.len() > 0 {
                assert(p.last() == rest.last());
            } else {
                assert(p.last() == (doc as u32, ps));
            }
        }
        if let Some(r) = decode_postings_from(ab, a.len() as int, tail_last) {
            assert(seq![(doc as u32, ps)] + (rest + r) =~= p + r);
        }
    }
}

/// `p` with `shift` added to every document id.
pub open spec fn shift_docs(p: Seq<(u32, Seq<u32>)>, shift: int) -> Seq<(u32, Seq<u32>)> {
    p.map_values(|e: (u32, Seq<u32>)| ((e.0 + shift) as u32, e.1))
}

/// Starting the document ids from `last + shift` in place of `last` adds `shift` to
/// every id read, as long as the ids stay within `u32`.
proof fn lemma_postings_shift(b: Seq<u8>, i: int, last: int, shift: int)
    requires
        0 <= last,
        0 <= shift,
        decode_postings_from(b, i, last) matches Some(p) && forall|k: int|
            0 <= k < p.len() ==> #[trigger] p[k].0 + shift <= u32::MAX,
    ensures
        decode_postings_from(b, i, last + shift) == Some(
            shift_docs(decode_postings_from(b, i, last).unwrap(), shift),
        ),
    decreases b.len() - i,
{
    let p = decode_postings_from(b, i, last).unwrap();
    if i >= b.len() {
        assert(shift_docs(p, shift) =~= p);
    } else {
        lemma_varint_at_advances(b, i);
        let (delta, j) = varint_at(b, i).unwrap();
        lemma_varint_at_advances(b, j);
        let (freq, k) = varint_at(b, j).unwrap();
        lemma_decode_positions_bounds(b, k, freq as nat, 0);
        let (ps, e) = decode_positions(b, k, freq as nat, 0).unwrap();
        let doc = last + delta;
        let rest = decode_postings_from(b, e, doc).unwrap();
        assert(p == seq![(doc as u32, ps)] + rest);
        assert(p[0].0 == doc);
        assert(doc + shift <= u32::MAX);
        assert forall|x: int| 0 <= x < rest.len() implies #[trigger] rest[x].0 + shift <= u32::MAX by {
            assert(p[x + 1] == rest[x]);
        }
        lemma_postings_shift(b, e, doc, shift);
        assert(last + shift + delta == doc + shift);
        assert(shift_docs(p, shift) =~= seq![((doc + shift) as u32, ps)] + shift_docs(rest, shift));
    }
}

/// Decoding two encodings written one after the other: the first's postings, then the
/// second's with the first's last document id added to every id (delta coding runs on
/// across the seam), when the sums stay within `u32`.
pub proof fn lemma_decode_concatenation(d1: Seq<u8>, d2: Seq<u8>)
    requires
        decoded_postings(d1) is Some,
        decoded_postings(d2) matches Some(p2) && forall|k: int|
            0 <= k < p2.len() ==> #[trigger] p2[k].0 + last_doc_of(decoded_postings(d1).unwrap(), 0)
                <= u32::MAX,
    ensures
        decoded_postings(d1 + d2) == Some(
            decoded_postings(d1).unwrap() + shift_docs(
                decoded_postings(d2).unwrap(),
                last_doc_of(decoded_postings(d1).unwrap(), 0),
            ),
        ),
{
    let p1 = decoded_postings(d1).unwrap();
    let shift = last_doc_of(p1, 0);
    lemma_postings_prefix(d1, d2, 0, 0);
    lemma_postings_offset(d1, d2, 0, shift);
    assert(d1.len() + 0 == d1.len());
    lemma_postings_shift(d2, 0, 0, shift);
    assert(0 + shift == shift);
}

} // verus!

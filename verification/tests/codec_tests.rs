use simple_wiki_search::codec::{
    decode_posting_list, decode_varint, encode_posting_list, encode_varint_into,
    posting_list_well_formed, try_decode_varint, Posting,
};

fn posting(doc_id: u32, positions: &[u32]) -> Posting {
    Posting { doc_id, positions: positions.to_vec() }
}

fn view(p: &[Posting]) -> Vec<(u32, Vec<u32>)> {
    p.iter().map(|e| (e.doc_id, e.positions.clone())).collect()
}

#[test]
fn small_values_take_one_byte() {
    let mut out = Vec::new();
    encode_varint_into(127, &mut out);
    assert_eq!(out, vec![127]);
    let mut out = Vec::new();
    encode_varint_into(128, &mut out);
    assert_eq!(out, vec![0x80, 0x01]);
    let mut out = Vec::new();
    encode_varint_into(u32::MAX, &mut out);
    assert_eq!(out, vec![0xff, 0xff, 0xff, 0xff, 0x0f]);
}

#[test]
fn decode_varint_reads_groups() {
    let data = [0x05u8, 0xac, 0x02, 0xff, 0xff, 0xff, 0xff, 0x0f];
    let mut index = 0;
    assert_eq!(decode_varint(&data, &mut index), 5);
    assert_eq!(index, 1);
    assert_eq!(decode_varint(&data, &mut index), 300);
    assert_eq!(index, 3);
    assert_eq!(decode_varint(&data, &mut index), u32::MAX);
    assert_eq!(index, 8);
}

#[test]
fn decode_varint_keeps_low_32_bits_of_a_fifth_byte() {
    // 0x7f in the fifth group contributes only its low four bits.
    let data = [0x80u8, 0x80, 0x80, 0x80, 0x7f];
    let mut index = 0;
    assert_eq!(decode_varint(&data, &mut index), 0xf000_0000);
}

#[test]
fn try_decode_varint_rejects_what_the_decoder_cannot_read() {
    assert_eq!(try_decode_varint(&[0x80, 0x80], 0), None);
    assert_eq!(try_decode_varint(&[0x80, 0x80, 0x80, 0x80, 0x80, 0x01], 0), None);
    assert_eq!(try_decode_varint(&[0x01], 1), None);
    assert_eq!(try_decode_varint(&[0x09, 0x81, 0x01], 1), Some((129, 3)));
}

#[test]
fn decode_posting_list_applies_deltas() {
    // doc 3: positions [1, 5]; doc 10: positions [0]
    let data = [3u8, 2, 1, 4, 7, 1, 0];
    let postings = decode_posting_list(&data);
    assert_eq!(view(&postings), vec![(3, vec![1, 5]), (10, vec![0])]);
    assert!(decode_posting_list(&[]).is_empty());
}

#[test]
fn encode_then_decode_gives_back_the_list() {
    let list = vec![posting(0, &[]), posting(7, &[0, 0, 200, 70000]), posting(7, &[3]), posting(u32::MAX, &[u32::MAX])];
    let data = encode_posting_list(&list);
    assert_eq!(view(&decode_posting_list(&data)), view(&list));
}

#[test]
fn encoded_list_layout() {
    let list = vec![posting(3, &[1, 5]), posting(10, &[0])];
    assert_eq!(encode_posting_list(&list), vec![3u8, 2, 1, 4, 7, 1, 0]);
}

#[test]
fn well_formedness_check() {
    assert!(posting_list_well_formed(&[3, 2, 1, 4, 7, 1, 0]));
    assert!(posting_list_well_formed(&[]));
    // Truncated: two positions announced, one present.
    assert!(!posting_list_well_formed(&[3, 2, 1]));
    // Document id overflows u32.
    assert!(!posting_list_well_formed(&[0xff, 0xff, 0xff, 0xff, 0x0f, 0, 1, 0]));
    // A position equal to u32::MAX decodes.
    assert!(posting_list_well_formed(&[1, 1, 0xff, 0xff, 0xff, 0xff, 0x0f]));
    // A position beyond u32::MAX (two deltas summing past it) does not.
    assert!(!posting_list_well_formed(&[1, 2, 0xff, 0xff, 0xff, 0xff, 0x0f, 1]));
    // A varint longer than five bytes.
    assert!(!posting_list_well_formed(&[0x80, 0x80, 0x80, 0x80, 0x80, 0x00, 0]));
}

#[test]
fn varint_lengths_follow_seven_bit_groups() {
    for (v, len) in [(0u32, 1usize), (127, 1), (128, 2), (16383, 2), (16384, 3), (2097151, 3),
        (2097152, 4), (268435455, 4), (268435456, 5), (u32::MAX, 5)] {
        let mut out = vec![9u8, 9];
        encode_varint_into(v, &mut out);
        out.push(7);
        assert_eq!(out.len(), len + 3);
        let mut index = 2;
        assert_eq!(decode_varint(&out, &mut index), v);
        assert_eq!(index, 2 + len);
    }
}

#[test]
fn decoding_joined_encodings_continues_the_ids() {
    let first = encode_posting_list(&vec![posting(2, &[0]), posting(5, &[1, 3])]);
    let second = encode_posting_list(&vec![posting(1, &[4]), posting(3, &[])]);
    let mut joined = first.clone();
    joined.extend_from_slice(&second);
    assert_eq!(
        view(&decode_posting_list(&joined)),
        vec![(2, vec![0]), (5, vec![1, 3]), (6, vec![4]), (8, vec![])]
    );
}

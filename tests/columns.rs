use columnar::bytes_column::{open_column_bytes, serialize_column_bytes};
use columnar::codec::{open_u64_based_column_values, serialize_u64_based_column_values, CodecType};
use columnar::dictionary::Dictionary;
use columnar::error::ColumnarError;
use columnar::index::{open_column_index, Cardinality, ColumnIndex};
use columnar::le::{read_u32, write_u32};
use columnar::mapping::{MonotonicallyMappableToU128, MonotonicallyMappableToU64};
use columnar::serialize::{
    open_column_mapped_u64, open_column_u128, open_column_u64, serialize_column_mappable_to_u128,
    serialize_column_mappable_to_u64,
};

fn u64_blob(idx: &ColumnIndex, vals: &[u64]) -> Vec<u8> {
    let mut out = Vec::new();
    serialize_column_mappable_to_u64(idx, vals, &mut out);
    out
}

fn index_len(idx: &ColumnIndex) -> usize {
    let mut out = Vec::new();
    idx.serialize(&mut out)
}

fn values_segment(vals: &[u64]) -> (CodecType, Vec<u8>) {
    let mut out = Vec::new();
    let c = serialize_u64_based_column_values(vals, &mut out);
    (c, out)
}

fn terms(words: &[&str]) -> Vec<Vec<u8>> {
    words.iter().map(|w| w.as_bytes().to_vec()).collect()
}

#[test]
fn constant_values_are_bitpacked_at_zero_width() {
    let vals = [3u64, 3, 3, 3];
    let (codec, seg) = values_segment(&vals);
    assert_eq!(codec, CodecType::Bitpacked);
    // tag, count, intercept, slope, then the width
    assert_eq!(seg[0], 0);
    assert_eq!(seg[21], 0);
    assert_eq!(seg.len(), 22);
    let col = open_column_u64(&u64_blob(&ColumnIndex::full(4), &vals)).unwrap();
    for doc in 0..4 {
        assert_eq!(col.values_for_doc(doc), vec![3]);
    }
}

#[test]
fn linear_values_choose_blockwise_linear() {
    let vals = [0u64, 1_000_000, 2_000_000, 3_000_000];
    let (codec, seg) = values_segment(&vals);
    assert_eq!(codec, CodecType::BlockwiseLinear);
    assert_eq!(seg[0], 1);
    assert_eq!(seg[21], 0);
    let col = open_column_u64(&u64_blob(&ColumnIndex::full(4), &vals)).unwrap();
    assert_eq!(col.values, vals.to_vec());
    assert_eq!(col.get_val(2), 2_000_000);
}

#[test]
fn bytes_column_resolves_terms() {
    let dict = Dictionary::from_sorted_terms(terms(&["apple", "banana", "cherry"])).unwrap();
    let ords = [0u64, 1, 0, 2];
    let mut blob = Vec::new();
    serialize_column_bytes(&dict, &ColumnIndex::full(4), &ords, &mut blob);
    let col = open_column_bytes(&blob).unwrap();
    assert_eq!(col.num_terms(), 3);
    assert_eq!(col.num_docs(), 4);
    let got: Vec<u64> = (0..4).flat_map(|d| col.term_ords(d)).collect();
    assert_eq!(got, vec![0, 1, 0, 2]);
    assert_eq!(col.first_term(2).unwrap().as_slice(), b"apple");
    assert_eq!(col.ord_to_term(2).as_slice(), b"cherry");
}

#[test]
fn truncated_blob_is_a_structural_error() {
    let blob = u64_blob(&ColumnIndex::full(4), &[1, 2, 3, 4]);
    let short = &blob[..2];
    assert!(matches!(open_column_u64(short), Err(ColumnarError::Truncated)));
    assert!(matches!(open_column_u128(short), Err(ColumnarError::Truncated)));
    assert!(matches!(open_column_bytes(short), Err(ColumnarError::Truncated)));
}

#[test]
fn footer_holds_index_length() {
    let idx = ColumnIndex::from_offsets(Cardinality::Multivalued, vec![0, 2, 2, 5]).unwrap();
    let vals = [10u64, 20, 30, 40, 50];
    let blob = u64_blob(&idx, &vals);
    let n = blob.len();
    let footer = read_u32(&blob, n - 4) as usize;
    assert_eq!(footer, index_len(&idx));
    assert_eq!(footer, 1 + 4 + 4 * 4);
    let (_, seg) = values_segment(&vals);
    assert_eq!(n, footer + seg.len() + 4);
}

#[test]
fn serializing_twice_gives_identical_bytes() {
    let vals: Vec<u64> = (0..300u64).map(|i| i * i % 977).collect();
    let idx = ColumnIndex::full(300);
    assert_eq!(u64_blob(&idx, &vals), u64_blob(&idx, &vals));
    assert_eq!(values_segment(&vals).0, values_segment(&vals).0);
}

#[test]
fn bitpacked_handles_empty_constant_and_full_range() {
    for vals in [vec![], vec![7u64; 10], vec![0u64, u64::MAX, 5, u64::MAX - 1]] {
        let n = vals.len() as u32;
        let col = open_column_u64(&u64_blob(&ColumnIndex::full(n), &vals)).unwrap();
        assert_eq!(col.values, vals);
    }
    let (codec, _) = values_segment(&[7u64; 10]);
    assert_eq!(codec, CodecType::Bitpacked);
}

#[test]
fn out_of_range_ordinal_fails_open() {
    let dict = Dictionary::from_sorted_terms(terms(&["apple", "banana", "cherry"])).unwrap();
    let mut blob = Vec::new();
    serialize_column_bytes(&dict, &ColumnIndex::full(2), &[0, 5], &mut blob);
    assert!(matches!(open_column_bytes(&blob), Err(ColumnarError::OrdinalOutOfRange)));
}

#[test]
fn optional_index_round_trips() {
    let idx = ColumnIndex::from_offsets(Cardinality::Optional, vec![0, 1, 1, 2, 2]).unwrap();
    let col = open_column_u64(&u64_blob(&idx, &[42, 43])).unwrap();
    assert_eq!(col.idx.kind, Cardinality::Optional);
    assert_eq!(col.num_docs(), 4);
    assert_eq!(col.first(0), Some(42));
    assert_eq!(col.first(1), None);
    assert_eq!(col.first(2), Some(43));
    assert_eq!(col.values_for_doc(3), Vec::<u64>::new());
}

#[test]
fn multivalued_index_round_trips() {
    let idx = ColumnIndex::from_offsets(Cardinality::Multivalued, vec![0, 3, 3, 4]).unwrap();
    let col = open_column_u64(&u64_blob(&idx, &[5, 6, 7, 8])).unwrap();
    assert_eq!(col.idx.kind, Cardinality::Multivalued);
    assert_eq!(col.values_for_doc(0), vec![5, 6, 7]);
    assert_eq!(col.values_for_doc(1), Vec::<u64>::new());
    assert_eq!(col.values_for_doc(2), vec![8]);
    assert_eq!(col.idx.value_range(2), (3, 4));
}

#[test]
fn invalid_offsets_are_refused() {
    assert!(ColumnIndex::from_offsets(Cardinality::Optional, vec![0, 2]).is_none());
    assert!(ColumnIndex::from_offsets(Cardinality::Multivalued, vec![1, 2]).is_none());
    assert!(ColumnIndex::from_offsets(Cardinality::Multivalued, vec![0, 3, 2]).is_none());
    assert!(ColumnIndex::from_offsets(Cardinality::Full, vec![0]).is_none());
    assert!(ColumnIndex::from_offsets(Cardinality::Multivalued, vec![]).is_none());
}

#[test]
fn u128_column_round_trips() {
    let vals = [0u128, u128::MAX, 0xffff_0a00_0001, 1 << 100];
    let mut blob = Vec::new();
    serialize_column_mappable_to_u128(&ColumnIndex::full(4), &vals, 4, &mut blob);
    assert_eq!(blob.len(), 5 + 4 + 16 * 4 + 4);
    let col = open_column_u128(&blob).unwrap();
    assert_eq!(col.values, vals.to_vec());
    assert_eq!(col.values_for_doc(1), vec![u128::MAX]);
}

#[test]
fn many_blocks_of_noisy_values_round_trip() {
    let vals: Vec<u64> = (0..1000u64)
        .map(|i| 1_000_000_000u64.wrapping_sub(i * 3_000).wrapping_add((i * 7919) % 13))
        .collect();
    let (codec, seg) = values_segment(&vals);
    assert_eq!(codec, CodecType::BlockwiseLinear);
    assert_eq!(open_u64_based_column_values(&seg).unwrap(), vals);
    let col = open_column_u64(&u64_blob(&ColumnIndex::full(1000), &vals)).unwrap();
    assert_eq!(col.values, vals);
}

#[test]
fn wrapping_residuals_round_trip() {
    let vals = [u64::MAX, 0, u64::MAX, 1, 17, u64::MAX / 2];
    let (_, seg) = values_segment(&vals);
    assert_eq!(open_u64_based_column_values(&seg).unwrap(), vals.to_vec());
}

#[test]
fn unknown_codec_tag_is_named() {
    let (_, mut seg) = values_segment(&[1, 2, 3]);
    seg[0] = 9;
    assert_eq!(open_u64_based_column_values(&seg), Err(ColumnarError::UnknownCodec(9)));
}

#[test]
fn unknown_index_kind_is_named() {
    let mut seg = Vec::new();
    ColumnIndex::full(3).serialize(&mut seg);
    seg[0] = 7;
    assert!(matches!(open_column_index(&seg), Err(ColumnarError::UnknownIndexKind(7))));
}

#[test]
fn footer_past_the_body_is_refused() {
    let mut blob = u64_blob(&ColumnIndex::full(1), &[9]);
    let n = blob.len();
    blob[n - 4] = 0xff;
    assert!(matches!(open_column_u64(&blob), Err(ColumnarError::LengthOutOfBounds)));
}

#[test]
fn trailing_garbage_in_values_is_malformed() {
    let (_, mut seg) = values_segment(&[1, 2, 3]);
    seg.push(0);
    assert_eq!(open_u64_based_column_values(&seg), Err(ColumnarError::Malformed));
}

#[test]
fn unsorted_terms_make_no_dictionary() {
    assert!(Dictionary::from_sorted_terms(terms(&["banana", "apple"])).is_none());
    assert!(Dictionary::from_sorted_terms(terms(&["apple", "apple"])).is_none());
    assert!(Dictionary::from_sorted_terms(terms(&["", "a", "ab", "b"])).is_some());
}

#[test]
fn dictionary_round_trips_and_checks_order() {
    let dict = Dictionary::from_sorted_terms(terms(&["a", "bc"])).unwrap();
    let mut seg = Vec::new();
    let n = dict.serialize(&mut seg);
    assert_eq!(seg, vec![2, 0, 0, 0, 1, 0, 0, 0, b'a', 2, 0, 0, 0, b'b', b'c']);
    assert_eq!(n, seg.len());
    let back = Dictionary::from_bytes(&seg).unwrap();
    assert_eq!(back.terms, dict.terms);
    seg[8] = b'z';
    assert!(Dictionary::from_bytes(&seg).is_err());
}

#[test]
fn little_endian_words() {
    let mut out = Vec::new();
    write_u32(&mut out, 0x0403_0201);
    assert_eq!(out, vec![1, 2, 3, 4]);
    assert_eq!(read_u32(&out, 0), 0x0403_0201);
}

#[test]
fn signed_values_map_in_order() {
    assert_eq!(i64::MIN.to_u64(), 0);
    assert_eq!((-1i64).to_u64(), 0x7fff_ffff_ffff_ffff);
    assert_eq!(0i64.to_u64(), 0x8000_0000_0000_0000);
    assert_eq!(i64::MAX.to_u64(), u64::MAX);
    for v in [i64::MIN, -5, 0, 7, i64::MAX] {
        assert_eq!(<i64 as MonotonicallyMappableToU64>::from_u64(v.to_u64()), v);
    }
    assert_eq!(true.to_u64(), 1);
    assert!(!<bool as MonotonicallyMappableToU64>::from_u64(0));
}

#[test]
fn signed_column_round_trips_through_mapping() {
    let vals = [-3i64, 0, 12, i64::MIN];
    let mut blob = Vec::new();
    serialize_column_mappable_to_u64(&ColumnIndex::full(4), &vals, &mut blob);
    let col = open_column_u64(&blob).unwrap();
    let back: Vec<i64> = col.values.iter().map(|v| <i64 as MonotonicallyMappableToU64>::from_u64(*v)).collect();
    assert_eq!(back, vals.to_vec());
}

#[test]
fn narrow_values_widen_into_u128_columns() {
    assert_eq!(7u64.to_u128(), 7u128);
    let mut blob = Vec::new();
    serialize_column_mappable_to_u128(&ColumnIndex::full(2), &[1u64, u64::MAX], 2, &mut blob);
    let col = open_column_u128(&blob).unwrap();
    assert_eq!(col.values, vec![1u128, u64::MAX as u128]);
}

#[test]
fn residuals_are_packed_densely_in_bits() {
    let vals = [5u64, 6, 7, 5];
    let (codec, seg) = values_segment(&vals);
    assert_eq!(codec, CodecType::Bitpacked);
    // two bits per value: 0, 1, 2, 0 above the minimum, in one byte
    assert_eq!(seg[21], 2);
    assert_eq!(seg.len(), 23);
    assert_eq!(seg[22], 0b0010_0100);
    assert_eq!(open_u64_based_column_values(&seg).unwrap(), vals.to_vec());
}

#[test]
fn odd_widths_straddle_byte_boundaries() {
    let vals: Vec<u64> = (0..37u64).map(|i| (i * 5) % 7).collect();
    let (codec, seg) = values_segment(&vals);
    assert_eq!(codec, CodecType::Bitpacked);
    assert_eq!(seg[21], 3);
    assert_eq!(seg.len(), 22 + (37 * 3 + 7) / 8);
    assert_eq!(open_u64_based_column_values(&seg).unwrap(), vals);
}

#[test]
fn extra_values_past_the_index_still_open() {
    let blob = u64_blob(&ColumnIndex::full(1), &[4, 9]);
    let col = open_column_u64(&blob).unwrap();
    assert_eq!(col.num_vals(), 2);
    assert_eq!(col.values_for_doc(0), vec![4]);
    let mut wide = Vec::new();
    serialize_column_mappable_to_u128(&ColumnIndex::full(1), &[4u128, 9], 2, &mut wide);
    let col = open_column_u128(&wide).unwrap();
    assert_eq!(col.values, vec![4u128, 9]);
}

#[test]
fn index_past_the_values_is_malformed() {
    let blob = u64_blob(&ColumnIndex::full(3), &[4, 9]);
    assert!(matches!(open_column_u64(&blob), Err(ColumnarError::Malformed)));
}

#[test]
fn segment_errors_come_back_named() {
    let idx = ColumnIndex::full(3);
    let mut blob = u64_blob(&idx, &[1, 2, 3]);
    let at = index_len(&idx);
    blob[at] = 9;
    assert!(matches!(open_column_u64(&blob), Err(ColumnarError::UnknownCodec(9))));
    let mut blob = u64_blob(&idx, &[1, 2, 3]);
    blob[0] = 5;
    assert!(matches!(open_column_u64(&blob), Err(ColumnarError::UnknownIndexKind(5))));

    let dict = Dictionary::from_sorted_terms(terms(&["a", "b"])).unwrap();
    let mut bytes_blob = Vec::new();
    serialize_column_bytes(&dict, &ColumnIndex::full(2), &[0, 1], &mut bytes_blob);
    let mut dict_seg = Vec::new();
    let dict_len = dict.serialize(&mut dict_seg);
    bytes_blob[dict_len] = 6;
    assert!(matches!(open_column_bytes(&bytes_blob), Err(ColumnarError::UnknownIndexKind(6))));
}

#[test]
fn typed_open_maps_values_back() {
    let vals = [-3i64, 0, 12, i64::MIN];
    let mut blob = Vec::new();
    serialize_column_mappable_to_u64(&ColumnIndex::full(4), &vals, &mut blob);
    let col = open_column_mapped_u64::<i64>(&blob).unwrap();
    assert_eq!(col.values, vals.to_vec());
    assert_eq!(col.first(3), Some(i64::MIN));

    let mut flags = Vec::new();
    serialize_column_mappable_to_u64(&ColumnIndex::full(3), &[true, false, true], &mut flags);
    let col = open_column_mapped_u64::<bool>(&flags).unwrap();
    assert_eq!(col.values, vec![true, false, true]);

    let not_flags = u64_blob(&ColumnIndex::full(2), &[1, 2]);
    assert!(matches!(open_column_mapped_u64::<bool>(&not_flags), Err(ColumnarError::Malformed)));
}

#[test]
fn image_of_the_mappings() {
    assert!(<bool as MonotonicallyMappableToU64>::in_image(1));
    assert!(!<bool as MonotonicallyMappableToU64>::in_image(2));
    assert!(<i64 as MonotonicallyMappableToU64>::in_image(u64::MAX));
}

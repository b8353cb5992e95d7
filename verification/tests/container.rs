use fontpatch::bytes::{read_u16, read_u32};
use fontpatch::checksum::table_checksum;
use fontpatch::codec::{loc_format, location_index, GlyphCount, LocationIndex, Metrics};
use fontpatch::directory::{is_compressed, parse, Container, FormatError};
use fontpatch::patch::{patch_weight_class, PatchError, TAG_METRICS};
use fontpatch::rebuild::{check_rebuilt, rebuild, BuildError, TableData, TAG_GLYF, TAG_HEAD, TAG_LOCA};

const TAG_MAXP: u32 = 0x6D61_7870;
const TAG_NAME: u32 = 0x6E61_6D65;

fn push32(out: &mut Vec<u8>, v: u32) {
    out.extend_from_slice(&v.to_be_bytes());
}

fn container_bytes(magic: u32, tables: &[(u32, Vec<u8>)]) -> Vec<u8> {
    let mut out = Vec::new();
    push32(&mut out, magic);
    out.extend_from_slice(&(tables.len() as u16).to_be_bytes());
    out.extend_from_slice(&[0, 0, 0, 0, 0, 0]);
    let mut offset = 12 + 16 * tables.len();
    for (tag, data) in tables {
        push32(&mut out, *tag);
        push32(&mut out, table_checksum(data));
        push32(&mut out, offset as u32);
        push32(&mut out, data.len() as u32);
        offset += (data.len() + 3) / 4 * 4;
    }
    for (_, data) in tables {
        out.extend_from_slice(data);
        while out.len() % 4 != 0 {
            out.push(0);
        }
    }
    out
}

fn head_table() -> Vec<u8> {
    let mut head = vec![0u8; 54];
    head[0] = 0;
    head[1] = 1;
    head[12] = 0x5F;
    head[13] = 0x0F;
    head[14] = 0x3C;
    head[15] = 0xF5;
    head[19] = 0x40;
    head
}

fn metrics_table(weight: u16) -> Vec<u8> {
    let mut t = vec![0u8; 78];
    t[2] = 0xFF;
    t[3] = 0x38;
    t[4..6].copy_from_slice(&weight.to_be_bytes());
    t[7] = 5;
    for i in 8..78 {
        t[i] = (i * 3) as u8;
    }
    t
}

fn sample() -> Vec<u8> {
    container_bytes(
        0x0001_0000,
        &[
            (TAG_METRICS, metrics_table(400)),
            (TAG_HEAD, head_table()),
            (TAG_MAXP, vec![0, 0, 0x50, 0, 0, 4]),
            (TAG_NAME, vec![1, 2, 3, 4, 5]),
        ],
    )
}

fn parsed(bytes: &[u8]) -> Container {
    parse(bytes).expect("a container")
}

#[test]
fn checksum_of_whole_words() {
    assert_eq!(table_checksum(&[0, 0, 0, 1]), 1);
    assert_eq!(table_checksum(&[0, 0, 1, 0, 0, 0, 0, 5]), 0x105);
    assert_eq!(table_checksum(&[]), 0);
}

#[test]
fn checksum_pads_the_last_word_with_zero() {
    assert_eq!(table_checksum(&[1]), 0x0100_0000);
    assert_eq!(table_checksum(&[0, 0, 0, 1, 0, 2]), 0x0002_0001);
}

#[test]
fn checksum_wraps() {
    assert_eq!(table_checksum(&[0xFF, 0xFF, 0xFF, 0xFF, 0, 0, 0, 2]), 1);
}

#[test]
fn big_endian_reads() {
    let b = [0x12, 0x34, 0x56, 0x78, 0x9A];
    assert_eq!(read_u16(&b, 1), 0x3456);
    assert_eq!(read_u32(&b, 1), 0x3456_789A);
}

#[test]
fn parse_reads_every_entry() {
    let bytes = sample();
    let c = parsed(&bytes);
    assert_eq!(c.table_count(), 4);
    assert_eq!(c.version, 0x0001_0000);
    assert_eq!(c.entries[0].tag, TAG_METRICS);
    assert_eq!(c.entries[0].offset, 12 + 64);
    assert_eq!(c.entries[0].length, 78);
    assert_eq!(c.entries[1].offset, 12 + 64 + 80);
    assert_eq!(c.entries[3].data, vec![1, 2, 3, 4, 5]);
    assert_eq!(c.entries[3].checksum, 0x0102_0304 + 0x0500_0000);
}

#[test]
fn get_finds_by_tag() {
    let bytes = sample();
    let c = parsed(&bytes);
    assert_eq!(c.get(TAG_NAME), Some(&vec![1u8, 2, 3, 4, 5]));
    assert_eq!(c.get(TAG_MAXP), Some(&vec![0u8, 0, 0x50, 0, 0, 4]));
    assert_eq!(c.get(0x1234_5678), None);
    assert_eq!(c.position(TAG_HEAD), Some(1));
}

#[test]
fn parse_short_header_is_truncated() {
    assert_eq!(parse(&[0, 1, 0, 0, 0]).unwrap_err(), FormatError::Truncated);
    assert_eq!(parse(&[]).unwrap_err(), FormatError::Truncated);
}

#[test]
fn parse_unknown_magic_is_malformed() {
    let mut bytes = sample();
    bytes[0] = 0x77;
    assert_eq!(parse(&bytes).unwrap_err(), FormatError::Malformed);
}

#[test]
fn parse_accepts_the_three_version_tags() {
    for magic in [0x0001_0000u32, 0x4F54_544F, 0x7472_7565] {
        let bytes = container_bytes(magic, &[(TAG_NAME, vec![9])]);
        assert_eq!(parsed(&bytes).version, magic);
    }
}

#[test]
fn parse_short_directory_is_truncated() {
    let bytes = sample();
    assert_eq!(parse(&bytes[..40]).unwrap_err(), FormatError::Truncated);
}

#[test]
fn parse_data_cut_off_is_truncated() {
    let bytes = sample();
    let cut = bytes.len() - 8;
    assert_eq!(parse(&bytes[..cut]).unwrap_err(), FormatError::Truncated);
}

#[test]
fn parse_offset_past_the_end_is_malformed() {
    let mut bytes = container_bytes(0x0001_0000, &[(TAG_NAME, vec![1, 2, 3, 4])]);
    bytes[20..24].copy_from_slice(&1000u32.to_be_bytes());
    assert_eq!(parse(&bytes).unwrap_err(), FormatError::Malformed);
}

#[test]
fn parse_duplicate_tag() {
    let bytes = container_bytes(0x0001_0000, &[(TAG_NAME, vec![1]), (TAG_MAXP, vec![2]), (TAG_NAME, vec![3])]);
    assert_eq!(parse(&bytes).unwrap_err(), FormatError::DuplicateTag);
}

#[test]
fn parse_empty_directory() {
    let bytes = container_bytes(0x0001_0000, &[]);
    assert_eq!(parsed(&bytes).table_count(), 0);
}

#[test]
fn metrics_decode_reads_the_fields() {
    let m = Metrics::decode(&metrics_table(400)).unwrap();
    assert_eq!(m.version, 0);
    assert_eq!(m.avg_char_width, -200);
    assert_eq!(m.weight_class, 400);
    assert_eq!(m.width_class, 5);
    assert_eq!(m.tail.len(), 70);
    assert_eq!(m.tail[0], 24);
}

#[test]
fn metrics_round_trip_is_byte_identical() {
    let raw = metrics_table(700);
    assert_eq!(Metrics::decode(&raw).unwrap().encode(), raw);
}

#[test]
fn metrics_weight_change_touches_two_bytes() {
    let raw = metrics_table(400);
    let out = Metrics::decode(&raw).unwrap().with_weight_class(444).encode();
    assert_eq!(out.len(), raw.len());
    for i in 0..raw.len() {
        if i == 4 || i == 5 {
            continue;
        }
        assert_eq!(out[i], raw[i]);
    }
    assert_eq!(&out[4..6], &[0x01, 0xBC]);
    let back = Metrics::decode(&out).unwrap();
    assert_eq!(back.weight_class, 444);
    assert_eq!(back.avg_char_width, -200);
    assert_eq!(back.width_class, 5);
}

#[test]
fn metrics_short_or_unknown_version_is_malformed() {
    assert_eq!(Metrics::decode(&[0u8; 77]).unwrap_err(), FormatError::Malformed);
    assert_eq!(Metrics::decode(&[]).unwrap_err(), FormatError::Malformed);
    let mut v1 = vec![0u8; 80];
    v1[1] = 1;
    assert_eq!(Metrics::decode(&v1).unwrap_err(), FormatError::Malformed);
    let mut v9 = vec![0u8; 200];
    v9[1] = 9;
    assert_eq!(Metrics::decode(&v9).unwrap_err(), FormatError::Malformed);
    let mut v5 = vec![0u8; 100];
    v5[1] = 5;
    assert_eq!(Metrics::decode(&v5).unwrap().version, 5);
}

#[test]
fn glyph_count_decode_and_encode() {
    let raw = vec![0, 0, 0x50, 0, 0x01, 0x02, 7, 8];
    let g = GlyphCount::decode(&raw).unwrap();
    assert_eq!(g.version, 0x5000);
    assert_eq!(g.num_glyphs, 258);
    assert_eq!(g.encode(), raw);
    assert_eq!(GlyphCount::decode(&raw[..5]).unwrap_err(), FormatError::Malformed);
}

#[test]
fn location_format_flag() {
    let mut head = head_table();
    assert_eq!(loc_format(&head), Ok(false));
    head[51] = 1;
    assert_eq!(loc_format(&head), Ok(true));
    head[51] = 2;
    assert_eq!(loc_format(&head), Err(FormatError::Malformed));
    assert_eq!(loc_format(&head[..53]), Err(FormatError::Malformed));
}

#[test]
fn location_index_short_entries_count_pairs() {
    let raw = [0, 0, 0, 10, 0, 18, 0, 26, 0, 26];
    let x = LocationIndex::decode(&raw, false, 4).unwrap();
    assert_eq!(x.offsets, vec![0, 20, 36, 52, 52]);
    assert!(!x.long);
}

#[test]
fn location_index_long_entries() {
    let raw = [0, 0, 0, 0, 0, 1, 0, 4, 0, 1, 0, 4];
    let x = LocationIndex::decode(&raw, true, 2).unwrap();
    assert_eq!(x.offsets, vec![0, 0x10004, 0x10004]);
}

#[test]
fn location_index_rejects_short_input_and_decreasing_offsets() {
    assert_eq!(LocationIndex::decode(&[0, 0, 0, 4], false, 2).unwrap_err(), FormatError::Malformed);
    assert_eq!(LocationIndex::decode(&[0, 9, 0, 4], false, 1).unwrap_err(), FormatError::Malformed);
}

#[test]
fn location_index_encode_keeps_the_width() {
    let short = vec![0u8, 0, 0, 10, 0, 18];
    assert_eq!(LocationIndex::decode(&short, false, 2).unwrap().encode(), Ok(short));
    let long = vec![0u8, 0, 0, 0, 0, 1, 0, 4];
    assert_eq!(LocationIndex::decode(&long, true, 1).unwrap().encode(), Ok(long));
    let odd = LocationIndex { long: false, offsets: vec![0, 3] };
    assert_eq!(odd.encode(), Err(BuildError::EncodeFailure));
    let far = LocationIndex { long: false, offsets: vec![0, 131072] };
    assert_eq!(far.encode(), Err(BuildError::EncodeFailure));
}

#[test]
fn rebuild_without_replacements_keeps_every_table() {
    let bytes = sample();
    let original = parsed(&bytes);
    let out = rebuild(&original, &Vec::new()).expect("rebuilt");
    let again = parsed(&out);
    assert_eq!(again.table_count(), original.table_count());
    for e in original.entries.iter() {
        let d = again.get(e.tag).expect("the table");
        if e.tag == TAG_HEAD {
            assert_eq!(d[..8], e.data[..8]);
            assert_eq!(d[12..], e.data[12..]);
        } else {
            assert_eq!(d, &e.data);
            let i = again.position(e.tag).unwrap();
            assert_eq!(again.entries[i].checksum, e.checksum);
        }
    }
}

#[test]
fn rebuild_stores_right_checksums() {
    let out = rebuild(&parsed(&sample()), &Vec::new()).unwrap();
    let again = parsed(&out);
    for e in again.entries.iter() {
        assert_eq!(e.offset % 4, 0);
        let mut seen = e.data.clone();
        if e.tag == TAG_HEAD {
            seen[8..12].copy_from_slice(&[0, 0, 0, 0]);
        }
        assert_eq!(e.checksum, table_checksum(&seen));
    }
    assert_eq!(table_checksum(&out), 0xB1B0_AFBA);
}

#[test]
fn rebuild_orders_the_directory_by_tag() {
    let out = rebuild(&parsed(&sample()), &Vec::new()).unwrap();
    let again = parsed(&out);
    let tags: Vec<u32> = again.entries.iter().map(|e| e.tag).collect();
    assert_eq!(tags, vec![TAG_METRICS, TAG_HEAD, TAG_MAXP, TAG_NAME]);
}

#[test]
fn rebuild_replaces_and_adds() {
    let original = parsed(&sample());
    let replacements = vec![
        TableData { tag: TAG_NAME, data: vec![7, 7, 7] },
        TableData { tag: 0x7A7A_7A7A, data: vec![1] },
        TableData { tag: TAG_NAME, data: vec![8] },
    ];
    let out = rebuild(&original, &replacements).unwrap();
    let again = parsed(&out);
    assert_eq!(again.table_count(), 5);
    assert_eq!(again.get(TAG_NAME), Some(&vec![7u8, 7, 7]));
    assert_eq!(again.get(0x7A7A_7A7A), Some(&vec![1u8]));
    assert_eq!(again.get(TAG_MAXP), original.get(TAG_MAXP));
    assert_eq!(again.get(TAG_METRICS), original.get(TAG_METRICS));
}

#[test]
fn rebuild_needs_the_companion_table() {
    let original = parsed(&sample());
    let loca = vec![TableData { tag: TAG_LOCA, data: vec![0, 0, 0, 0] }];
    assert_eq!(rebuild(&original, &loca), Err(BuildError::MissingRequiredTable));
    let glyf = vec![TableData { tag: TAG_GLYF, data: vec![] }];
    assert_eq!(rebuild(&original, &glyf), Err(BuildError::MissingRequiredTable));
    let both = vec![
        TableData { tag: TAG_LOCA, data: vec![0, 0, 0, 0] },
        TableData { tag: TAG_GLYF, data: vec![] },
    ];
    assert!(rebuild(&original, &both).is_ok());
}

#[test]
fn check_rebuilt_refuses_bytes_that_do_not_carry_the_tables() {
    let tables = vec![TableData { tag: TAG_NAME, data: vec![1, 2, 3, 4, 5] }];
    let good = container_bytes(0x0001_0000, &[(TAG_NAME, vec![1, 2, 3, 4, 5])]);
    assert_eq!(check_rebuilt(good.clone(), &tables), Ok(good.clone()));
    let other = container_bytes(0x0001_0000, &[(TAG_NAME, vec![1, 2, 3, 4, 6])]);
    assert_eq!(check_rebuilt(other, &tables), Err(BuildError::EncodeFailure));
    let mut bad_sum = good.clone();
    bad_sum[19] ^= 1;
    assert_eq!(check_rebuilt(bad_sum, &tables), Err(BuildError::EncodeFailure));
    assert_eq!(check_rebuilt(vec![1, 2, 3, 4, 5], &tables), Err(BuildError::EncodeFailure));
    let more = container_bytes(0x0001_0000, &[(TAG_NAME, vec![1, 2, 3, 4, 5]), (TAG_MAXP, vec![0])]);
    assert_eq!(check_rebuilt(more, &tables), Err(BuildError::EncodeFailure));
}

#[test]
fn check_rebuilt_wants_the_checksum_adjustment() {
    let tables = vec![TableData { tag: TAG_HEAD, data: head_table() }];
    let plain = container_bytes(0x0001_0000, &[(TAG_HEAD, head_table())]);
    assert_eq!(check_rebuilt(plain, &tables), Err(BuildError::EncodeFailure));
    let original = parsed(&container_bytes(0x0001_0000, &[(TAG_HEAD, head_table())]));
    let built = rebuild(&original, &Vec::new()).unwrap();
    assert_eq!(check_rebuilt(built.clone(), &tables), Ok(built));
}

#[test]
fn weight_class_400_becomes_444() {
    let bytes = sample();
    let original = parsed(&bytes);
    let before = Metrics::decode(original.get(TAG_METRICS).unwrap()).unwrap();
    assert_eq!(before.weight_class, 400);
    let out = patch_weight_class(&original, 444).unwrap();
    let again = parsed(&out);
    assert_eq!(again.table_count(), original.table_count());
    let after = Metrics::decode(again.get(TAG_METRICS).unwrap()).unwrap();
    assert_eq!(after.weight_class, 444);
    assert_eq!(after.version, before.version);
    assert_eq!(after.avg_char_width, before.avg_char_width);
    assert_eq!(after.width_class, before.width_class);
    assert_eq!(after.tail, before.tail);
    assert_eq!(again.get(TAG_NAME), original.get(TAG_NAME));
    assert_eq!(again.get(TAG_MAXP), original.get(TAG_MAXP));
}

#[test]
fn patch_without_metrics_table_fails() {
    let original = parsed(&container_bytes(0x0001_0000, &[(TAG_NAME, vec![1])]));
    assert_eq!(patch_weight_class(&original, 444), Err(PatchError::MissingTable));
    let short = parsed(&container_bytes(0x0001_0000, &[(TAG_METRICS, vec![0; 10])]));
    assert_eq!(patch_weight_class(&short, 444), Err(PatchError::Format(FormatError::Malformed)));
}

#[test]
fn check_rebuilt_wants_order_and_alignment() {
    let name = TableData { tag: TAG_NAME, data: vec![1, 2, 3, 4] };
    let maxp = TableData { tag: TAG_MAXP, data: vec![9, 9, 9, 9] };
    let rising = container_bytes(0x0001_0000, &[(TAG_MAXP, vec![9, 9, 9, 9]), (TAG_NAME, vec![1, 2, 3, 4])]);
    assert_eq!(check_rebuilt(rising.clone(), &vec![name.clone(), maxp.clone()]), Ok(rising));
    let falling = container_bytes(0x0001_0000, &[(TAG_NAME, vec![1, 2, 3, 4]), (TAG_MAXP, vec![9, 9, 9, 9])]);
    assert_eq!(check_rebuilt(falling, &vec![name.clone(), maxp]), Err(BuildError::EncodeFailure));
    let mut shifted = container_bytes(0x0001_0000, &[(TAG_NAME, vec![1, 2, 3, 4])]);
    shifted.insert(28, 0);
    shifted[20..24].copy_from_slice(&29u32.to_be_bytes());
    assert_eq!(parsed(&shifted).get(TAG_NAME), Some(&vec![1u8, 2, 3, 4]));
    assert_eq!(check_rebuilt(shifted, &vec![name]), Err(BuildError::EncodeFailure));
}

#[test]
fn compressed_signature() {
    assert!(is_compressed(b"wOF2rest"));
    assert!(!is_compressed(b"wOF"));
    assert!(!is_compressed(b"wOFF...."));
    assert!(!is_compressed(&sample()));
}

#[test]
fn location_index_from_three_tables() {
    let mut head = head_table();
    let maxp = [0, 0, 0x50, 0, 0, 2];
    let short = [0, 0, 0, 10, 0, 18];
    assert_eq!(location_index(&head, &maxp, &short).unwrap().offsets, vec![0, 20, 36]);
    head[51] = 1;
    assert_eq!(location_index(&head, &maxp, &short).unwrap_err(), FormatError::Malformed);
    let long = [0, 0, 0, 0, 0, 0, 0, 20, 0, 0, 0, 36];
    let x = location_index(&head, &maxp, &long).unwrap();
    assert!(x.long);
    assert_eq!(x.offsets, vec![0, 20, 36]);
    assert_eq!(location_index(&head, &maxp[..4], &long).unwrap_err(), FormatError::Malformed);
    assert_eq!(location_index(&head[..20], &maxp, &long).unwrap_err(), FormatError::Malformed);
}

#[test]
fn rebuild_refuses_more_tables_than_the_builder_takes() {
    let original = parsed(&container_bytes(0x0001_0000, &[]));
    let mut many: Vec<TableData> = Vec::new();
    for i in 0..4095u32 {
        many.push(TableData { tag: 0x4100_0000 + i, data: vec![i as u8] });
    }
    let out = rebuild(&original, &many).expect("as many as the builder takes");
    assert_eq!(out.len(), 12 + 4095 * 20);
    assert_eq!(parsed(&out).table_count(), 4095);
    many.push(TableData { tag: 0x4200_0000, data: Vec::new() });
    assert_eq!(rebuild(&original, &many), Err(BuildError::EncodeFailure));
}

#[test]
fn location_index_can_change_its_width() {
    let x = LocationIndex::decode(&[0, 0, 0, 10, 0, 18], false, 2).unwrap();
    assert_eq!(x.encode_as(true), Ok(vec![0, 0, 0, 0, 0, 0, 0, 20, 0, 0, 0, 36]));
    let y = LocationIndex::decode(&[0, 0, 0, 0, 0, 0, 0, 20], true, 1).unwrap();
    assert_eq!(y.encode_as(false), Ok(vec![0, 0, 0, 10]));
    assert_eq!(y.encode_as(true), y.encode());
}

#[test]
fn check_rebuilt_wants_zero_padding_and_the_right_version() {
    let name = TableData { tag: TAG_NAME, data: vec![1, 2, 3, 4, 5] };
    let good = container_bytes(0x0001_0000, &[(TAG_NAME, vec![1, 2, 3, 4, 5])]);
    let mut padded = good.clone();
    let last = padded.len() - 1;
    padded[last] = 1;
    assert_eq!(parsed(&padded).get(TAG_NAME), Some(&vec![1u8, 2, 3, 4, 5]));
    assert_eq!(check_rebuilt(padded, &vec![name.clone()]), Err(BuildError::EncodeFailure));
    let otto = container_bytes(0x4F54_544F, &[(TAG_NAME, vec![1, 2, 3, 4, 5])]);
    assert_eq!(check_rebuilt(otto, &vec![name.clone()]), Err(BuildError::EncodeFailure));
    assert_eq!(check_rebuilt(good.clone(), &vec![name]), Ok(good));
}

#[test]
fn check_rebuilt_wants_tables_apart() {
    let a = TableData { tag: TAG_MAXP, data: vec![1, 2, 3, 4] };
    let b = TableData { tag: TAG_NAME, data: vec![1, 2, 3, 4] };
    let mut shared = container_bytes(0x0001_0000, &[(TAG_MAXP, vec![1, 2, 3, 4]), (TAG_NAME, vec![1, 2, 3, 4])]);
    shared[36..40].copy_from_slice(&44u32.to_be_bytes());
    let c = parsed(&shared);
    assert_eq!(c.get(TAG_MAXP), c.get(TAG_NAME));
    assert_eq!(check_rebuilt(shared, &vec![a, b]), Err(BuildError::EncodeFailure));
}

#[test]
fn rebuild_picks_the_version_by_the_outlines() {
    let original = parsed(&container_bytes(0x7472_7565, &[(TAG_NAME, vec![1])]));
    let plain = rebuild(&original, &Vec::new()).unwrap();
    assert_eq!(parsed(&plain).version, 0x0001_0000);
    let compact = rebuild(&original, &vec![TableData { tag: 0x4346_4620, data: vec![1, 0, 4, 1] }]).unwrap();
    assert_eq!(parsed(&compact).version, 0x4F54_544F);
}

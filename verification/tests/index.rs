use faint_light::fits::hdu::Fits;
use faint_light::fits::write::Card;
use faint_light::fits::{FitsError, BLOCK, CARD};
use faint_light::index::kdtree::{swap_needed, ArrRef};
use faint_light::index::{IndexError, KdTree, PackedType, QuadTable};

/// One HDU: the cards, END, padding, then `data` padded to a block.
fn hdu(cards: &[Card], data: &[u8]) -> Vec<u8> {
    let mut buf = Vec::new();
    for c in cards {
        buf.extend_from_slice(&c.to_bytes());
    }
    let mut end = vec![b' '; CARD];
    end[..3].copy_from_slice(b"END");
    buf.extend_from_slice(&end);
    buf.resize(buf.len().div_ceil(BLOCK) * BLOCK, b' ');
    let start = buf.len();
    buf.extend_from_slice(data);
    buf.resize(start + data.len().div_ceil(BLOCK) * BLOCK, 0);
    buf
}

fn table(name: &str, width: i64, rows: i64, data: &[u8]) -> Vec<u8> {
    hdu(
        &[
            Card::string("XTENSION", "BINTABLE", ""),
            Card::integer("BITPIX", 8, ""),
            Card::integer("NAXIS", 2, ""),
            Card::integer("NAXIS1", width, ""),
            Card::integer("NAXIS2", rows, ""),
            Card::string("EXTNAME", name, ""),
        ],
        data,
    )
}

/// A little-endian two-leaf tree of 4 one-dimensional u16 points.
fn tree_file(extra_header: &[Card]) -> Vec<u8> {
    let mut buf = hdu(
        &[
            Card::bool("SIMPLE", true, ""),
            Card::integer("BITPIX", 8, ""),
            Card::integer("NAXIS", 0, ""),
            Card::string("ENDIAN", "04:03:02:01", ""),
        ],
        &[],
    );
    let mut header = vec![
        Card::string("XTENSION", "BINTABLE", ""),
        Card::integer("BITPIX", 8, ""),
        Card::integer("NAXIS", 2, ""),
        Card::integer("NAXIS1", 0, ""),
        Card::integer("NAXIS2", 0, ""),
        Card::string("EXTNAME", "kdtree_header_codes", ""),
        Card::integer("KDT_NDAT", 4, ""),
        Card::integer("KDT_NDIM", 1, ""),
        Card::integer("KDT_NNOD", 3, ""),
        Card::string("KDT_INT", "u16", ""),
        Card::string("KDT_DATA", "u16", ""),
        Card::string("ENDIAN", "04:03:02:01", ""),
    ];
    header.extend_from_slice(extra_header);
    buf.extend_from_slice(&hdu(&header, &[]));
    buf.extend_from_slice(&table("kdtree_data_codes", 2, 4, &[1, 0, 2, 0, 3, 0, 4, 0]));
    buf.extend_from_slice(&table("kdtree_range_codes", 8, 3, &[0u8; 24]));
    buf.extend_from_slice(&table("kdtree_split_codes", 2, 1, &[3, 0]));
    buf.extend_from_slice(&table("kdtree_lr_codes", 4, 2, &[1, 0, 0, 0, 3, 0, 0, 0]));
    buf
}

#[test]
fn packed_types() {
    assert_eq!(PackedType::U16.size(), 2);
    assert_eq!(PackedType::F32.size(), 4);
    assert_eq!(PackedType::F64.size(), 8);
    assert!(PackedType::U32.is_int());
    assert!(!PackedType::F64.is_int());
    assert_eq!(PackedType::from_kdt("double").unwrap(), PackedType::F64);
    match PackedType::from_kdt("int8") {
        Err(IndexError::Format(m)) => assert_eq!(m, "unsupported kd type \"int8\""),
        other => panic!("unexpected {other:?}"),
    }
}

#[test]
fn byte_order_follows_the_endian_card() {
    assert!(!swap_needed(Some("04:03:02:01"), [1, 0]));
    assert!(swap_needed(Some("01:02:03:04"), [1, 0]));
    assert!(!swap_needed(None, [1, 0]));
    assert!(swap_needed(Some("04:03:02:01"), [0, 1]));
}

#[test]
fn integers_are_read_in_the_requested_order() {
    let base = [0u8, 1, 2, 3, 4, 5];
    let a = ArrRef { off: 2, ty: PackedType::U16 };
    assert_eq!(a.get_int(&base, 0, false), 0x0302);
    assert_eq!(a.get_int(&base, 1, true), 0x0405);
    let b = ArrRef { off: 1, ty: PackedType::U32 };
    assert_eq!(b.get_int(&base, 0, false), 0x04030201);
}

#[test]
fn a_tree_is_located_and_walked() {
    let buf = tree_file(&[]);
    let fits = Fits::parse(&buf).unwrap();
    let t = KdTree::parse(&fits, "codes").unwrap();
    assert_eq!((t.ndata, t.ndim, t.nnodes, t.nbottom, t.ninterior), (4, 1, 3, 2, 1));
    assert_eq!(t.name, "codes");
    assert!(t.range.is_some());
    assert_eq!(t.byte_size(), 4 * 1 * 2 + 1 * 2 + 2 * 4);
    assert_eq!(t.leaf_range(&buf, 1), (0, 2));
    assert_eq!(t.leaf_range(&buf, 2), (2, 4));
    let (dim, packed) = t.packed_split(&buf, 0);
    assert_eq!((dim, packed), (0, 3));
}

#[test]
fn tree_problems_are_named() {
    let buf = tree_file(&[]);
    let fits = Fits::parse(&buf).unwrap();
    match KdTree::parse(&fits, "stars") {
        Err(IndexError::Format(m)) => assert_eq!(m, "missing HDU kdtree_header_stars"),
        other => panic!("unexpected {other:?}"),
    }
}

#[test]
fn a_missing_count_is_reported_before_the_element_types() {
    let mut buf = hdu(
        &[
            Card::bool("SIMPLE", true, ""),
            Card::integer("BITPIX", 8, ""),
            Card::integer("NAXIS", 0, ""),
        ],
        &[],
    );
    buf.extend_from_slice(&hdu(
        &[
            Card::string("XTENSION", "BINTABLE", ""),
            Card::integer("BITPIX", 8, ""),
            Card::integer("NAXIS", 2, ""),
            Card::integer("NAXIS1", 0, ""),
            Card::integer("NAXIS2", 0, ""),
            Card::string("EXTNAME", "kdtree_header_codes", ""),
            Card::integer("KDT_NDIM", 1, ""),
            Card::integer("KDT_NNOD", 3, ""),
            Card::string("KDT_INT", "int8", ""),
        ],
        &[],
    ));
    let fits = Fits::parse(&buf).unwrap();
    match KdTree::parse(&fits, "codes") {
        Err(IndexError::Fits(FitsError::MissingCard(k))) => assert_eq!(k, "KDT_NDAT"),
        other => panic!("unexpected {other:?}"),
    }
}

#[test]
fn quads_are_read_per_row() {
    let mut buf = tree_file(&[]);
    buf.extend_from_slice(&table("quads", 12, 1, &[5, 0, 0, 0, 6, 0, 0, 0, 7, 0, 0, 0]));
    let fits = Fits::parse(&buf).unwrap();
    let t = KdTree::parse(&fits, "codes").unwrap();
    let q = QuadTable::locate(&fits, &t, &t, 4, 4, 3);
    match q {
        Err(IndexError::Format(m)) => assert_eq!(m, "code dim 1 inconsistent with dimquads 3"),
        other => panic!("unexpected {other:?}"),
    }
    let table = QuadTable { off: fits.find("quads").unwrap().data_offset, row: 12, dimquads: 3, swap: false };
    assert_eq!(table.stars(&buf, 0), ([5, 6, 7, 0, 0], 3));
}

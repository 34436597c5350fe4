use faint_light::fits::hdu::Fits;
use faint_light::fits::header::{Header, Value};
use faint_light::fits::write::{header_only, set_cards, Card};
use faint_light::fits::{FitsError, BLOCK, CARD};
use faint_light::solve::is_wcs_key;

fn card(s: &str) -> Vec<u8> {
    let mut v = s.as_bytes().to_vec();
    v.resize(CARD, b' ');
    v
}

fn block(cards: &[&str]) -> Vec<u8> {
    let mut v = Vec::new();
    for c in cards {
        v.extend_from_slice(&card(c));
    }
    v.resize(BLOCK, b' ');
    v
}

fn card_text(c: &Card) -> String {
    String::from_utf8(c.to_bytes().to_vec()).unwrap()
}

/// A card as `Card::float` writes it: exponential form, 12 decimals,
/// right-justified in the value field.
fn float_card(key: &str, v: f64, comment: &str) -> Card {
    Card {
        key: key.to_string(),
        value: Some(format!("{:>20}", format!("{v:.12E}"))),
        comment: comment.to_string(),
    }
}

fn get_f64(h: &Header, key: &str) -> Option<f64> {
    match h.get(key)? {
        Value::Int(i) => Some(*i as f64),
        Value::Float(t) => t.parse::<f64>().ok(),
        _ => None,
    }
}

#[test]
fn parses_types_and_endian_vs_end() {
    let buf = block(&[
        "SIMPLE  =                    T / Standard FITS file",
        "BITPIX  =                    8",
        "NAXIS   =                    0",
        "ENDIAN  = '04:03:02:01' / Endianness detector",
        "SCALE_U =      0.0247254977366 / Upper-bound",
        "NQUADS  =               580800 / Number of quads.",
        "END",
    ]);
    let (h, off) = Header::parse(&buf, 0).unwrap();
    assert_eq!(off, BLOCK);
    assert_eq!(h.get_bool("SIMPLE"), Some(true));
    assert_eq!(h.get_i64("BITPIX"), Some(8));
    assert_eq!(h.get_str("ENDIAN"), Some("04:03:02:01"));
    assert!((get_f64(&h, "SCALE_U").unwrap() - 0.0247254977366).abs() < 1e-15);
    assert_eq!(h.get_i64("NQUADS"), Some(580800));
}

#[test]
fn string_with_escaped_quote() {
    let buf = block(&["TTYPE1  = 'it''s   '           / label", "END"]);
    let (h, _) = Header::parse(&buf, 0).unwrap();
    assert_eq!(h.get_str("TTYPE1"), Some("it's"));
}

#[test]
fn multiblock_header() {
    let mut cards: Vec<String> = vec!["SIMPLE  =                    T".into()];
    for i in 0..40 {
        cards.push(format!("HISTORY entry number {i}"));
    }
    cards.push("NAXIS   =                    0".into());
    cards.push("END".into());
    let refs: Vec<&str> = cards.iter().map(|s| s.as_str()).collect();
    let mut buf = Vec::new();
    for chunk in refs.chunks(36) {
        buf.extend_from_slice(&block(chunk));
    }
    let (h, off) = Header::parse(&buf, 0).unwrap();
    assert_eq!(off, 2 * BLOCK);
    assert_eq!(h.nblocks, 2);
    assert_eq!(h.get_i64("NAXIS"), Some(0));
}

#[test]
fn card_layout_matches_fixed_format() {
    let c = Card::integer("BITPIX", -32, "32-bit float");
    assert_eq!(
        card_text(&c),
        format!("{:<80}", "BITPIX  =                  -32 / 32-bit float")
    );
    let s = Card::string("CTYPE1", "RA---TAN", "TAN projection");
    assert_eq!(
        card_text(&s),
        format!("{:<80}", "CTYPE1  = 'RA---TAN'           / TAN projection")
    );
    assert!(card_text(&Card::string("CUNIT1", "deg", "")).starts_with("CUNIT1  = 'deg     '"));
}

#[test]
fn non_ascii_is_sanitized() {
    let c = Card::string("OBJECT", "M42\u{2014}core", "caf\u{e9}");
    let text = card_text(&c);
    assert!(text.is_ascii());
    assert_eq!(text.len(), CARD);
}

#[test]
fn header_only_has_no_data() {
    let buf = header_only(&[float_card("CRVAL1", 83.94, "RA")]);
    assert_eq!(buf.len(), BLOCK);
    let fits = Fits::parse(&buf).unwrap();
    assert_eq!(fits.hdus.len(), 1);
    assert_eq!(fits.hdus[0].data_len, 0);
    assert!((get_f64(&fits.hdus[0].header, "CRVAL1").unwrap() - 83.94).abs() < 1e-9);
}

#[test]
fn wcs_keys_cover_the_conventions_we_replace() {
    for k in [
        "CRVAL1", "CRPIX2", "CTYPE1", "CUNIT2", "CDELT1", "CROTA2", "CD1_1", "PC2_1", "PV2_3",
        "A_2_0", "BP_0_1", "A_ORDER", "EQUINOX", "RADESYS", "LONPOLE", "IMAGEW",
    ] {
        assert!(is_wcs_key(k), "{k} should be a WCS keyword");
    }
    for k in [
        "SIMPLE", "BITPIX", "NAXIS1", "OBJECT", "EXPTIME", "BZERO", "DATE-OBS", "CCD-TEMP",
        "CD", "COMMENT", "GAIN", "AIRMASS",
    ] {
        assert!(!is_wcs_key(k), "{k} should be preserved");
    }
}

#[test]
fn wcs_key_indices_need_digits_on_both_sides() {
    assert!(is_wcs_key("AP_1_2"));
    assert!(!is_wcs_key("CD1_"));
    assert!(!is_wcs_key("CD1_1_1"));
    assert!(!is_wcs_key("CTYPE"));
    assert!(!is_wcs_key("CTYPEA"));
    assert!(is_wcs_key("CNAME12"));
}

/// A primary header with a 2x2 8-bit image, then its data block.
fn small_image(extra: &[Card]) -> Vec<u8> {
    let mut cards = vec![
        Card::bool("SIMPLE", true, "conforms to the FITS standard"),
        Card::integer("BITPIX", 8, ""),
        Card::integer("NAXIS", 2, ""),
        Card::integer("NAXIS1", 2, ""),
        Card::integer("NAXIS2", 2, ""),
    ];
    cards.extend_from_slice(extra);
    let mut buf = Vec::new();
    for c in &cards {
        buf.extend_from_slice(&c.to_bytes());
    }
    buf.extend_from_slice(&card("END"));
    buf.resize(BLOCK, b' ');
    buf.extend_from_slice(&[1, 2, 3, 4]);
    buf.resize(2 * BLOCK, 0);
    buf
}

/// A primary HDU holding `data` as 32-bit IEEE floats, as the server writes
/// one for an image that did not arrive as FITS.
fn float_image(width: usize, height: usize, data: &[f32], extra: &[Card]) -> Vec<u8> {
    let mut cards = vec![
        Card::bool("SIMPLE", true, "conforms to the FITS standard"),
        Card::integer("BITPIX", -32, "32-bit IEEE floating point"),
        Card::integer("NAXIS", 2, ""),
        Card::integer("NAXIS1", width as i64, "image width, pixels"),
        Card::integer("NAXIS2", height as i64, "image height, pixels"),
    ];
    cards.extend_from_slice(extra);
    let mut buf = faint_light::fits::write::header_block(&cards);
    for v in data {
        buf.extend_from_slice(&v.to_be_bytes());
    }
    let padded = buf.len().div_ceil(BLOCK) * BLOCK;
    buf.resize(padded, 0);
    buf
}

/// The pixels of a float image written by `float_image`.
fn float_pixels(buf: &[u8], n: usize) -> Vec<f32> {
    let fits = Fits::parse(buf).unwrap();
    let off = fits.hdus[0].data_offset;
    (0..n)
        .map(|i| {
            let b: [u8; 4] = buf[off + 4 * i..off + 4 * i + 4].try_into().unwrap();
            f32::from_be_bytes(b)
        })
        .collect()
}

#[test]
fn set_cards_replaces_wcs_and_keeps_pixels() {
    let data: Vec<f32> = (0..6).map(|i| i as f32).collect();
    let original = float_image(
        3,
        2,
        &data,
        &[
            Card::string("OBJECT", "M42", "target"),
            Card::comment("acquired by the observatory"),
            float_card("CRVAL1", 10.0, "old"),
            float_card("CDELT1", 0.001, "stale convention"),
        ],
    );
    let out = set_cards(
        &original,
        &[
            float_card("CRVAL1", 83.94, "new"),
            Card::comment("solved by faint_light"),
        ],
        |k: &str| k == "CDELT1",
    )
    .unwrap();
    let fits = Fits::parse(&out).unwrap();
    let h = &fits.hdus[0].header;
    assert_eq!(h.get_str("OBJECT"), Some("M42"));
    // Commentary cards accumulate; they never displace each other.
    let text = String::from_utf8_lossy(&out[..BLOCK]);
    assert!(text.contains("acquired by the observatory"));
    assert!(text.contains("solved by faint_light"));
    assert!((get_f64(h, "CRVAL1").unwrap() - 83.94).abs() < 1e-9);
    assert_eq!(get_f64(h, "CDELT1"), None);
    assert_eq!(float_pixels(&out, 6), data);
}

#[test]
fn set_cards_grows_the_header_across_a_block_boundary() {
    let original = float_image(2, 2, &[1.0, 2.0, 3.0, 4.0], &[]);
    assert_eq!(original.len(), 2 * BLOCK);
    let many: Vec<Card> = (0..40)
        .map(|i| Card::integer(&format!("KEY{i:05}"), i, "filler"))
        .collect();
    let out = set_cards(&original, &many, |_: &str| false).unwrap();
    assert_eq!(out.len(), 3 * BLOCK);
    let fits = Fits::parse(&out).unwrap();
    assert_eq!(fits.hdus[0].header.nblocks, 2);
    assert_eq!(fits.hdus[0].header.get_i64("KEY00039"), Some(39));
    assert_eq!(float_pixels(&out, 4), vec![1.0, 2.0, 3.0, 4.0]);
}

#[test]
fn set_cards_drops_only_what_it_is_asked_to() {
    let original = small_image(&[
        Card::string("OBJECT", "M42", "target"),
        Card::integer("CRVAL1", 10, "old"),
        Card::integer("CDELT1", 1, "stale convention"),
    ]);
    let out = set_cards(&original, &[Card::integer("CRVAL1", 84, "new")], |k: &str| k == "CDELT1").unwrap();
    assert_eq!(out.len(), 2 * BLOCK);
    assert_eq!(&out[BLOCK..], &original[BLOCK..]);
    let fits = Fits::parse(&out).unwrap();
    let h = &fits.hdus[0].header;
    assert_eq!(h.get_str("OBJECT"), Some("M42"));
    assert_eq!(h.get_i64("CRVAL1"), Some(84));
    assert_eq!(h.get_i64("CDELT1"), None);
    assert_eq!(fits.hdus[0].data_len, 4);
}

#[test]
fn not_fits_and_truncated() {
    assert!(matches!(Fits::parse(b"hello"), Err(FitsError::NotFits)));
    let buf = small_image(&[]);
    assert!(matches!(Fits::parse(&buf[..BLOCK]), Err(FitsError::Truncated(2880))));
    let mut no_end = block(&["SIMPLE  =                    T"]);
    no_end.truncate(BLOCK);
    assert!(matches!(Fits::parse(&no_end), Err(FitsError::Truncated(2880))));
}

#[test]
fn fits_walks_every_hdu() {
    let mut buf = header_only(&[Card::string("EXTNAME", "first", "")]);
    let mut ext = Vec::new();
    for c in [
        Card::string("XTENSION", "BINTABLE", ""),
        Card::integer("BITPIX", 8, ""),
        Card::integer("NAXIS", 2, ""),
        Card::integer("NAXIS1", 4, ""),
        Card::integer("NAXIS2", 3, ""),
        Card::string("TTYPE1", "quads", ""),
    ] {
        ext.extend_from_slice(&c.to_bytes());
    }
    ext.extend_from_slice(&card("END"));
    ext.resize(BLOCK, b' ');
    ext.extend_from_slice(&[7u8; 12]);
    ext.resize(2 * BLOCK, 0);
    buf.extend_from_slice(&ext);
    let fits = Fits::parse(&buf).unwrap();
    assert_eq!(fits.hdus.len(), 2);
    assert_eq!(fits.hdus[1].data_offset, 2 * BLOCK);
    assert_eq!(fits.hdus[1].data_len, 12);
    assert_eq!(fits.hdus[1].header_offset(), BLOCK);
    assert_eq!(fits.hdus[1].table_shape(), (4, 3));
    assert_eq!(fits.find("quads").unwrap().data_offset, 2 * BLOCK);
    assert_eq!(fits.find("first").unwrap().name(), Some("first"));
    assert!(fits.find("stars").is_none());
}

#[test]
fn values_keep_their_kind() {
    let buf = block(&[
        "A       = 'x'",
        "B       = 1.5E3 / a float",
        "C       =                  -12",
        "D       = what",
        "E       =",
        "END",
    ]);
    let (h, _) = Header::parse(&buf, 0).unwrap();
    assert_eq!(h.get("A"), Some(&Value::Str("x".into())));
    assert_eq!(h.get("B"), Some(&Value::Float("1.5E3".into())));
    assert_eq!(h.get_i64("C"), Some(-12));
    assert_eq!(h.get("D"), Some(&Value::Raw("what".into())));
    assert_eq!(h.get("E"), Some(&Value::Raw(String::new())));
    assert!(matches!(h.req_i64("Z"), Err(FitsError::MissingCard(k)) if k == "Z"));
}

#[test]
fn a_written_header_reads_back_card_for_card() {
    let cards = vec![
        Card::integer("WCSAXES", 2, "number of celestial axes"),
        Card::integer("NEGATIVE", i64::MIN, ""),
        Card::bool("FLAG", false, "a logical"),
        Card::string("CTYPE1", "RA---TAN", "TAN (gnomonic) projection"),
        Card::string("QUOTE", "it's  ", ""),
        Card::comment("commentary is not an entry"),
    ];
    let buf = header_only(&cards);
    let fits = Fits::parse(&buf).unwrap();
    assert_eq!(fits.hdus.len(), 1);
    let h = &fits.hdus[0].header;
    let keys: Vec<&str> = h.cards().iter().map(|(k, _)| k.as_str()).collect();
    assert_eq!(
        keys,
        vec!["SIMPLE", "BITPIX", "NAXIS", "EXTEND", "WCSAXES", "NEGATIVE", "FLAG", "CTYPE1", "QUOTE"]
    );
    assert_eq!(h.get_i64("WCSAXES"), Some(2));
    assert_eq!(h.get_i64("NEGATIVE"), Some(i64::MIN));
    assert_eq!(h.get_bool("FLAG"), Some(false));
    assert_eq!(h.get_str("CTYPE1"), Some("RA---TAN"));
    // Trailing spaces are not significant in FITS strings.
    assert_eq!(h.get_str("QUOTE"), Some("it's"));
}

#[test]
fn a_rewritten_header_reads_kept_cards_then_new_ones() {
    let original = small_image(&[
        Card::string("OBJECT", "M42", "target"),
        Card::integer("CRVAL1", 10, "old"),
        Card::integer("CDELT1", 1, "stale convention"),
        Card::integer("EXPTIME", 30, ""),
    ]);
    let out = set_cards(
        &original,
        &[Card::integer("CRVAL1", 84, "new"), Card::string("CTYPE1", "RA---TAN", "")],
        |k: &str| k == "CDELT1",
    )
    .unwrap();
    let fits = Fits::parse(&out).unwrap();
    let h = &fits.hdus[0].header;
    let keys: Vec<&str> = h.cards().iter().map(|(k, _)| k.as_str()).collect();
    assert_eq!(
        keys,
        vec!["SIMPLE", "BITPIX", "NAXIS", "NAXIS1", "NAXIS2", "OBJECT", "EXPTIME", "CRVAL1", "CTYPE1"]
    );
    assert_eq!(h.get_i64("CRVAL1"), Some(84));
    assert_eq!(h.get_str("CTYPE1"), Some("RA---TAN"));
    assert_eq!(h.get_i64("EXPTIME"), Some(30));
}

#[test]
fn setting_the_same_cards_again_changes_nothing() {
    let original = float_image(
        3,
        2,
        &[0.0, 1.0, 2.0, 3.0, 4.0, 5.0],
        &[
            Card::string("OBJECT", "M42", "target"),
            float_card("CRVAL1", 10.0, "old"),
            float_card("CDELT1", 0.001, "stale convention"),
        ],
    );
    let cards = [
        float_card("CRVAL1", 83.94, "new"),
        Card::string("CTYPE1", "RA---TAN", "TAN projection"),
        Card::integer("IMAGEW", 3, "width"),
    ];
    let drop = |k: &str| k == "CDELT1" || k == "CROTA1";
    let once = set_cards(&original, &cards, drop).unwrap();
    let twice = set_cards(&once, &cards, drop).unwrap();
    assert_eq!(twice, once);
    // The many-card header of a grown file is a fixed point too.
    let many: Vec<Card> = (0..40)
        .map(|i| Card::integer(&format!("KEY{i:05}"), i, "filler"))
        .collect();
    let grown = set_cards(&original, &many, |_: &str| false).unwrap();
    assert_eq!(set_cards(&grown, &many, |_: &str| false).unwrap(), grown);
}

#[test]
fn setting_a_valued_comment_card_again_changes_nothing() {
    let original = float_image(
        2,
        2,
        &[1.0, 2.0, 3.0, 4.0],
        &[Card::string("OBJECT", "M42", "target")],
    );
    let note = Card {
        key: "COMMENT".to_string(),
        value: Some("'solved by faint_light'".to_string()),
        comment: String::new(),
    };
    let cards = [note, Card::integer("IMAGEW", 2, "width")];
    let once = set_cards(&original, &cards, |_: &str| false).unwrap();
    let twice = set_cards(&once, &cards, |_: &str| false).unwrap();
    assert_eq!(twice, once);
}

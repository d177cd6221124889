use wave_collapse::catalog::CatalogError;
use wave_collapse::catalog::parse_decimal;
use wave_collapse::catalog::parse_tile_stem;
use wave_collapse::catalog::symmetry_of;
use wave_collapse::tile::Symmetry;

#[test]
fn parse_decimal_reads_digits() {
    assert_eq!(parse_decimal(b"0"), Some(0));
    assert_eq!(parse_decimal(b"7"), Some(7));
    assert_eq!(parse_decimal(b"00123"), Some(123));
    assert_eq!(parse_decimal(b"18446744073709551615"), Some(usize::MAX));
}

#[test]
fn parse_decimal_rejects_bad_input() {
    assert_eq!(parse_decimal(b""), None);
    assert_eq!(parse_decimal(b"12a"), None);
    assert_eq!(parse_decimal(b"-3"), None);
    assert_eq!(parse_decimal(b"18446744073709551616"), None);
    assert_eq!(parse_decimal(b"99999999999999999999999"), None);
}

#[test]
fn symmetry_of_knows_the_seven_tags() {
    assert!(matches!(symmetry_of(b'L'), Some(Symmetry::L)));
    assert!(matches!(symmetry_of(b'T'), Some(Symmetry::T)));
    assert!(matches!(symmetry_of(b'I'), Some(Symmetry::I)));
    assert!(matches!(symmetry_of(b'\\'), Some(Symmetry::BackSlash)));
    assert!(matches!(symmetry_of(b'/'), Some(Symmetry::ForwardSlash)));
    assert!(matches!(symmetry_of(b'F'), Some(Symmetry::F)));
    assert!(matches!(symmetry_of(b'X'), Some(Symmetry::X)));
    assert!(symmetry_of(b'Q').is_none());
    assert!(symmetry_of(b'l').is_none());
}

#[test]
fn parse_tile_stem_accepts_well_formed_stems() {
    assert_eq!(parse_tile_stem(b"L_12"), Ok((Symmetry::L, 12)));
    assert_eq!(parse_tile_stem(b"T_3"), Ok((Symmetry::T, 3)));
    assert_eq!(parse_tile_stem(b"\\_4"), Ok((Symmetry::BackSlash, 4)));
    assert_eq!(parse_tile_stem(b"X_007"), Ok((Symmetry::X, 7)));
    // only the first byte of the tag is inspected
    assert_eq!(parse_tile_stem(b"Lxyz_9"), Ok((Symmetry::L, 9)));
}

#[test]
fn parse_tile_stem_wants_exactly_two_tokens() {
    assert_eq!(parse_tile_stem(b""), Err(CatalogError::BadFormat));
    assert_eq!(parse_tile_stem(b"abc"), Err(CatalogError::BadFormat));
    assert_eq!(parse_tile_stem(b"a_b_c"), Err(CatalogError::BadFormat));
    assert_eq!(parse_tile_stem(b"L__3"), Err(CatalogError::BadFormat));
}

#[test]
fn parse_tile_stem_wants_a_numeric_id() {
    assert_eq!(parse_tile_stem(b"L_"), Err(CatalogError::BadId));
    assert_eq!(parse_tile_stem(b"L_x9"), Err(CatalogError::BadId));
    assert_eq!(
        parse_tile_stem(b"L_99999999999999999999999"),
        Err(CatalogError::BadId)
    );
}

#[test]
fn parse_tile_stem_wants_a_known_tag() {
    assert_eq!(parse_tile_stem(b"_9"), Err(CatalogError::UnknownSymmetry));
    assert_eq!(parse_tile_stem(b"Q_9"), Err(CatalogError::UnknownSymmetry));
    // the id is checked before the tag
    assert_eq!(parse_tile_stem(b"Q_x"), Err(CatalogError::BadId));
}

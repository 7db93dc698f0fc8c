use runes::rune::{Error, Rune};

#[test]
fn literal_names() {
    assert_eq!(Rune(0).to_string(), "A");
    assert_eq!(Rune(25).to_string(), "Z");
    assert_eq!(Rune(26).to_string(), "AA");
    assert_eq!(Rune(u128::MAX).to_string(), "BCGDENLQRQWDSLRUGSNLBTMFIJAV");
}

#[test]
fn more_names() {
    assert_eq!(Rune(1).to_string(), "B");
    assert_eq!(Rune(27).to_string(), "AB");
    assert_eq!(Rune(51).to_string(), "AZ");
    assert_eq!(Rune(52).to_string(), "BA");
    assert_eq!(Rune(701).to_string(), "ZZ");
    assert_eq!(Rune(702).to_string(), "AAA");
    assert_eq!(Rune(u128::MAX - 1).to_string(), "BCGDENLQRQWDSLRUGSNLBTMFIJAU");
    assert_eq!(Rune(u128::MAX - 2).to_string(), "BCGDENLQRQWDSLRUGSNLBTMFIJAT");
}

#[test]
fn names_parse() {
    assert_eq!(Rune::from_str("A"), Ok(Rune(0)));
    assert_eq!(Rune::from_str("Z"), Ok(Rune(25)));
    assert_eq!(Rune::from_str("AA"), Ok(Rune(26)));
    assert_eq!(Rune::from_str("ZZ"), Ok(Rune(701)));
    assert_eq!(Rune::from_str("AAA"), Ok(Rune(702)));
    assert_eq!(Rune::from_str("BCGDENLQRQWDSLRUGSNLBTMFIJAV"), Ok(Rune(u128::MAX)));
}

#[test]
fn the_empty_string_is_read_as_zero() {
    assert_eq!(Rune::from_str(""), Ok(Rune(0)));
}

#[test]
fn names_parse_back() {
    for n in [0u128, 1, 25, 26, 27, 51, 52, 701, 702, 703, 18277, 18278, u128::MAX - 1, u128::MAX] {
        assert_eq!(Rune::from_str(&Rune(n).to_string()), Ok(Rune(n)));
    }
    for shift in 0..128 {
        let n = 1u128 << shift;
        assert_eq!(Rune::from_str(&Rune(n).to_string()), Ok(Rune(n)));
        assert_eq!(Rune::from_str(&Rune(n - 1).to_string()), Ok(Rune(n - 1)));
    }
}

#[test]
fn names_out_of_range() {
    assert_eq!(Rune::from_str("BCGDENLQRQWDSLRUGSNLBTMFIJAW"), Err(Error::Range));
    assert_eq!(Rune::from_str("BCGDENLQRQWDSLRUGSNLBTMFIJAVX"), Err(Error::Range));
    assert_eq!(Rune::from_str("ZZZZZZZZZZZZZZZZZZZZZZZZZZZZ"), Err(Error::Range));
}

#[test]
fn names_with_other_characters() {
    assert_eq!(Rune::from_str("a"), Err(Error::Character('a')));
    assert_eq!(Rune::from_str("AB1"), Err(Error::Character('1')));
    assert_eq!(Rune::from_str("A B"), Err(Error::Character(' ')));
    assert_eq!(Rune::from_str("É"), Err(Error::Character('É')));
}

#[test]
fn the_first_failure_is_reported() {
    // the letters before the `x` leave room for the multiplication, not for the letter
    assert_eq!(Rune::from_str("x"), Err(Error::Character('x')));
    assert_eq!(Rune::from_str("BCGDENLQRQWDSLRUGSNLBTMFIJAVx"), Err(Error::Range));
    assert_eq!(Rune::from_str("BCGDENLQRQWDSLRUGSNLBTMFIJAx"), Err(Error::Character('x')));
    assert_eq!(Rune::from_str("xBCGDENLQRQWDSLRUGSNLBTMFIJAVZZ"), Err(Error::Character('x')));
}

#[test]
fn the_number_of_a_name() {
    assert_eq!(Rune(0).n(), 0);
    assert_eq!(Rune(12345).n(), 12345);
    assert_eq!(Rune::default(), Rune(0));
}

#[test]
fn reserved_names() {
    assert_eq!(Rune::RESERVED, 6402364363415443603228541259936211926);
    assert_eq!(Rune(Rune::RESERVED).to_string(), "AAAAAAAAAAAAAAAAAAAAAAAAAAA");
    assert!(!Rune(Rune::RESERVED - 1).is_reserved());
    assert!(Rune(Rune::RESERVED).is_reserved());
    assert!(Rune(Rune::RESERVED + 1).is_reserved());
    assert!(Rune(u128::MAX).is_reserved());
    assert!(!Rune(0).is_reserved());
}

#[test]
fn names_that_the_protocol_assigns() {
    assert_eq!(Rune::reserved(0, 0), Rune(Rune::RESERVED));
    assert_eq!(Rune::reserved(0, 1), Rune(Rune::RESERVED + 1));
    assert_eq!(Rune::reserved(1, 0), Rune(Rune::RESERVED + (1 << 32)));
    assert_eq!(Rune::reserved(1, 1), Rune(Rune::RESERVED + (1 << 32) + 1));
    assert_eq!(
        Rune::reserved(u64::MAX, u32::MAX),
        Rune(Rune::RESERVED + ((u128::from(u64::MAX) << 32) | u128::from(u32::MAX))),
    );
    assert!(Rune::reserved(840000, 7).is_reserved());
}

#[test]
fn commitments() {
    assert_eq!(Rune(0).commitment(), Vec::<u8>::new());
    assert_eq!(Rune(1).commitment(), vec![1]);
    assert_eq!(Rune(255).commitment(), vec![255]);
    assert_eq!(Rune(256).commitment(), vec![0, 1]);
    assert_eq!(Rune(65535).commitment(), vec![255, 255]);
    assert_eq!(Rune(65536).commitment(), vec![0, 0, 1]);
    assert_eq!(Rune(u128::MAX).commitment(), vec![255; 16]);
    assert_eq!(Rune(1 << 120).commitment().len(), 16);
}

#[test]
fn names_are_ordered_by_number() {
    assert!(Rune(0) < Rune(1));
    assert!(Rune(26) > Rune(25));
}

#[test]
fn failures_in_words() {
    assert_eq!(Error::Character('x').to_string(), "invalid character `x`");
    assert_eq!(Error::Range.to_string(), "name out of range");
}

use science::codes::{all, Code, UNCHECKED_ERROR};

#[test]
fn every_code_is_in_a_band_this_crate_owns() {
    for code in all() {
        assert!(
            (250..=299).contains(&code.0) || (520..=579).contains(&code.0),
            "{code:?} is outside SC0250-SC0299 and SC0520-SC0579"
        );
    }
}

#[test]
fn no_code_is_used_twice() {
    let codes = all();
    let mut seen = codes.clone();
    seen.sort();
    seen.dedup();
    assert_eq!(seen.len(), codes.len(), "two diagnostics share a code");
}

#[test]
fn the_two_codes_section_13_named_and_this_crate_cannot_report_are_free() {
    for reserved in [521u16, 522] {
        assert!(
            !all().iter().any(|code| code.0 == reserved),
            "SC0{reserved} is reserved for a check this crate does not make"
        );
    }
}

#[test]
fn the_unchecked_error_code_is_borrowed_and_not_claimed() {
    assert!(!all().iter().any(|code| code.0 == 140), "SC0140 is borrowed, not claimed");
    assert_eq!(Code(UNCHECKED_ERROR).0, 140);
}

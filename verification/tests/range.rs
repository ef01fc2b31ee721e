use static_fs::error::Error;
use static_fs::range::Range;

#[test]
fn test_parse_range_header() {
    let range: Range = "bytes=0-1023"
        .parse()
        .expect("unable to parse Range header");
    assert_eq!(range.start, 0);
    assert_eq!(range.end, 1023);
    assert_eq!(range.typ, "bytes");
}

#[test]
fn range_of_five_to_ten_spans_six_bytes() {
    let range = Range::parse("bytes=5-10").unwrap();
    assert_eq!(range.start, 5);
    assert_eq!(range.end, 10);
    assert_eq!(range.len(), 6);
}

#[test]
fn range_of_one_position_spans_one_byte() {
    let range = Range::parse("bytes=7-7").unwrap();
    assert_eq!(range.len(), 1);
}

#[test]
fn range_with_several_ranges_is_unsupported() {
    assert_eq!(Range::parse("bytes=0-5,10-20").unwrap_err(), Error::UnsupportedRange);
    assert_eq!(Range::parse(",").unwrap_err(), Error::UnsupportedRange);
    assert_eq!("bytes=0-5, 7-9".parse::<Range>().unwrap_err(), Error::UnsupportedRange);
}

#[test]
fn range_that_does_not_follow_the_grammar_is_invalid() {
    for text in [
        "",
        "bytes",
        "bytes=",
        "bytes=5",
        "bytes=5-",
        "bytes=-5",
        "bytes=a-5",
        "bytes=5-b",
        "bytes=5-10x",
        "bytes=5 -10",
        "bytes= 5-10",
        "bytes=5-10 ",
        "bytes=+5-10",
        "bytes=5--10",
        "bytes=5-10-15",
        "a=b=1-2",
        "bytes=1-\u{0663}",
    ] {
        assert_eq!(Range::parse(text).unwrap_err(), Error::InvalidRange, "{}", text);
    }
}

#[test]
fn range_takes_the_unit_as_it_stands() {
    let range = Range::parse("items=1-2").unwrap();
    assert_eq!(range.typ, "items");
    let range = Range::parse("=1-2").unwrap();
    assert_eq!(range.typ, "");
    let range = Range::parse("by tes=1-2").unwrap();
    assert_eq!(range.typ, "by tes");
    let range = Range::parse("b\u{00e9}=1-2").unwrap();
    assert_eq!(range.typ, "b\u{00e9}");
}

#[test]
fn range_numbers_may_have_leading_zeros() {
    let range = Range::parse("bytes=007-0010").unwrap();
    assert_eq!((range.start, range.end), (7, 10));
}

#[test]
fn range_numbers_reach_the_end_of_64_bits_and_no_further() {
    let range = Range::parse("bytes=0-18446744073709551615").unwrap();
    assert_eq!(range.end, u64::MAX);
    let range = Range::parse("bytes=18446744073709551615-18446744073709551615").unwrap();
    assert_eq!(range.start, u64::MAX);
    assert_eq!(range.len(), 1);
    assert_eq!(
        Range::parse("bytes=0-18446744073709551616").unwrap_err(),
        Error::InvalidRange
    );
    assert_eq!(
        Range::parse("bytes=99999999999999999999999-1").unwrap_err(),
        Error::InvalidRange
    );
}

#[test]
fn range_keeps_an_end_before_its_start() {
    let range = Range::parse("bytes=10-5").unwrap();
    assert_eq!((range.start, range.end), (10, 5));
    assert!(!range.fits(100));
}

#[test]
fn range_fits_a_resource_that_holds_its_end() {
    let range = Range::parse("bytes=5-10").unwrap();
    assert!(range.fits(11));
    assert!(range.fits(1000));
    assert!(!range.fits(10));
    assert!(!range.fits(0));
}

#[test]
fn errors_describe_themselves() {
    assert_eq!(Error::NotFound.description(), "file does not exist");
    assert_eq!(Error::InvalidRange.description(), "invalid range header");
    assert_eq!(Error::UnsupportedRange.description(), "multipart ranges not supported");
    assert_eq!(Error::MalformedPackage.description(), "malformed package");
    assert_eq!(Error::PathOutsideRoot.description(), "path is outside of the root");
    assert_eq!(Error::IoFailure.description(), "unable to read file");
    assert_eq!(Error::TooLarge.description(), "package is too large");
}

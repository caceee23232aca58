use flate2::write::GzEncoder;
use flate2::Compression;
use iptoasn_webservice::asns::{Asn, Asns};
use iptoasn_webservice::error::LoadError;
use iptoasn_webservice::ip::IpAddress;
use std::io::Write;

fn ip(text: &str) -> IpAddress {
    IpAddress::parse(text).unwrap()
}

fn gzip(text: &str) -> Vec<u8> {
    let mut encoder = GzEncoder::new(Vec::new(), Compression::default());
    encoder.write_all(text.as_bytes()).unwrap();
    encoder.finish().unwrap()
}

fn summary(record: &Asn) -> (String, String, u32, String, String) {
    (
        record.first_ip.to_text(),
        record.last_ip.to_text(),
        record.number,
        record.country.as_str().to_string(),
        record.description.as_str().to_string(),
    )
}

#[test]
fn an_announced_row_is_found() {
    let asns = Asns::from_text("1.0.0.0\t1.0.0.255\t13335\tUS\tCLOUDFLARENET\n");
    let found = asns.lookup_by_ip(ip("1.0.0.5")).expect("announced");
    assert_eq!(found.number, 13335);
    assert_eq!(found.country.as_str(), "US");
    assert_eq!(found.description.as_str(), "CLOUDFLARENET");
    assert_eq!(found.first_ip, ip("1.0.0.0"));
    assert_eq!(found.last_ip, ip("1.0.0.255"));
}

#[test]
fn an_unrouted_row_is_not_announced() {
    let asns = Asns::from_text("0.0.0.0\t0.255.255.255\t0\tNone\tNot routed\n");
    assert_eq!(asns.len(), 1);
    assert!(asns.lookup_by_ip(ip("0.1.2.3")).is_none());
}

#[test]
fn a_malformed_line_is_skipped() {
    let text = "1.0.0.0\t1.0.0.255\t13335\tUS\tCLOUDFLARENET\n\
                bad_ip\t1.0.0.1\t5\tUS\tX\n\
                2.0.0.0\t2.0.0.255\t3215\tFR\tOrange\n";
    let asns = Asns::from_text(text);
    assert_eq!(asns.len(), 2);
    assert_eq!(asns.lookup_by_ip(ip("1.0.0.1")).unwrap().number, 13335);
    assert_eq!(asns.lookup_by_ip(ip("2.0.0.9")).unwrap().number, 3215);
    assert!(asns.lookup_meta_by_asn(5).is_none());
}

#[test]
fn lines_with_bad_fields_are_skipped() {
    let text = "1.0.0.0\tnot_an_ip\t1\tUS\tA\n\
                1.0.1.0\t1.0.1.255\tnumber\tUS\tB\n\
                1.0.2.0\t1.0.2.255\t-3\tUS\tC\n\
                1.0.3.0\t1.0.3.255\t4294967296\tUS\tD\n\
                1.0.4.0\t1.0.4.255\n\
                1.0.5.0\n\
                \n\
                \t\t\t\n\
                   \n\
                1.0.6.0\t1.0.6.255\t4294967295\tUS\tE\n\
                1.0.7.0\t1.0.7.255\t+7\tUS\tF\n\
                1.0.8.0 \t1.0.8.255\t8\tUS\tG\n\
                1.0.9.0\t1.0.9.255\t 9\tUS\tH\n";
    let asns = Asns::from_text(text);
    assert_eq!(asns.len(), 2);
    assert_eq!(asns.lookup_by_ip(ip("1.0.6.1")).unwrap().number, u32::MAX);
    assert_eq!(asns.lookup_by_ip(ip("1.0.7.1")).unwrap().number, 7);
    assert!(asns.lookup_by_ip(ip("1.0.0.1")).is_none());
    assert!(asns.lookup_by_ip(ip("1.0.8.1")).is_none());
}

#[test]
fn rows_whose_range_ends_before_it_starts_are_dropped() {
    let asns = Asns::from_text("1.0.0.9\t1.0.0.1\t5\tUS\tX\n1.0.1.0\t1.0.1.0\t6\tUS\tY\n");
    assert_eq!(asns.len(), 1);
    assert!(asns.lookup_by_ip(ip("1.0.0.9")).is_none());
    assert_eq!(asns.lookup_by_ip(ip("1.0.1.0")).unwrap().number, 6);
}

#[test]
fn missing_trailing_fields_are_empty() {
    let asns = Asns::from_text("1.0.0.0\t1.0.0.255\t10\n2.0.0.0\t2.0.0.255\t20\tDE\n");
    let a = asns.lookup_by_ip(ip("1.0.0.1")).unwrap();
    assert_eq!(summary(a), ("1.0.0.0".into(), "1.0.0.255".into(), 10, "".into(), "".into()));
    let b = asns.lookup_by_ip(ip("2.0.0.1")).unwrap();
    assert_eq!(summary(b), ("2.0.0.0".into(), "2.0.0.255".into(), 20, "DE".into(), "".into()));
    let (country, description) = asns.lookup_meta_by_asn(20).unwrap();
    assert_eq!((country.as_str(), description.as_str()), ("DE", ""));
}

#[test]
fn fields_after_the_fifth_are_ignored_and_the_last_line_needs_no_line_feed() {
    let asns = Asns::from_text("1.0.0.0\t1.0.0.255\t10\tUS\tFirst\textra\tmore");
    let a = asns.lookup_by_ip(ip("1.0.0.1")).unwrap();
    assert_eq!(a.description.as_str(), "First");
    assert_eq!(asns.len(), 1);
}

#[test]
fn a_carriage_return_stays_in_the_last_field() {
    let asns = Asns::from_text("1.0.0.0\t1.0.0.255\t10\tUS\tFirst\r\n");
    assert_eq!(asns.lookup_by_ip(ip("1.0.0.1")).unwrap().description.as_str(), "First\r");
}

#[test]
fn of_two_rows_with_one_first_address_the_earlier_is_kept() {
    let text = "1.0.0.0\t1.0.0.255\t111\tUS\tEarlier\n\
                1.0.0.0\t1.0.0.127\t222\tCA\tLater\n";
    let asns = Asns::from_text(text);
    assert_eq!(asns.len(), 1);
    let found = asns.lookup_by_ip(ip("1.0.0.200")).unwrap();
    assert_eq!(found.number, 111);
    assert_eq!(found.description.as_str(), "Earlier");
    // The row that the index dropped still reaches the registry.
    let (country, description) = asns.lookup_meta_by_asn(222).unwrap();
    assert_eq!((country.as_str(), description.as_str()), ("CA", "Later"));
}

#[test]
fn the_first_row_of_a_number_decides_its_texts() {
    let text = "1.0.0.0\t1.0.0.255\t111\tUS\tOne\n\
                2.0.0.0\t2.0.0.255\t111\tCA\tOther\n";
    let asns = Asns::from_text(text);
    let (country, description) = asns.lookup_meta_by_asn(111).unwrap();
    assert_eq!((country.as_str(), description.as_str()), ("US", "One"));
    assert_eq!(asns.lookup_by_ip(ip("2.0.0.1")).unwrap().description.as_str(), "Other");
    assert!(asns.lookup_meta_by_asn(112).is_none());
}

#[test]
fn lookup_consults_the_record_that_starts_last() {
    let text = "1.0.0.0\t1.0.0.255\t1\tUS\tWide\n\
                1.0.0.10\t1.0.0.20\t0\tNone\tNot routed\n\
                1.0.0.100\t1.0.0.110\t2\tUS\tNarrow\n";
    let asns = Asns::from_text(text);
    assert_eq!(asns.lookup_by_ip(ip("1.0.0.5")).unwrap().number, 1);
    // Shadowed by the unrouted record that starts later.
    assert!(asns.lookup_by_ip(ip("1.0.0.15")).is_none());
    // Past the end of the record that starts last before it.
    assert!(asns.lookup_by_ip(ip("1.0.0.50")).is_none());
    assert_eq!(asns.lookup_by_ip(ip("1.0.0.105")).unwrap().number, 2);
    assert!(asns.lookup_by_ip(ip("0.255.255.255")).is_none());
}

#[test]
fn rows_are_ordered_whatever_the_order_of_the_lines() {
    let text = "3.0.0.0\t3.0.0.255\t7\tUS\tC\n\
                2001:db8::\t2001:db8::ffff\t7\tUS\tD\n\
                1.0.0.0\t1.0.0.255\t7\tUS\tA\n\
                2.0.0.0\t2.0.0.255\t8\tUS\tB\n";
    let asns = Asns::from_text(text);
    assert_eq!(
        asns.collect_ranges_by_asn(7),
        vec![
            (ip("1.0.0.0"), ip("1.0.0.255")),
            (ip("3.0.0.0"), ip("3.0.0.255")),
            (ip("2001:db8::"), ip("2001:db8::ffff")),
        ]
    );
    assert_eq!(asns.collect_ranges_by_asn(8), vec![(ip("2.0.0.0"), ip("2.0.0.255"))]);
    assert!(asns.collect_ranges_by_asn(9).is_empty());
}

#[test]
fn both_families_live_in_one_index() {
    let text = "1.0.0.0\t1.0.0.255\t1\tUS\tFour\n\
                2001:db8::\t2001:db8::ffff\t2\tDE\tSix\n";
    let asns = Asns::from_text(text);
    assert_eq!(asns.lookup_by_ip(ip("2001:db8::1")).unwrap().number, 2);
    assert_eq!(asns.lookup_by_ip(ip("1.0.0.1")).unwrap().number, 1);
    // An IPv6 address below every IPv6 record meets the last IPv4 record.
    assert!(asns.lookup_by_ip(ip("::1")).is_none());
    assert!(asns.lookup_by_ip(ip("255.255.255.255")).is_none());
}

#[test]
fn counters_tell_the_distinct_texts() {
    let text = "1.0.0.0\t1.0.0.255\t1\tUS\tOne\n\
                2.0.0.0\t2.0.0.255\t2\tUS\tTwo\n\
                3.0.0.0\t3.0.0.255\t3\tDE\tTwo\n\
                3.0.0.0\t3.0.0.255\t4\tFR\tFour\n\
                bad\n";
    let asns = Asns::from_text(text);
    assert_eq!(asns.len(), 3);
    assert_eq!(asns.distinct_countries(), 3);
    assert_eq!(asns.distinct_descriptions(), 3);
}

#[test]
fn an_empty_text_makes_an_empty_snapshot() {
    let asns = Asns::from_text("");
    assert_eq!(asns.len(), 0);
    assert!(asns.lookup_by_ip(ip("1.2.3.4")).is_none());
    assert_eq!(asns.distinct_countries(), 0);
}

#[test]
fn parse_data_unpacks_gzip() {
    let bytes = gzip("1.0.0.0\t1.0.0.255\t13335\tUS\tCLOUDFLARENET\n");
    let asns = Asns::parse_data(bytes).ok().expect("valid gzip");
    assert_eq!(asns.lookup_by_ip(ip("1.0.0.5")).unwrap().number, 13335);
}

#[test]
fn parse_data_rejects_what_is_no_gzip() {
    let plain = "1.0.0.0\t1.0.0.255\t13335\tUS\tCLOUDFLARENET\n".as_bytes().to_vec();
    assert_eq!(Asns::parse_data(plain).err(), Some(LoadError::Decompress));
    assert_eq!(Asns::parse_data(Vec::new()).err(), Some(LoadError::Decompress));
    let mut cut = gzip("1.0.0.0\t1.0.0.255\t13335\tUS\tCLOUDFLARENET\n");
    cut.truncate(cut.len() - 6);
    assert_eq!(Asns::parse_data(cut).err(), Some(LoadError::Decompress));
}

#[test]
fn parse_data_rejects_text_that_is_not_utf8() {
    let mut encoder = GzEncoder::new(Vec::new(), Compression::default());
    encoder.write_all(&[0x31, 0xff, 0xfe, 0x0a]).unwrap();
    let bytes = encoder.finish().unwrap();
    assert_eq!(Asns::parse_data(bytes).err(), Some(LoadError::Decompress));
}

#[test]
fn the_probe_record_holds_one_address() {
    let probe = Asn::from_single_ip(ip("10.1.2.3"));
    assert_eq!(summary(&probe), ("10.1.2.3".into(), "10.1.2.3".into(), 0, "".into(), "".into()));
}

#[test]
fn error_messages() {
    assert_eq!(LoadError::Decompress.message(), "Unable to decompress the database");
    assert_eq!(LoadError::UnsupportedScheme.message(), "Unsupported URL scheme");
    assert_eq!(LoadError::UnreadableFile.message(), "Unable to read the database");
    assert_eq!(
        LoadError::StatusAndNoFallback.message(),
        "Unable to load the database and no fallback data available"
    );
    assert_eq!(
        LoadError::TransportAndNoFallback.message(),
        "Failed to load database from URL and all fallback sources"
    );
}

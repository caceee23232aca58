use iptoasn_webservice::annotate::{
    annotate_ip_token, annotate_ip_token_with_memo, annotate_spans, annotate_spans_with_memo,
    parse_markers, token_spans, Annotator, Memo, Pattern, Style, Unannounced,
};
use iptoasn_webservice::asns::Asns;

fn dataset() -> Asns {
    Asns::from_text(
        "1.0.0.0\t1.0.0.255\t13335\tUS\tCLOUDFLARENET\n\
         2001:db8::\t2001:db8::ffff\t64512\tDE\tExample Net\n",
    )
}

fn style(include_description: bool, unannounced: Unannounced) -> Style {
    Style { open: '[', close: ']', sep: ", ".to_string(), include_description, unannounced }
}

#[test]
fn markers_are_exactly_two_characters() {
    assert_eq!(parse_markers("[]"), Some(('[', ']')));
    assert_eq!(parse_markers("<>"), Some(('<', '>')));
    assert_eq!(parse_markers("«»"), Some(('«', '»')));
    assert_eq!(parse_markers(""), None);
    assert_eq!(parse_markers("["), None);
    assert_eq!(parse_markers("[[]"), None);
}

#[test]
fn a_token_is_annotated_with_what_announces_it() {
    let asns = dataset();
    assert_eq!(
        annotate_ip_token("1.0.0.5", &asns, &style(false, Unannounced::AsZero)),
        "1.0.0.5 [AS13335, US]"
    );
    assert_eq!(
        annotate_ip_token("1.0.0.5", &asns, &style(true, Unannounced::AsZero)),
        "1.0.0.5 [AS13335, US, CLOUDFLARENET]"
    );
    // The token stays as it was written.
    assert_eq!(
        annotate_ip_token("2001:DB8:0::1", &asns, &style(false, Unannounced::AsZero)),
        "2001:DB8:0::1 [AS64512, DE]"
    );
    let angled =
        Style { open: '<', close: '>', sep: "|".to_string(), include_description: true, unannounced: Unannounced::AsZero };
    assert_eq!(annotate_ip_token("1.0.0.5", &asns, &angled), "1.0.0.5 <AS13335|US|CLOUDFLARENET>");
}

#[test]
fn an_address_that_nobody_announces_is_annotated_too() {
    let asns = dataset();
    assert_eq!(
        annotate_ip_token("10.0.0.1", &asns, &style(false, Unannounced::AsZero)),
        "10.0.0.1 [AS0, None]"
    );
    assert_eq!(
        annotate_ip_token("10.0.0.1", &asns, &style(true, Unannounced::AsZero)),
        "10.0.0.1 [AS0, None, Not announced]"
    );
    assert_eq!(
        annotate_ip_token("10.0.0.1", &asns, &style(false, Unannounced::NotAvailable)),
        "10.0.0.1 [NA, --]"
    );
    assert_eq!(
        annotate_ip_token("10.0.0.1", &asns, &style(true, Unannounced::NotAvailable)),
        "10.0.0.1 [NA, --, local or unknown]"
    );
}

#[test]
fn a_token_that_spells_no_address_is_left_alone() {
    let asns = dataset();
    assert_eq!(annotate_ip_token("999.1.1.1", &asns, &style(true, Unannounced::AsZero)), "999.1.1.1");
    assert_eq!(annotate_ip_token("1:2:3", &asns, &style(true, Unannounced::AsZero)), "1:2:3");
    assert_eq!(annotate_ip_token("", &asns, &style(true, Unannounced::AsZero)), "");
}

#[test]
fn spans_are_replaced_and_the_rest_is_kept() {
    let asns = dataset();
    let s = style(false, Unannounced::AsZero);
    let line = "from 1.0.0.5 to 9.9.9.999 via é".as_bytes();
    let out = annotate_spans(line, &vec![(5, 12), (16, 25)], &asns, &s);
    assert_eq!(String::from_utf8(out).unwrap(), "from 1.0.0.5 [AS13335, US] to 9.9.9.999 via é");
    // Spans that do not fit are passed over.
    let out = annotate_spans(line, &vec![(5, 12), (8, 12), (12, 5), (16, 400)], &asns, &s);
    assert_eq!(String::from_utf8(out).unwrap(), "from 1.0.0.5 [AS13335, US] to 9.9.9.999 via é");
    let out = annotate_spans(line, &Vec::new(), &asns, &s);
    assert_eq!(out, line);
    let out = annotate_spans(b"", &vec![(0, 0)], &asns, &s);
    assert!(out.is_empty());
}

#[test]
fn the_span_of_the_first_group_goes_before_that_of_the_second() {
    assert_eq!(
        token_spans(&vec![
            (Some((1, 2)), None),
            (None, None),
            (None, Some((5, 9))),
            (Some((10, 11)), Some((12, 13))),
        ]),
        vec![(1, 2), (5, 9), (10, 11)]
    );
}

#[test]
fn the_combined_pattern_finds_both_families() {
    let asns = dataset();
    let annotator = Annotator::combined(style(false, Unannounced::AsZero)).expect("pattern");
    let out = annotator.annotate_line("GET / from 1.0.0.5 and [2001:db8::1] or 10.1.2.3", &asns);
    assert_eq!(
        String::from_utf8(out).unwrap(),
        "GET / from 1.0.0.5 [AS13335, US] and [2001:db8::1 [AS64512, DE]] or 10.1.2.3 [AS0, None]"
    );
    let out = annotator.annotate_line("no address here: 1.2.3 café", &asns);
    assert_eq!(String::from_utf8(out).unwrap(), "no address here: 1.2.3 café");
    let out = annotator.annotate_line("", &asns);
    assert!(out.is_empty());
}

#[test]
fn the_combined_pattern_leaves_the_mapped_prefix_to_the_dotted_quad() {
    let asns = dataset();
    let annotator = Annotator::combined(style(false, Unannounced::AsZero)).expect("pattern");
    let out = annotator.annotate_line("peer ::ffff:1.0.0.5 seen", &asns);
    assert_eq!(String::from_utf8(out).unwrap(), "peer ::ffff:1.0.0.5 [AS13335, US] seen");
    let out = annotator.annotate_line("999.999.999.999 is no address", &asns);
    assert_eq!(String::from_utf8(out).unwrap(), "999.999.999.999 is no address");
}

#[test]
fn the_two_patterns_of_the_log_annotator_run_one_after_the_other() {
    let asns = dataset();
    let four = Annotator::ipv4(style(true, Unannounced::NotAvailable)).expect("pattern");
    let six = Annotator::ipv6(style(true, Unannounced::NotAvailable)).expect("pattern");
    let first = String::from_utf8(four.annotate_line("1.0.0.5 - 2001:db8::1 - ::ffff:10.0.0.1 -", &asns)).unwrap();
    assert_eq!(
        first,
        "1.0.0.5 [AS13335, US, CLOUDFLARENET] - 2001:db8::1 - ::ffff:10.0.0.1 [NA, --, local or unknown] -"
    );
    let second = String::from_utf8(six.annotate_line(&first, &asns)).unwrap();
    assert_eq!(
        second,
        "1.0.0.5 [AS13335, US, CLOUDFLARENET] - 2001:db8::1 [AS64512, DE, Example Net] - ::ffff:10.0.0.1 [NA, --, local or unknown] -"
    );
}

#[test]
fn an_annotator_is_made_of_a_compiled_pattern() {
    let asns = dataset();
    let compiled = Pattern::compile(r"<(?P<addr>[0-9.]+)>|\[(?P<other>[0-9a-f:]+)\]");
    let annotator =
        Annotator::from_compiled(compiled, "addr", "other", style(false, Unannounced::AsZero))
            .expect("a compiled pattern");
    let out = annotator.annotate_line("<1.0.0.5> [2001:db8::1] 1.0.0.5", &asns);
    assert_eq!(
        String::from_utf8(out).unwrap(),
        "<1.0.0.5 [AS13335, US]> [2001:db8::1 [AS64512, DE]] 1.0.0.5"
    );
    assert!(
        Annotator::from_compiled(None, "addr", "other", style(false, Unannounced::AsZero)).is_none()
    );
    // A pattern that is not well written compiles to nothing.
    let broken = Pattern::compile(r"(?P<addr>[0-9");
    assert!(broken.is_none());
    assert!(Annotator::from_compiled(broken, "addr", "other", style(false, Unannounced::AsZero))
        .is_none());
}

#[test]
fn the_patterns_of_the_library_are_accepted() {
    assert!(Annotator::combined(style(false, Unannounced::AsZero)).is_some());
    assert!(Annotator::ipv4(style(false, Unannounced::AsZero)).is_some());
    assert!(Annotator::ipv6(style(false, Unannounced::AsZero)).is_some());
}

#[test]
fn a_memo_answers_as_the_lookup_does() {
    let asns = dataset();
    let plain = style(false, Unannounced::AsZero);
    let mut memo = Memo::new();
    for _ in 0..3 {
        for token in ["1.0.0.5", "999.1.1.1", "10.0.0.1", "2001:DB8:0::1", "", "1.0.0.5"] {
            assert_eq!(
                annotate_ip_token_with_memo(token, &asns, &plain, &mut memo),
                annotate_ip_token(token, &asns, &plain),
                "token {:?}",
                token
            );
        }
    }
    assert_eq!(
        annotate_ip_token_with_memo("999.1.1.1", &asns, &plain, &mut memo),
        "999.1.1.1"
    );
    assert_eq!(
        annotate_ip_token_with_memo("1.0.0.5", &asns, &plain, &mut memo),
        "1.0.0.5 [AS13335, US]"
    );
}

#[test]
fn a_memo_keeps_apart_what_is_written_with_and_without_descriptions() {
    let asns = dataset();
    let short = style(false, Unannounced::AsZero);
    let long = style(true, Unannounced::AsZero);
    let mut memo = Memo::new();
    assert_eq!(annotate_ip_token_with_memo("1.0.0.5", &asns, &short, &mut memo), "1.0.0.5 [AS13335, US]");
    assert_eq!(
        annotate_ip_token_with_memo("1.0.0.5", &asns, &long, &mut memo),
        "1.0.0.5 [AS13335, US, CLOUDFLARENET]"
    );
    assert_eq!(annotate_ip_token_with_memo("1.0.0.5", &asns, &short, &mut memo), "1.0.0.5 [AS13335, US]");
    assert_eq!(annotate_ip_token_with_memo("10.9.8.7", &asns, &long, &mut memo), "10.9.8.7 [AS0, None, Not announced]");
    assert_eq!(annotate_ip_token_with_memo("10.9.8.7", &asns, &short, &mut memo), "10.9.8.7 [AS0, None]");
}

#[test]
fn lines_are_annotated_alike_with_and_without_a_memo() {
    let asns = dataset();
    let s = style(true, Unannounced::NotAvailable);
    let mut memo = Memo::new();
    let line = "from 1.0.0.5 to 9.9.9.999 via é and 1.0.0.5".as_bytes();
    let spans = vec![(5, 12), (16, 25), (37, 44), (8, 9)];
    for _ in 0..2 {
        assert_eq!(
            annotate_spans_with_memo(line, &spans, &asns, &s, &mut memo),
            annotate_spans(line, &spans, &asns, &s)
        );
    }
    // Bytes that are no text of their own stay as they are.
    let odd: &[u8] = &[0x31, 0xff, 0x32];
    assert_eq!(annotate_spans_with_memo(odd, &vec![(0, 3)], &asns, &s, &mut memo), odd);

    let annotator = Annotator::combined(style(false, Unannounced::AsZero)).expect("pattern");
    let mut memo = Memo::new();
    for text in ["GET / from 1.0.0.5 and [2001:db8::1] or 10.1.2.3", "1.0.0.5 again, and 1.2.3", ""] {
        for _ in 0..2 {
            assert_eq!(
                annotator.annotate_line_with_memo(text, &asns, &mut memo),
                annotator.annotate_line(text, &asns)
            );
        }
    }
}

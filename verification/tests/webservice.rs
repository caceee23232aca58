use iptoasn_webservice::asns::Asns;
use iptoasn_webservice::webservice::{
    Answer, BodyInputType, IpLookupResponse, Method, OutputType, Refusal, Request, Route,
    WebService,
};

fn dataset() -> Asns {
    Asns::from_text(
        "0.0.0.0\t0.255.255.255\t0\tNone\tNot routed\n\
         1.0.0.0\t1.0.0.255\t13335\tUS\tCLOUDFLARENET\n\
         1.0.1.0\t1.0.3.255\t0\tNone\tNot routed\n\
         10.0.0.0\t10.0.0.5\t64512\tDE\tExample Net\n\
         10.0.1.0\t10.0.1.255\t64512\tDE\tExample Net\n\
         2001:db8::\t2001:db8::2\t64512\tDE\tExample Net\n\
         2001:db9::\t2001:db9::ffff\t64513\tFR\tTélécom\n",
    )
}

fn request(method: Method, path: &str) -> Request {
    Request {
        method,
        path: path.to_string(),
        accept: None,
        content_type: None,
        x_real_ip: None,
        x_forwarded_for: None,
        remote_ip: "1.0.0.9".to_string(),
        body: None,
    }
}

fn ips(list: &[&str]) -> Vec<String> {
    list.iter().map(|s| s.to_string()).collect()
}

#[test]
fn a_range_of_six_addresses_as_texts() {
    assert_eq!(
        WebService::range_to_cidrs("10.0.0.0", "10.0.0.5"),
        vec!["10.0.0.0/30", "10.0.0.4/31"]
    );
}

#[test]
fn the_whole_address_space_as_texts() {
    assert_eq!(WebService::range_to_cidrs("0.0.0.0", "255.255.255.255"), vec!["0.0.0.0/0"]);
    assert_eq!(
        WebService::range_to_cidrs("::", "ffff:ffff:ffff:ffff:ffff:ffff:ffff:ffff"),
        vec!["::/0"]
    );
}

#[test]
fn range_to_cidrs_at_the_top_of_the_space() {
    assert_eq!(
        WebService::range_to_cidrs("255.255.255.254", "255.255.255.255"),
        vec!["255.255.255.254/31"]
    );
    assert_eq!(
        WebService::range_to_cidrs("255.255.255.255", "255.255.255.255"),
        vec!["255.255.255.255/32"]
    );
    assert_eq!(
        WebService::range_to_cidrs(
            "ffff:ffff:ffff:ffff:ffff:ffff:ffff:fffd",
            "ffff:ffff:ffff:ffff:ffff:ffff:ffff:ffff"
        ),
        vec![
            "ffff:ffff:ffff:ffff:ffff:ffff:ffff:fffd/128",
            "ffff:ffff:ffff:ffff:ffff:ffff:ffff:fffe/127"
        ]
    );
}

#[test]
fn range_to_cidrs_without_a_range() {
    assert!(WebService::range_to_cidrs("10.0.0.5", "10.0.0.0").is_empty());
    assert!(WebService::range_to_cidrs("10.0.0.5", "::1").is_empty());
    assert!(WebService::range_to_cidrs("::1", "10.0.0.5").is_empty());
    assert!(WebService::range_to_cidrs("nonsense", "10.0.0.5").is_empty());
    assert!(WebService::range_to_cidrs("10.0.0.5", "").is_empty());
}

#[test]
fn range_to_cidrs_of_ipv6() {
    assert_eq!(
        WebService::range_to_cidrs("2001:db8::", "2001:db8::2"),
        vec!["2001:db8::/127", "2001:db8::2/128"]
    );
    assert_eq!(
        WebService::range_to_cidrs("2001:db8::", "2001:db8:ffff:ffff:ffff:ffff:ffff:ffff"),
        vec!["2001:db8::/32"]
    );
}

#[test]
fn routes() {
    assert!(matches!(WebService::route(Method::Get, "/"), Route::Index));
    assert!(matches!(WebService::route(Method::Get, "/v1/as/ip"), Route::OwnIp));
    assert!(matches!(WebService::route(Method::Get, "/v1/as/ip/1.2.3.4"), Route::Ip(ip) if ip == "1.2.3.4"));
    assert!(matches!(WebService::route(Method::Get, "/v1/as/ip/"), Route::Ip(ip) if ip.is_empty()));
    assert!(matches!(WebService::route(Method::Get, "/v1/as/n"), Route::MissingAsNumber));
    assert!(matches!(WebService::route(Method::Get, "/v1/as/n/AS15169"), Route::AsName(n) if n == "AS15169"));
    assert!(matches!(WebService::route(Method::Get, "/v1/as/n/"), Route::AsName(n) if n.is_empty()));
    assert!(
        matches!(WebService::route(Method::Get, "/v1/as/n/AS15169/subnets"), Route::Subnets(n) if n == "AS15169")
    );
    assert!(matches!(WebService::route(Method::Get, "/v1/as/n//subnets"), Route::Subnets(n) if n.is_empty()));
    // The ending overlaps the beginning: nothing is cut off.
    assert!(matches!(WebService::route(Method::Get, "/v1/as/n/subnets"), Route::Subnets(n) if n == "subnets"));
    assert!(matches!(WebService::route(Method::Put, "/v1/as/ips"), Route::Ips));
    assert!(matches!(WebService::route(Method::Get, "/v1/as/ips"), Route::NotFound));
    assert!(matches!(WebService::route(Method::Put, "/v1/as/ip"), Route::NotFound));
    assert!(matches!(WebService::route(Method::Put, "/"), Route::NotFound));
    assert!(matches!(WebService::route(Method::Other, "/"), Route::NotFound));
    assert!(matches!(WebService::route(Method::Get, "/v1/as/ipx"), Route::NotFound));
    assert!(matches!(WebService::route(Method::Get, ""), Route::NotFound));
    assert!(matches!(WebService::route(Method::Get, "/v1/as/ns"), Route::NotFound));
}

#[test]
fn parse_as_number_takes_a_prefix_and_blanks() {
    assert_eq!(WebService::parse_as_number("15169"), Some(15169));
    assert_eq!(WebService::parse_as_number("AS15169"), Some(15169));
    assert_eq!(WebService::parse_as_number("as15169"), Some(15169));
    assert_eq!(WebService::parse_as_number("  AS15169\t\n"), Some(15169));
    assert_eq!(WebService::parse_as_number("AS+7"), Some(7));
    assert_eq!(WebService::parse_as_number("0"), Some(0));
    assert_eq!(WebService::parse_as_number("AS4294967295"), Some(u32::MAX));
    assert_eq!(WebService::parse_as_number("AS4294967296"), None);
    assert_eq!(WebService::parse_as_number("As15169"), None);
    assert_eq!(WebService::parse_as_number("aS15169"), None);
    assert_eq!(WebService::parse_as_number("ASAS1"), None);
    assert_eq!(WebService::parse_as_number("AS 1"), None);
    assert_eq!(WebService::parse_as_number("AS"), None);
    assert_eq!(WebService::parse_as_number(""), None);
    assert_eq!(WebService::parse_as_number("-1"), None);
    assert_eq!(WebService::parse_as_number("12a"), None);
}

#[test]
fn accept_type_prefers_json_then_plain_then_html() {
    assert_eq!(WebService::accept_type(None), OutputType::Html);
    assert_eq!(WebService::accept_type(Some("application/json")), OutputType::Json);
    assert_eq!(WebService::accept_type(Some("text/plain")), OutputType::Plain);
    assert_eq!(WebService::accept_type(Some("text/html")), OutputType::Html);
    assert_eq!(WebService::accept_type(Some("text/plain, application/json;q=0.5")), OutputType::Json);
    assert_eq!(WebService::accept_type(Some("text/html, text/plain")), OutputType::Plain);
    assert_eq!(WebService::accept_type(Some("*/*")), OutputType::Html);
    assert_eq!(WebService::accept_type(Some("")), OutputType::Html);
    assert_eq!(WebService::accept_type(Some("Application/JSON")), OutputType::Html);
    assert_eq!(WebService::accept_type(Some("xapplication/jsonx")), OutputType::Json);
}

#[test]
fn body_input_type_reads_what_stands_before_the_semicolon() {
    assert_eq!(WebService::body_input_type(None), None);
    assert_eq!(WebService::body_input_type(Some("application/json")), Some(BodyInputType::Json));
    assert_eq!(
        WebService::body_input_type(Some(" Application/JSON ; charset=utf-8")),
        Some(BodyInputType::Json)
    );
    assert_eq!(WebService::body_input_type(Some("text/plain;charset=utf-8")), Some(BodyInputType::Plain));
    assert_eq!(WebService::body_input_type(Some("TEXT/PLAIN")), Some(BodyInputType::Plain));
    assert_eq!(WebService::body_input_type(Some("text/html")), None);
    assert_eq!(WebService::body_input_type(Some("charset=utf-8; text/plain")), None);
    assert_eq!(WebService::body_input_type(Some("")), None);
}

#[test]
fn extract_client_ip_trusts_the_headers_of_a_proxy() {
    assert_eq!(WebService::extract_client_ip(Some(" 9.9.9.9 "), Some("8.8.8.8"), "7.7.7.7"), " 9.9.9.9 ");
    assert_eq!(WebService::extract_client_ip(None, Some(" 8.8.8.8 , 6.6.6.6"), "7.7.7.7"), "8.8.8.8");
    assert_eq!(WebService::extract_client_ip(None, Some(" , 6.6.6.6"), "7.7.7.7"), "7.7.7.7");
    assert_eq!(WebService::extract_client_ip(None, Some(""), "7.7.7.7"), "7.7.7.7");
    assert_eq!(WebService::extract_client_ip(None, None, "7.7.7.7"), "7.7.7.7");
    assert_eq!(WebService::extract_client_ip(Some(""), None, "7.7.7.7"), "");
}

#[test]
fn parse_plain_ip_list_takes_one_address_per_line() {
    assert_eq!(WebService::parse_plain_ip_list("1.1.1.1\n2.2.2.2\n"), ips(&["1.1.1.1", "2.2.2.2"]));
    assert_eq!(
        WebService::parse_plain_ip_list("  1.1.1.1 \r\n\r\n\t2.2.2.2\r\nfoo"),
        ips(&["1.1.1.1", "2.2.2.2", "foo"])
    );
    assert!(WebService::parse_plain_ip_list("").is_empty());
    assert!(WebService::parse_plain_ip_list(" \n\t\n\r\n").is_empty());
}

#[test]
fn parse_plain_ip_list_honours_blocks() {
    assert_eq!(
        WebService::parse_plain_ip_list("begin\n1.1.1.1\nend\n2.2.2.2\nBEGIN\n3.3.3.3\n"),
        ips(&["1.1.1.1", "3.3.3.3"])
    );
    // What comes before the first block counts.
    assert_eq!(
        WebService::parse_plain_ip_list("0.0.0.0\n Begin \n1.1.1.1\n END\n2.2.2.2\n"),
        ips(&["0.0.0.0", "1.1.1.1"])
    );
    // An `end` alone closes nothing.
    assert_eq!(WebService::parse_plain_ip_list("end\n1.1.1.1\n"), ips(&["1.1.1.1"]));
    assert!(WebService::parse_plain_ip_list("begin\nend\n").is_empty());
}

#[test]
fn ip_lookup_answers() {
    let asns = dataset();
    let found = WebService::ip_lookup("1.0.0.5", &asns);
    assert_eq!(found.ip, "1.0.0.5");
    let record = found.found.expect("announced");
    assert_eq!(record.number, 13335);
    assert_eq!(record.first_ip.to_text(), "1.0.0.0");
    assert_eq!(record.last_ip.to_text(), "1.0.0.255");
    assert_eq!(record.country.as_str(), "US");
    assert_eq!(record.description.as_str(), "CLOUDFLARENET");

    let unrouted = WebService::ip_lookup("0.1.2.3", &asns);
    assert_eq!(unrouted.ip, "0.1.2.3");
    assert!(unrouted.found.is_none());

    let invalid = WebService::ip_lookup("not an ip", &asns);
    assert_eq!(invalid.ip, "not an ip");
    assert!(invalid.found.is_none());

    // An address is handed back in its usual text.
    let six = WebService::ip_lookup("2001:DB8:0:0::1", &asns);
    assert_eq!(six.ip, "2001:db8::1");
    assert_eq!(six.found.unwrap().number, 64512);
    let gap = WebService::ip_lookup("2001:0DB8::3", &asns);
    assert_eq!(gap.ip, "2001:db8::3");
    assert!(gap.found.is_none());
}

#[test]
fn bulk_lookup_keeps_the_text_of_what_is_not_announced() {
    let asns = dataset();
    let responses = WebService::bulk_lookup(&ips(&["2001:DB8::1", "2001:0DB8::3", "x", "1.0.0.1"]), &asns);
    assert_eq!(responses.len(), 4);
    assert_eq!(responses[0].ip, "2001:db8::1");
    assert_eq!(responses[0].found.as_ref().unwrap().number, 64512);
    assert_eq!(responses[1].ip, "2001:0DB8::3");
    assert!(responses[1].found.is_none());
    assert_eq!(responses[2].ip, "x");
    assert!(responses[2].found.is_none());
    assert_eq!(responses[3].found.as_ref().unwrap().number, 13335);
    assert!(WebService::bulk_lookup(&Vec::new(), &asns).is_empty());
}

#[test]
fn as_name_lookup_answers() {
    let asns = dataset();
    let name = WebService::as_name_lookup("AS13335", &asns).unwrap();
    assert_eq!((name.as_number, name.as_country_code.as_str(), name.as_description.as_str()), (13335, "US", "CLOUDFLARENET"));
    let unknown = WebService::as_name_lookup(" 4242 ", &asns).unwrap();
    assert_eq!(
        (unknown.as_number, unknown.as_country_code.as_str(), unknown.as_description.as_str()),
        (4242, "None", "Not found")
    );
    let zero = WebService::as_name_lookup("0", &asns).unwrap();
    assert_eq!((zero.as_country_code.as_str(), zero.as_description.as_str()), ("None", "Not routed"));
    assert!(WebService::as_name_lookup("ASxyz", &asns).is_none());
}

#[test]
fn as_subnets_lookup_answers() {
    let asns = dataset();
    let subnets = WebService::as_subnets_lookup("AS64512", &asns).unwrap();
    assert_eq!(subnets.as_number, 64512);
    assert_eq!(
        subnets.subnets,
        vec!["10.0.0.0/30", "10.0.0.4/31", "10.0.1.0/24", "2001:db8::/127", "2001:db8::2/128"]
    );
    // What nobody announces has no subnets, though ranges carry the number 0.
    assert!(WebService::as_subnets_lookup("0", &asns).unwrap().subnets.is_empty());
    assert!(WebService::as_subnets_lookup("4242", &asns).unwrap().subnets.is_empty());
    assert!(WebService::as_subnets_lookup("", &asns).is_none());
}

#[test]
fn output_plain_writes_one_line() {
    let asns = dataset();
    assert_eq!(
        WebService::output_plain(&WebService::ip_lookup("1.0.0.5", &asns)),
        "13335 | 1.0.0.0-1.0.0.255 | US | CLOUDFLARENET"
    );
    assert_eq!(
        WebService::output_plain(&WebService::ip_lookup("0.1.2.3", &asns)),
        "- | 0.1.2.3 | - | Not announced"
    );
    assert_eq!(
        WebService::output_plain(&WebService::ip_lookup("2001:db9::1", &asns)),
        "64513 | 2001:db9::-2001:db9::ffff | FR | Télécom"
    );
}

#[test]
fn output_plain_vec_writes_a_table() {
    let asns = dataset();
    let responses = WebService::bulk_lookup(&ips(&["1.0.0.5", "0.1.2.3", "2001:db9::1"]), &asns);
    assert_eq!(
        WebService::output_plain_vec(&responses),
        "13335    | 1.0.0.5              | CLOUDFLARENET, US\n\
         -        | 0.1.2.3              | Not announced\n\
         64513    | 2001:db9::1          | Télécom, FR\n"
    );
    assert_eq!(WebService::output_plain_vec(&Vec::new()), "");
}

#[test]
fn output_plain_vec_widens_the_column_for_long_addresses() {
    let asns = dataset();
    let long = "an-entry-that-is-longer-than-twenty";
    let responses = WebService::bulk_lookup(&ips(&["1.0.0.5", long]), &asns);
    assert_eq!(
        WebService::output_plain_vec(&responses),
        format!(
            "{:<8} | {:<35} | {}\n{:<8} | {:<35} | {}\n",
            "13335", "1.0.0.5", "CLOUDFLARENET, US", "-", long, "Not announced"
        )
    );
    // The width counts bytes, the padding characters.
    let accented = "ééééééééééé";
    let responses = vec![
        IpLookupResponse { ip: accented.to_string(), found: None },
        IpLookupResponse { ip: "x".to_string(), found: None },
    ];
    assert_eq!(
        WebService::output_plain_vec(&responses),
        format!(
            "{:<8} | {:<22} | {}\n{:<8} | {:<22} | {}\n",
            "-", accented, "Not announced", "-", "x", "Not announced"
        )
    );
}

#[test]
fn output_of_names_and_subnets() {
    let asns = dataset();
    let name = WebService::as_name_lookup("13335", &asns).unwrap();
    assert_eq!(WebService::output_as_name_plain(&name), "13335 | US | CLOUDFLARENET");
    let subnets = WebService::as_subnets_lookup("64512", &asns).unwrap();
    assert_eq!(
        WebService::output_as_subnets_plain(&subnets.subnets),
        "10.0.0.0/30\n10.0.0.4/31\n10.0.1.0/24\n2001:db8::/127\n2001:db8::2/128\n"
    );
    assert_eq!(WebService::output_as_subnets_plain(&Vec::new()), "");
}

#[test]
fn refusals() {
    let reply = WebService::refusal_reply(Refusal::NotFound, OutputType::Json);
    assert_eq!((reply.status, reply.content_type, reply.body), (404, None, "Not Found"));

    let reply = WebService::refusal_reply(Refusal::MissingAsNumber, OutputType::Plain);
    assert_eq!(
        (reply.status, reply.content_type, reply.body),
        (
            400,
            Some("text/plain; charset=utf-8"),
            "Missing AS number. Use /v1/as/n/<AS123> or /v1/as/n/<123>\n"
        )
    );
    let reply = WebService::refusal_reply(Refusal::MissingAsNumber, OutputType::Html);
    assert_eq!(
        (reply.status, reply.content_type, reply.body),
        (
            400,
            Some("application/json; charset=utf-8"),
            r#"{"error":"Missing AS number. Use /v1/as/n/<AS123> or /v1/as/n/<123>"}"#
        )
    );

    let reply = WebService::refusal_reply(Refusal::InvalidAsNumber, OutputType::Plain);
    assert_eq!(
        (reply.status, reply.content_type, reply.body),
        (400, Some("application/json; charset=utf-8"), "Invalid AS number. Use AS123 or 123\n")
    );
    let reply = WebService::refusal_reply(Refusal::InvalidAsNumber, OutputType::Html);
    assert_eq!(
        (reply.status, reply.content_type, reply.body),
        (
            400,
            Some("text/html; charset=utf-8"),
            "<!DOCTYPE html><html><body><p>Invalid AS number. Use AS123 or 123</p></body></html>"
        )
    );
    let reply = WebService::refusal_reply(Refusal::InvalidAsNumber, OutputType::Json);
    assert_eq!(
        (reply.status, reply.content_type, reply.body),
        (
            400,
            Some("application/json; charset=utf-8"),
            r#"{"error":"Invalid AS number. Use AS123 or 123"}"#
        )
    );

    let reply = WebService::refusal_reply(Refusal::UnreadableBody, OutputType::Plain);
    assert_eq!(
        (reply.status, reply.content_type, reply.body),
        (400, Some("text/plain; charset=utf-8"), "Failed to read request body\n")
    );
    let reply = WebService::refusal_reply(Refusal::UnreadableBody, OutputType::Json);
    assert_eq!(
        (reply.status, reply.content_type, reply.body),
        (400, Some("application/json; charset=utf-8"), r#"{"error":"Failed to read request body"}"#)
    );

    let text = "Invalid text body. Expected newline-separated IPs, optionally wrapped by 'begin'/'end'\n";
    let json = r#"{"error":"Invalid text body. Expected newline-separated IPs, optionally wrapped by 'begin'/'end'"}"#;
    let reply = WebService::refusal_reply(Refusal::InvalidText, OutputType::Plain);
    assert_eq!((reply.status, reply.content_type, reply.body), (400, Some("text/plain; charset=utf-8"), text));
    let reply = WebService::refusal_reply(Refusal::InvalidText, OutputType::Json);
    assert_eq!(
        (reply.status, reply.content_type, reply.body),
        (400, Some("application/json; charset=utf-8"), json)
    );
    let reply = WebService::refusal_reply(Refusal::InvalidTextPlain, OutputType::Json);
    assert_eq!((reply.status, reply.content_type, reply.body), (400, Some("text/plain; charset=utf-8"), text));
    let reply = WebService::refusal_reply(Refusal::InvalidJson, OutputType::Plain);
    assert_eq!(
        (reply.status, reply.content_type, reply.body),
        (
            400,
            Some("application/json; charset=utf-8"),
            r#"{"error":"Invalid JSON. Expected an array of IP strings"}"#
        )
    );
}

#[test]
fn select_ip_list_settles_what_the_body_lists() {
    let json = Some(BodyInputType::Json);
    let plain = Some(BodyInputType::Plain);
    // JSON that was read wins.
    assert_eq!(
        WebService::select_ip_list(json, Some(ips(&["1.1.1.1"])), "ignored", OutputType::Json),
        Ok(ips(&["1.1.1.1"]))
    );
    assert_eq!(
        WebService::select_ip_list(json, Some(Vec::new()), "[]", OutputType::Json),
        Ok(Vec::new())
    );
    // What is no JSON and does not look like it is read as plain text.
    assert_eq!(
        WebService::select_ip_list(json, None, "1.1.1.1\n2.2.2.2", OutputType::Json),
        Ok(ips(&["1.1.1.1", "2.2.2.2"]))
    );
    assert_eq!(
        WebService::select_ip_list(json, None, "  [1.1.1.1", OutputType::Json),
        Err(Refusal::InvalidJson)
    );
    assert_eq!(
        WebService::select_ip_list(json, None, "  [1.1.1.1", OutputType::Plain),
        Ok(ips(&["[1.1.1.1"]))
    );
    assert_eq!(
        WebService::select_ip_list(json, None, " \n", OutputType::Json),
        Err(Refusal::InvalidTextPlain)
    );
    // Plain text, announced or not.
    assert_eq!(
        WebService::select_ip_list(plain, Some(ips(&["9.9.9.9"])), "1.1.1.1", OutputType::Json),
        Ok(ips(&["1.1.1.1"]))
    );
    assert_eq!(
        WebService::select_ip_list(None, None, "[\"1.1.1.1\"]", OutputType::Json),
        Ok(ips(&["[\"1.1.1.1\"]"]))
    );
    assert_eq!(WebService::select_ip_list(None, None, "", OutputType::Plain), Err(Refusal::InvalidText));
}

#[test]
fn handle_request_routes_and_negotiates() {
    let asns = dataset();
    assert!(matches!(WebService::handle_request(&request(Method::Get, "/"), &asns), Answer::Index));

    let mut own = request(Method::Get, "/v1/as/ip");
    own.accept = Some("text/plain".to_string());
    match WebService::handle_request(&own, &asns) {
        Answer::Ip(OutputType::Plain, response) => {
            assert_eq!(response.ip, "1.0.0.9");
            assert_eq!(response.found.unwrap().number, 13335);
        }
        _ => panic!("unexpected answer"),
    }
    own.x_forwarded_for = Some("10.0.0.1, 1.1.1.1".to_string());
    match WebService::handle_request(&own, &asns) {
        Answer::Ip(_, response) => assert_eq!(response.found.unwrap().number, 64512),
        _ => panic!("unexpected answer"),
    }

    match WebService::handle_request(&request(Method::Get, "/v1/as/ip/0.1.2.3"), &asns) {
        Answer::Ip(OutputType::Html, response) => assert!(response.found.is_none()),
        _ => panic!("unexpected answer"),
    }
    assert!(matches!(
        WebService::handle_request(&request(Method::Get, "/v1/as/n"), &asns),
        Answer::Refused(OutputType::Html, Refusal::MissingAsNumber)
    ));
    assert!(matches!(
        WebService::handle_request(&request(Method::Get, "/v1/as/n/abc"), &asns),
        Answer::Refused(OutputType::Html, Refusal::InvalidAsNumber)
    ));
    assert!(matches!(
        WebService::handle_request(&request(Method::Get, "/v1/as/n/abc/subnets"), &asns),
        Answer::Refused(_, Refusal::InvalidAsNumber)
    ));
    match WebService::handle_request(&request(Method::Get, "/v1/as/n/AS13335"), &asns) {
        Answer::AsName(_, name) => assert_eq!(name.as_description, "CLOUDFLARENET"),
        _ => panic!("unexpected answer"),
    }
    match WebService::handle_request(&request(Method::Get, "/v1/as/n/13335/subnets"), &asns) {
        Answer::Subnets(_, subnets) => assert_eq!(subnets.subnets, vec!["1.0.0.0/24"]),
        _ => panic!("unexpected answer"),
    }
    assert!(matches!(
        WebService::handle_request(&request(Method::Other, "/v1/as/ip"), &asns),
        Answer::Refused(_, Refusal::NotFound)
    ));
}

#[test]
fn handle_request_reads_lists_of_addresses() {
    let asns = dataset();
    let mut put = request(Method::Put, "/v1/as/ips");
    assert!(matches!(
        WebService::handle_request(&put, &asns),
        Answer::Refused(OutputType::Json, Refusal::UnreadableBody)
    ));

    put.body = Some(b"[\"1.0.0.5\", \"0.1.2.3\"]".to_vec());
    put.content_type = Some("application/json".to_string());
    match WebService::handle_request(&put, &asns) {
        Answer::Ips(OutputType::Json, responses) => {
            assert_eq!(responses.len(), 2);
            assert_eq!(responses[0].found.as_ref().unwrap().number, 13335);
            assert_eq!(responses[1].ip, "0.1.2.3");
            assert!(responses[1].found.is_none());
        }
        _ => panic!("unexpected answer"),
    }

    put.body = Some(b"[\"1.0.0.5\", 7]".to_vec());
    assert!(matches!(
        WebService::handle_request(&put, &asns),
        Answer::Refused(OutputType::Json, Refusal::InvalidJson)
    ));

    put.body = Some(b"begin\n1.0.0.5\nend\n".to_vec());
    match WebService::handle_request(&put, &asns) {
        Answer::Ips(OutputType::Json, responses) => assert_eq!(responses.len(), 1),
        _ => panic!("unexpected answer"),
    }

    put.content_type = None;
    put.accept = Some("text/plain".to_string());
    put.body = Some(b"1.0.0.5\n\xff\xfe\n".to_vec());
    match WebService::handle_request(&put, &asns) {
        Answer::Ips(OutputType::Plain, responses) => {
            assert_eq!(responses.len(), 2);
            assert_eq!(responses[1].ip, "\u{fffd}\u{fffd}");
        }
        _ => panic!("unexpected answer"),
    }

    put.body = Some(Vec::new());
    assert!(matches!(
        WebService::handle_request(&put, &asns),
        Answer::Refused(OutputType::Plain, Refusal::InvalidText)
    ));
}

use iptoasn_webservice::client::{
    accept_header, as_name_path, as_subnets_path, body_content_type, ip_lookup_path, join_url,
    with_trailing_newline, AS_LIST_PATH, BULK_LOOKUP_PATH, DEFAULT_SERVER_URL,
};

#[test]
fn join_url_puts_one_slash_between_base_and_path() {
    assert_eq!(join_url("http://127.0.0.1:53661", "/v1/as/ip"), "http://127.0.0.1:53661/v1/as/ip");
    assert_eq!(join_url("http://127.0.0.1:53661/", "v1/as/ip"), "http://127.0.0.1:53661/v1/as/ip");
    assert_eq!(join_url("http://host///", "///v1/as/ips"), "http://host/v1/as/ips");
    assert_eq!(join_url("http://host", "v1"), "http://host/v1");
    assert_eq!(join_url("", ""), "/");
    assert_eq!(join_url("//", "//"), "/");
    assert_eq!(join_url("http://host/a/", "/b/"), "http://host/a/b/");
}

#[test]
fn requests_of_the_command_line_client() {
    assert_eq!(accept_header(true), "application/json");
    assert_eq!(accept_header(false), "text/plain");
    assert_eq!(ip_lookup_path(None), "/v1/as/ip");
    assert_eq!(ip_lookup_path(Some("1.2.3.4")), "/v1/as/ip/1.2.3.4");
    assert_eq!(as_name_path("AS15169"), "/v1/as/n/AS15169");
    assert_eq!(as_subnets_path("15169"), "/v1/as/n/15169/subnets");
    assert_eq!(join_url(DEFAULT_SERVER_URL, AS_LIST_PATH), "http://127.0.0.1:53661/v1/as/ns");
    assert_eq!(join_url(DEFAULT_SERVER_URL, BULK_LOOKUP_PATH), "http://127.0.0.1:53661/v1/as/ips");
    assert_eq!(body_content_type(" \n [\"1.1.1.1\"]"), "application/json");
    assert_eq!(body_content_type("[]"), "application/json");
    assert_eq!(body_content_type("1.1.1.1\n[2.2.2.2]"), "text/plain");
    assert_eq!(body_content_type(""), "text/plain");
    assert_eq!(with_trailing_newline("done"), "done\n");
    assert_eq!(with_trailing_newline("done\n"), "done\n");
    assert_eq!(with_trailing_newline(""), "\n");
    assert_eq!(with_trailing_newline("a\n\n"), "a\n\n");
}

#[test]
fn the_default_dataset() {
    assert_eq!(iptoasn_webservice::DEFAULT_DB_URL, "https://iptoasn.com/data/ip2asn-combined.tsv.gz");
}

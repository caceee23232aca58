use crate::text::{append_str, chars_of, ends_with, starts_with, string_of, trim_start, trimmed_start};
use vstd::prelude::*;

verus! {

/// `s` without the occurrences of `c` that stand at its end.
pub open spec fn without_trailing(s: Seq<char>, c: char) -> Seq<char>
    decreases s.len(),
{
    if s.len() > 0 && s.last() == c {
        without_trailing(s.drop_last(), c)
    } else {
        s
    }
}

/// `s` without the occurrences of `c` that stand at its start.
pub open spec fn without_leading(s: Seq<char>, c: char) -> Seq<char>
    decreases s.len(),
{
    if s.len() > 0 && s[0] == c {
        without_leading(s.skip(1), c)
    } else {
        s
    }
}

/// Joins the base address of a service and a path with exactly one slash:
/// the slashes at the end of `base` and those at the start of `path` are
/// dropped first.
pub fn join_url(base: &str, path: &str) -> (url: String)
    ensures
        url@ == without_trailing(base@, '/') + seq!['/'] + without_leading(path@, '/'),
{
    let b = chars_of(base);
    let p = chars_of(path);
    let mut end: usize = b.len();
    assert(b@.take(end as int) == b@);
    assert(p@.skip(0) == p@);
    while end > 0 && b[end - 1] == '/'
        invariant
            end <= b.len(),
            without_trailing(b@, '/') == without_trailing(b@.take(end as int), '/'),
        decreases end,
    {
        assert(b@.take(end as int).drop_last() == b@.take(end - 1));
        end -= 1;
    }
    let mut start: usize = 0;
    while start < p.len() && p[start] == '/'
        invariant
            start <= p.len(),
            without_leading(p@, '/') == without_leading(p@.skip(start as int), '/'),
        decreases p.len() - start,
    {
        assert(p@.skip(start as int).skip(1) == p@.skip(start + 1));
        start += 1;
    }
    let mut out: Vec<char> = Vec::new();
    let mut i: usize = 0;
    while i < end
        invariant
            i <= end <= b.len(),
            out@ == b@.take(i as int),
        decreases end - i,
    {
        out.push(b[i]);
        assert(b@.take(i + 1) == b@.take(i as int).push(b@[i as int]));
        i += 1;
    }
    out.push('/');
    i = start;
    while i < p.len()
        invariant
            start <= i <= p.len(),
            out@ == b@.take(end as int) + seq!['/'] + p@.subrange(start as int, i as int),
        decreases p.len() - i,
    {
        out.push(p[i]);
        assert(p@.subrange(start as int, i + 1) == p@.subrange(start as int, i as int).push(
            p@[i as int],
        ));
        i += 1;
    }
    assert(p@.subrange(start as int, p.len() as int) == p@.skip(start as int));
    string_of(&out)
}

/// Address of the service that is asked when none is configured.
pub const DEFAULT_SERVER_URL: &'static str = "http://127.0.0.1:53661";

/// Path of the list of all autonomous systems.
pub const AS_LIST_PATH: &'static str = "/v1/as/ns";

/// Path of the lookup of a list of addresses.
pub const BULK_LOOKUP_PATH: &'static str = "/v1/as/ips";

/// The value of the header `Accept` that asks for JSON or for plain text.
pub fn accept_header(use_json: bool) -> (value: &'static str)
    ensures
        value@ == if use_json {
            "application/json"@
        } else {
            "text/plain"@
        },
{
    if use_json {
        "application/json"
    } else {
        "text/plain"
    }
}

/// The path of the lookup of an address, or of the address of whoever asks
/// where none is given.
pub fn ip_lookup_path(ip: Option<&str>) -> (path: String)
    ensures
        path@ == match ip {
            Some(ip) => "/v1/as/ip/"@ + ip@,
            None => "/v1/as/ip"@,
        },
{
    let mut out: Vec<char> = Vec::new();
    match ip {
        Some(ip) => {
            append_str(&mut out, "/v1/as/ip/");
            append_str(&mut out, ip);
        },
        None => {
            append_str(&mut out, "/v1/as/ip");
        },
    }
    string_of(&out)
}

/// The path of the name of an autonomous system.
pub fn as_name_path(asn: &str) -> (path: String)
    ensures
        path@ == "/v1/as/n/"@ + asn@,
{
    let mut out: Vec<char> = Vec::new();
    append_str(&mut out, "/v1/as/n/");
    append_str(&mut out, asn);
    string_of(&out)
}

/// The path of the subnets of an autonomous system.
pub fn as_subnets_path(asn: &str) -> (path: String)
    ensures
        path@ == "/v1/as/n/"@ + asn@ + "/subnets"@,
{
    let mut out: Vec<char> = Vec::new();
    append_str(&mut out, "/v1/as/n/");
    append_str(&mut out, asn);
    append_str(&mut out, "/subnets");
    string_of(&out)
}

/// The value of the header `Content-Type` for a list of addresses: JSON
/// where the text begins, after white space, with an opening bracket, and
/// plain text otherwise.
pub fn body_content_type(text: &str) -> (value: &'static str)
    ensures
        value@ == if starts_with(trim_start(text@), seq!['[']) {
            "application/json"@
        } else {
            "text/plain"@
        },
{
    let start = trimmed_start(&chars_of(text));
    let bracket = start.len() > 0 && start[0] == '[';
    assert(bracket == starts_with(start@, seq!['['])) by {
        if start.len() > 0 {
            assert(start@.take(1) =~= seq![start@[0]]);
        }
        if starts_with(start@, seq!['[']) {
            assert(start@.take(1)[0] == '[');
        }
    }
    if bracket {
        "application/json"
    } else {
        "text/plain"
    }
}

/// The text as it is printed: with a line feed at its end, which is added
/// where the text has none.
pub fn with_trailing_newline(s: &str) -> (text: String)
    ensures
        text@ == if ends_with(s@, seq!['\n']) {
            s@
        } else {
            s@ + seq!['\n']
        },
{
    let mut out = chars_of(s);
    let ended = out.len() > 0 && out[out.len() - 1] == '\n';
    assert(ended == ends_with(s@, seq!['\n'])) by {
        if out.len() > 0 {
            assert(s@.skip(s@.len() - 1) =~= seq![s@[s@.len() - 1]]);
        }
        if ends_with(s@, seq!['\n']) {
            assert(s@.skip(s@.len() - 1)[0] == '\n');
        }
    }
    if !ended {
        out.push('\n');
    }
    string_of(&out)
}

} // verus!

use crate::asns::{announcing, ranges_of, Asn, Asns, AsnView, AsnsView};
use crate::cidr::{cidr_texts, cover_of, range_to_blocks};
use crate::ip::IpAddress;
use crate::ip_text::{ip_of, ip_text, parse_ip, push_ip};
use crate::text::{
    append, ascii_lowercase, chars_of, contains_text, decimal_text, ends_with, has_prefix,
    has_text, is_text, lowercased, matches_at, parse_u32, push_decimal,
    slice_of, split, split_at_char, starts_with, string_of, texts_of, trim, trim_start, trimmed,
    trimmed_start, u32_of,
};
use vstd::prelude::*;

verus! {

/// Number of seconds for which an answer may be kept by whoever asked.
pub const TTL: u32 = 86_400;

/// The web service: what it answers, apart from the sockets it answers on.
pub struct WebService;

/// The form in which an answer is written.
#[derive(Clone, Copy, Debug, PartialEq, Eq, Structural)]
pub enum OutputType {
    Json,
    Html,
    Plain,
}

/// The form in which the body of a request is written.
#[derive(Clone, Copy, Debug, PartialEq, Eq, Structural)]
pub enum BodyInputType {
    Json,
    Plain,
}

/// The method of a request, as far as the service tells methods apart.
#[derive(Clone, Copy, Debug, PartialEq, Eq, Structural)]
pub enum Method {
    Get,
    Put,
    Other,
}

/// What a request asks for.
pub enum Route {
    /// The name of the service.
    Index,
    /// The lookup of the address of whoever asks.
    OwnIp,
    /// The lookup of the address that the path names.
    Ip(String),
    /// A lookup by number whose path names no number.
    MissingAsNumber,
    /// The subnets of the autonomous system that the path names.
    Subnets(String),
    /// The name of the autonomous system that the path names.
    AsName(String),
    /// The lookup of the addresses in the body.
    Ips,
    /// Nothing that the service offers.
    NotFound,
}

/// What a [`Route`] holds, with its texts as sequences of characters.
pub enum RouteView {
    Index,
    OwnIp,
    Ip(Seq<char>),
    MissingAsNumber,
    Subnets(Seq<char>),
    AsName(Seq<char>),
    Ips,
    NotFound,
}

impl View for Route {
    type V = RouteView;

    open spec fn view(&self) -> RouteView {
        match self {
            Route::Index => RouteView::Index,
            Route::OwnIp => RouteView::OwnIp,
            Route::Ip(ip) => RouteView::Ip(ip@),
            Route::MissingAsNumber => RouteView::MissingAsNumber,
            Route::Subnets(number) => RouteView::Subnets(number@),
            Route::AsName(number) => RouteView::AsName(number@),
            Route::Ips => RouteView::Ips,
            Route::NotFound => RouteView::NotFound,
        }
    }
}

/// What a request with the given method and path asks for.
pub open spec fn route_of(method: Method, path: Seq<char>) -> RouteView {
    if method == Method::Get {
        if path == "/"@ {
            RouteView::Index
        } else if path == "/v1/as/ip"@ {
            RouteView::OwnIp
        } else if starts_with(path, "/v1/as/ip/"@) {
            RouteView::Ip(path.skip("/v1/as/ip/"@.len() as int))
        } else if path == "/v1/as/n"@ {
            RouteView::MissingAsNumber
        } else if starts_with(path, "/v1/as/n/"@) {
            let rest = path.skip("/v1/as/n/"@.len() as int);
            if ends_with(path, "/subnets"@) {
                if ends_with(rest, "/subnets"@) {
                    RouteView::Subnets(rest.take(rest.len() - "/subnets"@.len()))
                } else {
                    RouteView::Subnets(rest)
                }
            } else {
                RouteView::AsName(rest)
            }
        } else {
            RouteView::NotFound
        }
    } else if method == Method::Put && path == "/v1/as/ips"@ {
        RouteView::Ips
    } else {
        RouteView::NotFound
    }
}

/// The number of an autonomous system as `input` writes it: decimal digits,
/// which `AS` or `as` may precede, with white space around it.
pub open spec fn as_number_of(input: Seq<char>) -> Option<u32> {
    let s = trim(input);
    if starts_with(s, "AS"@) {
        u32_of(s.skip("AS"@.len() as int))
    } else if starts_with(s, "as"@) {
        u32_of(s.skip("as"@.len() as int))
    } else {
        u32_of(s)
    }
}

/// The form of answer that an `Accept` header asks for: JSON where it names
/// `application/json`, else plain text where it names `text/plain`, and
/// else HTML, also where the header is missing.
pub open spec fn accept_type_of(accept: Option<Seq<char>>) -> OutputType {
    match accept {
        Some(value) => if contains_text(value, "application/json"@) {
            OutputType::Json
        } else if contains_text(value, "text/plain"@) {
            OutputType::Plain
        } else {
            OutputType::Html
        },
        None => OutputType::Html,
    }
}

/// The form of body that a `Content-Type` header announces: what stands
/// before its first semicolon, trimmed and in lower case, is
/// `application/json` or `text/plain`, or else names no form that the
/// service reads.
pub open spec fn body_input_type_of(content_type: Option<Seq<char>>) -> Option<BodyInputType> {
    match content_type {
        Some(value) => {
            let main = ascii_lowercase(trim(split(value, ';')[0]));
            if main == "application/json"@ {
                Some(BodyInputType::Json)
            } else if main == "text/plain"@ {
                Some(BodyInputType::Plain)
            } else {
                None
            }
        },
        None => None,
    }
}

/// The address of whoever asks: what the header `x-real-ip` says, or else
/// the first entry of the header `x-forwarded-for`, trimmed, unless it is
/// empty, or else the address of the peer.
pub open spec fn client_ip_of(
    x_real_ip: Option<Seq<char>>,
    x_forwarded_for: Option<Seq<char>>,
    remote_ip: Seq<char>,
) -> Seq<char> {
    match x_real_ip {
        Some(ip) => ip,
        None => match x_forwarded_for {
            Some(list) => if trim(split(list, ',')[0]).len() > 0 {
                trim(split(list, ',')[0])
            } else {
                remote_ip
            },
            None => remote_ip,
        },
    }
}

/// How far the reading of a list of addresses has come.
pub struct ListState {
    /// The addresses taken so far.
    pub ips: Seq<Seq<char>>,
    /// Whether the last marker was `begin`.
    pub in_block: bool,
    /// Whether a `begin` marker was met.
    pub saw_begin: bool,
}

/// The state after one more line. The line is trimmed; an empty line counts
/// for nothing. The markers `begin` and `end`, in any case, open and close
/// a block. Before the first `begin` every line is an address; from then on
/// only the lines within blocks are.
pub open spec fn list_after_line(state: ListState, line: Seq<char>) -> ListState {
    let entry = trim(line);
    if entry.len() == 0 {
        state
    } else if ascii_lowercase(entry) == "begin"@ {
        ListState { in_block: true, saw_begin: true, ..state }
    } else if ascii_lowercase(entry) == "end"@ {
        ListState { in_block: false, ..state }
    } else if !state.saw_begin || state.in_block {
        ListState { ips: state.ips.push(entry), ..state }
    } else {
        state
    }
}

/// The state after the lines of `lines`, in their order.
pub open spec fn list_after_lines(lines: Seq<Seq<char>>) -> ListState
    decreases lines.len(),
{
    if lines.len() == 0 {
        ListState { ips: Seq::empty(), in_block: false, saw_begin: false }
    } else {
        list_after_line(list_after_lines(lines.drop_last()), lines.last())
    }
}

/// The addresses that a body of plain text lists, one per line (see
/// [`list_after_line`]). A carriage return before the line feed goes with
/// the white space around the line.
pub open spec fn plain_ip_list_of(body: Seq<char>) -> Seq<Seq<char>> {
    list_after_lines(split(body, '\n')).ips
}

/// The texts of a list of strings.
pub open spec fn strings_of(list: Seq<String>) -> Seq<Seq<char>> {
    Seq::new(list.len(), |i: int| list[i]@)
}

impl WebService {
    /// What a request with the given method and path asks for.
    pub fn route(method: Method, path: &str) -> (route: Route)
        ensures
            route@ == route_of(method, path@),
    {
        let p = chars_of(path);
        match method {
            Method::Get => {
                if is_text(&p, "/") {
                    Route::Index
                } else if is_text(&p, "/v1/as/ip") {
                    Route::OwnIp
                } else if has_prefix(&p, "/v1/as/ip/") {
                    let prefix = chars_of("/v1/as/ip/");
                    assert(p@.subrange(prefix.len() as int, p.len() as int) == p@.skip(
                        prefix.len() as int,
                    ));
                    Route::Ip(string_of(&slice_of(&p, prefix.len(), p.len())))
                } else if is_text(&p, "/v1/as/n") {
                    Route::MissingAsNumber
                } else if has_prefix(&p, "/v1/as/n/") {
                    let prefix = chars_of("/v1/as/n/");
                    let suffix = chars_of("/subnets");
                    let rest = slice_of(&p, prefix.len(), p.len());
                    assert(rest@ == p@.skip(prefix.len() as int));
                    let path_ends = suffix.len() <= p.len() && matches_at(
                        &p,
                        p.len() - suffix.len(),
                        &suffix,
                    );
                    assert(path_ends == ends_with(p@, "/subnets"@)) by {
                        if suffix.len() <= p.len() {
                            assert(p@.subrange(p.len() - suffix.len(), p.len() as int) == p@.skip(
                                p.len() - suffix.len(),
                            ));
                        }
                    }
                    if path_ends {
                        let rest_ends = suffix.len() <= rest.len() && matches_at(
                            &rest,
                            rest.len() - suffix.len(),
                            &suffix,
                        );
                        assert(rest_ends == ends_with(rest@, "/subnets"@)) by {
                            if suffix.len() <= rest.len() {
                                assert(rest@.subrange(rest.len() - suffix.len(), rest.len() as int)
                                    == rest@.skip(rest.len() - suffix.len()));
                            }
                        }
                        if rest_ends {
                            assert(rest@.subrange(0, rest.len() - suffix.len()) == rest@.take(
                                rest.len() - suffix.len(),
                            ));
                            Route::Subnets(
                                string_of(&slice_of(&rest, 0, rest.len() - suffix.len())),
                            )
                        } else {
                            Route::Subnets(string_of(&rest))
                        }
                    } else {
                        Route::AsName(string_of(&rest))
                    }
                } else {
                    Route::NotFound
                }
            },
            Method::Put => {
                if is_text(&p, "/v1/as/ips") {
                    Route::Ips
                } else {
                    Route::NotFound
                }
            },
            Method::Other => Route::NotFound,
        }
    }

    /// Reads the number of an autonomous system (see [`as_number_of`]).
    pub fn parse_as_number(input: &str) -> (number: Option<u32>)
        ensures
            number == as_number_of(input@),
    {
        let s = trimmed(&chars_of(input));
        if has_prefix(&s, "AS") {
            let prefix = chars_of("AS");
            assert(s@.subrange(prefix.len() as int, s.len() as int) == s@.skip(
                prefix.len() as int,
            ));
            parse_u32(&slice_of(&s, prefix.len(), s.len()))
        } else if has_prefix(&s, "as") {
            let prefix = chars_of("as");
            assert(s@.subrange(prefix.len() as int, s.len() as int) == s@.skip(
                prefix.len() as int,
            ));
            parse_u32(&slice_of(&s, prefix.len(), s.len()))
        } else {
            parse_u32(&s)
        }
    }

    /// The form of answer that the `Accept` header asks for (see
    /// [`accept_type_of`]).
    pub fn accept_type(accept: Option<&str>) -> (output: OutputType)
        ensures
            output == accept_type_of(
                match accept {
                    Some(value) => Some(value@),
                    None => None,
                },
            ),
    {
        match accept {
            Some(value) => {
                let v = chars_of(value);
                if has_text(&v, "application/json") {
                    OutputType::Json
                } else if has_text(&v, "text/plain") {
                    OutputType::Plain
                } else {
                    OutputType::Html
                }
            },
            None => OutputType::Html,
        }
    }

    /// The form of body that the `Content-Type` header announces (see
    /// [`body_input_type_of`]).
    pub fn body_input_type(content_type: Option<&str>) -> (input: Option<BodyInputType>)
        ensures
            input == body_input_type_of(
                match content_type {
                    Some(value) => Some(value@),
                    None => None,
                },
            ),
    {
        match content_type {
            Some(value) => {
                let parts = split_at_char(&chars_of(value), ';');
                assert(texts_of(parts@)[0] == parts@[0]@);
                let main = lowercased(&trimmed(&parts[0]));
                if is_text(&main, "application/json") {
                    Some(BodyInputType::Json)
                } else if is_text(&main, "text/plain") {
                    Some(BodyInputType::Plain)
                } else {
                    None
                }
            },
            None => None,
        }
    }

    /// The address of whoever asks (see [`client_ip_of`]).
    pub fn extract_client_ip(
        x_real_ip: Option<&str>,
        x_forwarded_for: Option<&str>,
        remote_ip: &str,
    ) -> (ip: String)
        ensures
            ip@ == client_ip_of(
                match x_real_ip {
                    Some(value) => Some(value@),
                    None => None,
                },
                match x_forwarded_for {
                    Some(value) => Some(value@),
                    None => None,
                },
                remote_ip@,
            ),
    {
        if let Some(ip) = x_real_ip {
            return string_of(&chars_of(ip));
        }
        if let Some(list) = x_forwarded_for {
            let parts = split_at_char(&chars_of(list), ',');
            assert(texts_of(parts@)[0] == parts@[0]@);
            let first = trimmed(&parts[0]);
            if first.len() > 0 {
                return string_of(&first);
            }
        }
        string_of(&chars_of(remote_ip))
    }

    /// Reads a list of addresses from a body of plain text (see
    /// [`plain_ip_list_of`]).
    pub fn parse_plain_ip_list(body: &str) -> (ips: Vec<String>)
        ensures
            strings_of(ips@) == plain_ip_list_of(body@),
    {
        let lines = split_at_char(&chars_of(body), '\n');
        let ghost all = texts_of(lines@);
        let mut ips: Vec<String> = Vec::new();
        let mut in_block = false;
        let mut saw_begin = false;
        let mut i: usize = 0;
        assert(all.take(0) =~= Seq::<Seq<char>>::empty());
        assert(strings_of(ips@) =~= Seq::<Seq<char>>::empty());
        while i < lines.len()
            invariant
                i <= lines.len(),
                all == texts_of(lines@),
                list_after_lines(all.take(i as int)) == (ListState {
                    ips: strings_of(ips@),
                    in_block,
                    saw_begin,
                }),
            decreases lines.len() - i,
        {
            proof {
                let now = all.take(i + 1);
                assert(now.drop_last() == all.take(i as int));
                assert(now.last() == lines@[i as int]@);
            }
            let entry = trimmed(&lines[i]);
            if entry.len() > 0 {
                let lower = lowercased(&entry);
                if is_text(&lower, "begin") {
                    in_block = true;
                    saw_begin = true;
                } else if is_text(&lower, "end") {
                    in_block = false;
                } else if !saw_begin || in_block {
                    let ghost before = strings_of(ips@);
                    ips.push(string_of(&entry));
                    assert(strings_of(ips@) =~= before.push(entry@));
                }
            }
            i += 1;
        }
        assert(all.take(lines.len() as int) == all);
        ips
    }
}

/// The answer to the lookup of one address.
pub struct IpLookupResponse {
    /// The address that was asked for.
    pub ip: String,
    /// The record that announces the address, if one does.
    pub found: Option<Asn>,
}

/// What an [`IpLookupResponse`] holds.
pub struct IpLookupResponseView {
    pub ip: Seq<char>,
    pub found: Option<AsnView>,
}

impl View for IpLookupResponse {
    type V = IpLookupResponseView;

    open spec fn view(&self) -> IpLookupResponseView {
        IpLookupResponseView {
            ip: self.ip@,
            found: match self.found {
                Some(record) => Some(record@),
                None => None,
            },
        }
    }
}

/// The name of an autonomous system.
pub struct AsNameResponse {
    pub as_number: u32,
    pub as_country_code: String,
    pub as_description: String,
}

/// What an [`AsNameResponse`] holds.
pub struct AsNameResponseView {
    pub as_number: u32,
    pub as_country_code: Seq<char>,
    pub as_description: Seq<char>,
}

impl View for AsNameResponse {
    type V = AsNameResponseView;

    open spec fn view(&self) -> AsNameResponseView {
        AsNameResponseView {
            as_number: self.as_number,
            as_country_code: self.as_country_code@,
            as_description: self.as_description@,
        }
    }
}

/// The subnets of an autonomous system.
pub struct AsSubnetsResponse {
    pub as_number: u32,
    pub subnets: Vec<String>,
}

/// What an [`AsSubnetsResponse`] holds.
pub struct AsSubnetsResponseView {
    pub as_number: u32,
    pub subnets: Seq<Seq<char>>,
}

impl View for AsSubnetsResponse {
    type V = AsSubnetsResponseView;

    open spec fn view(&self) -> AsSubnetsResponseView {
        AsSubnetsResponseView { as_number: self.as_number, subnets: strings_of(self.subnets@) }
    }
}

/// The views of a list of answers.
pub open spec fn responses_of(list: Seq<IpLookupResponse>) -> Seq<IpLookupResponseView> {
    Seq::new(list.len(), |i: int| list[i]@)
}

/// The answer to the lookup of the address that `ip_s` spells. A text that
/// spells no address is handed back as it is, unannounced; an address is
/// handed back in its usual text, with the record that announces it.
pub open spec fn ip_lookup_of(ip_s: Seq<char>, records: Seq<AsnView>) -> IpLookupResponseView {
    match ip_of(ip_s) {
        None => IpLookupResponseView { ip: ip_s, found: None },
        Some(ip) => IpLookupResponseView { ip: ip_text(ip), found: announcing(records, ip) },
    }
}

/// The answer to one address of a list. It differs from [`ip_lookup_of`]
/// in one point: an address that nobody announces is handed back as it was
/// written.
pub open spec fn bulk_entry_of(ip_s: Seq<char>, records: Seq<AsnView>) -> IpLookupResponseView {
    match ip_of(ip_s) {
        None => IpLookupResponseView { ip: ip_s, found: None },
        Some(ip) => match announcing(records, ip) {
            Some(record) => IpLookupResponseView { ip: ip_text(ip), found: Some(record) },
            None => IpLookupResponseView { ip: ip_s, found: None },
        },
    }
}

/// The answers to the addresses of a list, in their order.
pub open spec fn bulk_lookup_of(ips: Seq<Seq<char>>, records: Seq<AsnView>) -> Seq<
    IpLookupResponseView,
> {
    Seq::new(ips.len(), |i: int| bulk_entry_of(ips[i], records))
}

/// The name of the autonomous system with the given number: what the
/// Metadata Registry holds for it, or else the country `None` and the
/// description `Not found`.
pub open spec fn as_name_of(number: u32, meta: Map<u32, (Seq<char>, Seq<char>)>) -> AsNameResponseView {
    if meta.contains_key(number) {
        AsNameResponseView {
            as_number: number,
            as_country_code: meta[number].0,
            as_description: meta[number].1,
        }
    } else {
        AsNameResponseView {
            as_number: number,
            as_country_code: "None"@,
            as_description: "Not found"@,
        }
    }
}

/// The CIDR blocks of a list of ranges, range after range.
pub open spec fn cidrs_of_ranges(ranges: Seq<(IpAddress, IpAddress)>) -> Seq<Seq<char>>
    decreases ranges.len(),
{
    if ranges.len() == 0 {
        Seq::empty()
    } else {
        cidrs_of_ranges(ranges.drop_last()) + cidr_texts(cover_of(ranges.last().0, ranges.last().1))
    }
}

/// The subnets of the autonomous system with the given number: the CIDR
/// blocks of its ranges, in ascending order. The number 0, which stands for
/// what nobody announces, and a number that the Metadata Registry does not
/// know have no subnets.
pub open spec fn subnets_of(number: u32, asns: AsnsView) -> Seq<Seq<char>> {
    if number == 0 || !asns.meta.contains_key(number) {
        Seq::empty()
    } else {
        cidrs_of_ranges(ranges_of(asns.records, number))
    }
}

/// The CIDR blocks of the range between the addresses that the two texts
/// spell. There is none where a text spells no address, where the
/// addresses belong to different families, and where the first lies above
/// the last.
pub open spec fn range_to_cidrs_of(first_s: Seq<char>, last_s: Seq<char>) -> Seq<Seq<char>> {
    match (ip_of(first_s), ip_of(last_s)) {
        (Some(first), Some(last)) => cidr_texts(cover_of(first, last)),
        _ => Seq::empty(),
    }
}

/// The line of plain text that answers the lookup of one address.
pub open spec fn plain_of(response: IpLookupResponseView) -> Seq<char> {
    match response.found {
        Some(record) => decimal_text(record.number as nat) + " | "@ + ip_text(record.first_ip)
            + "-"@ + ip_text(record.last_ip) + " | "@ + record.country + " | "@
            + record.description,
        None => "- | "@ + response.ip + " | - | Not announced"@,
    }
}

/// `s` followed by as many blanks as it takes to reach `width` characters.
pub open spec fn padded(s: Seq<char>, width: nat) -> Seq<char> {
    if s.len() >= width {
        s
    } else {
        s + Seq::new((width - s.len()) as nat, |i: int| ' ')
    }
}

/// Number of bytes that a text takes in UTF-8, as the length of a string
/// tells it.
pub open spec fn byte_len(s: Seq<char>) -> usize {
    vstd::utf8::encode_utf8(s).len() as usize
}

/// The width of the column of addresses in a table of answers: the largest
/// number of bytes that an address takes in UTF-8, and at least 20.
pub open spec fn column_width(responses: Seq<IpLookupResponseView>) -> nat
    decreases responses.len(),
{
    if responses.len() == 0 {
        20
    } else {
        let before = column_width(responses.drop_last());
        let bytes = byte_len(responses.last().ip) as nat;
        if bytes > before {
            bytes
        } else {
            before
        }
    }
}

/// One row of the table of answers: the number, the address and the name,
/// with the first two padded to the width of their columns.
pub open spec fn table_row_of(response: IpLookupResponseView, width: nat) -> Seq<char> {
    padded(
        match response.found {
            Some(record) => decimal_text(record.number as nat),
            None => "-"@,
        },
        8,
    ) + " | "@ + padded(response.ip, width) + " | "@ + (match response.found {
        Some(record) => record.description + ", "@ + record.country,
        None => "Not announced"@,
    }) + seq!['\n']
}

/// The rows of the table of answers, one after the other.
pub open spec fn table_rows_of(responses: Seq<IpLookupResponseView>, width: nat) -> Seq<char>
    decreases responses.len(),
{
    if responses.len() == 0 {
        Seq::empty()
    } else {
        table_rows_of(responses.drop_last(), width) + table_row_of(responses.last(), width)
    }
}

/// The table of plain text that answers the lookup of a list of addresses.
pub open spec fn plain_table_of(responses: Seq<IpLookupResponseView>) -> Seq<char> {
    table_rows_of(responses, column_width(responses))
}

/// The line of plain text that gives the name of an autonomous system.
pub open spec fn as_name_plain_of(name: AsNameResponseView) -> Seq<char> {
    decimal_text(name.as_number as nat) + " | "@ + name.as_country_code + " | "@
        + name.as_description
}

/// The plain text that lists subnets: each one followed by a line feed.
pub open spec fn subnets_plain_of(subnets: Seq<Seq<char>>) -> Seq<char>
    decreases subnets.len(),
{
    if subnets.len() == 0 {
        Seq::empty()
    } else {
        subnets_plain_of(subnets.drop_last()) + subnets.last() + seq!['\n']
    }
}

/// Appends `s` to `out` and pads it with blanks to `width` characters.
fn push_padded(out: &mut Vec<char>, s: &Vec<char>, width: usize)
    ensures
        final(out)@ == old(out)@ + padded(s@, width as nat),
{
    append(out, s);
    let mut n: usize = s.len();
    while n < width
        invariant
            s.len() <= n,
            n <= width || s.len() >= width,
            s.len() >= width ==> n == s.len(),
            out@ == old(out)@ + s@ + Seq::new((n - s.len()) as nat, |i: int| ' '),
        decreases width - n,
    {
        out.push(' ');
        n += 1;
        assert(out@ =~= old(out)@ + s@ + Seq::new((n - s.len()) as nat, |i: int| ' '));
    }
    assert(out@ =~= old(out)@ + padded(s@, width as nat));
}

impl WebService {
    /// Looks up the address that `ip_s` spells (see [`ip_lookup_of`]).
    pub fn ip_lookup(ip_s: &str, asns: &Asns) -> (response: IpLookupResponse)
        ensures
            response@ == ip_lookup_of(ip_s@, asns@.records),
    {
        let text = chars_of(ip_s);
        match parse_ip(&text) {
            None => IpLookupResponse { ip: string_of(&text), found: None },
            Some(ip) => {
                let found = match asns.lookup_by_ip(ip) {
                    Some(record) => Some(record.duplicate()),
                    None => None,
                };
                IpLookupResponse { ip: ip.to_text(), found }
            },
        }
    }

    /// Looks up the addresses of a list (see [`bulk_lookup_of`]).
    pub fn bulk_lookup(ips: &Vec<String>, asns: &Asns) -> (responses: Vec<IpLookupResponse>)
        ensures
            responses_of(responses@) == bulk_lookup_of(strings_of(ips@), asns@.records),
    {
        let mut responses: Vec<IpLookupResponse> = Vec::new();
        let mut i: usize = 0;
        while i < ips.len()
            invariant
                i <= ips.len(),
                responses@.len() == i,
                forall|j: int|
                    0 <= j < i ==> (#[trigger] responses@[j])@ == bulk_entry_of(
                        ips@[j]@,
                        asns@.records,
                    ),
            decreases ips.len() - i,
        {
            let text = chars_of(ips[i].as_str());
            let response = match parse_ip(&text) {
                None => IpLookupResponse { ip: string_of(&text), found: None },
                Some(ip) => match asns.lookup_by_ip(ip) {
                    Some(record) => IpLookupResponse {
                        ip: ip.to_text(),
                        found: Some(record.duplicate()),
                    },
                    None => IpLookupResponse { ip: string_of(&text), found: None },
                },
            };
            responses.push(response);
            i += 1;
        }
        assert(responses_of(responses@) =~= bulk_lookup_of(strings_of(ips@), asns@.records));
        responses
    }

    /// Looks up the name of the autonomous system that `asn_s` names (see
    /// [`as_name_of`]); `None` where `asn_s` names no number.
    pub fn as_name_lookup(asn_s: &str, asns: &Asns) -> (name: Option<AsNameResponse>)
        ensures
            match as_number_of(asn_s@) {
                Some(number) => name is Some && name->0@ == as_name_of(number, asns@.meta),
                None => name is None,
            },
    {
        let number = match WebService::parse_as_number(asn_s) {
            Some(number) => number,
            None => {
                return None;
            },
        };
        match asns.lookup_meta_by_asn(number) {
            Some(texts) => Some(
                AsNameResponse {
                    as_number: number,
                    as_country_code: (*texts.0).clone(),
                    as_description: (*texts.1).clone(),
                },
            ),
            None => Some(
                AsNameResponse {
                    as_number: number,
                    as_country_code: string_of(&chars_of("None")),
                    as_description: string_of(&chars_of("Not found")),
                },
            ),
        }
    }

    /// Re-expresses the range between two addresses, given as texts, as
    /// CIDR blocks (see [`range_to_cidrs_of`]).
    pub fn range_to_cidrs(first_s: &str, last_s: &str) -> (cidrs: Vec<String>)
        ensures
            strings_of(cidrs@) == range_to_cidrs_of(first_s@, last_s@),
    {
        let mut cidrs: Vec<String> = Vec::new();
        let first = match parse_ip(&chars_of(first_s)) {
            Some(ip) => ip,
            None => {
                assert(strings_of(cidrs@) =~= Seq::<Seq<char>>::empty());
                return cidrs;
            },
        };
        let last = match parse_ip(&chars_of(last_s)) {
            Some(ip) => ip,
            None => {
                assert(strings_of(cidrs@) =~= Seq::<Seq<char>>::empty());
                return cidrs;
            },
        };
        WebService::push_cidrs(&mut cidrs, first, last);
        assert(strings_of(cidrs@) =~= cidr_texts(cover_of(first, last)));
        cidrs
    }

    /// Appends the CIDR blocks of the range from `first` to `last` to `out`.
    fn push_cidrs(out: &mut Vec<String>, first: IpAddress, last: IpAddress)
        ensures
            strings_of(final(out)@) == strings_of(old(out)@) + cidr_texts(cover_of(first, last)),
    {
        let blocks = range_to_blocks(first, last);
        let mut i: usize = 0;
        assert(strings_of(out@) =~= strings_of(old(out)@) + cidr_texts(blocks@.take(0)));
        while i < blocks.len()
            invariant
                i <= blocks.len(),
                strings_of(out@) == strings_of(old(out)@) + cidr_texts(blocks@.take(i as int)),
            decreases blocks.len() - i,
        {
            let ghost before = strings_of(out@);
            out.push(blocks[i].to_text());
            assert(strings_of(out@) =~= before.push(crate::cidr::cidr_text(blocks@[i as int])));
            assert(cidr_texts(blocks@.take(i + 1)) =~= cidr_texts(blocks@.take(i as int)).push(
                crate::cidr::cidr_text(blocks@[i as int]),
            ));
            i += 1;
        }
        assert(blocks@.take(blocks.len() as int) == blocks@);
    }

    /// Lists the subnets of the autonomous system that `asn_s` names (see
    /// [`subnets_of`]); `None` where `asn_s` names no number.
    pub fn as_subnets_lookup(asn_s: &str, asns: &Asns) -> (subnets: Option<AsSubnetsResponse>)
        ensures
            match as_number_of(asn_s@) {
                Some(number) => subnets is Some && subnets->0@ == (AsSubnetsResponseView {
                    as_number: number,
                    subnets: subnets_of(number, asns@),
                }),
                None => subnets is None,
            },
    {
        let number = match WebService::parse_as_number(asn_s) {
            Some(number) => number,
            None => {
                return None;
            },
        };
        let mut subnets: Vec<String> = Vec::new();
        assert(strings_of(subnets@) =~= Seq::<Seq<char>>::empty());
        if number == 0 {
            return Some(AsSubnetsResponse { as_number: number, subnets });
        }
        if asns.lookup_meta_by_asn(number).is_none() {
            return Some(AsSubnetsResponse { as_number: number, subnets });
        }
        let ranges = asns.collect_ranges_by_asn(number);
        let mut i: usize = 0;
        assert(ranges@.take(0) =~= Seq::<(IpAddress, IpAddress)>::empty());
        while i < ranges.len()
            invariant
                i <= ranges.len(),
                strings_of(subnets@) == cidrs_of_ranges(ranges@.take(i as int)),
            decreases ranges.len() - i,
        {
            proof {
                let now = ranges@.take(i + 1);
                assert(now.drop_last() == ranges@.take(i as int));
                assert(now.last() == ranges@[i as int]);
            }
            let (first, last) = ranges[i];
            WebService::push_cidrs(&mut subnets, first, last);
            i += 1;
        }
        assert(ranges@.take(ranges.len() as int) == ranges@);
        Some(AsSubnetsResponse { as_number: number, subnets })
    }

    /// Writes the answer to the lookup of one address as a line of plain
    /// text (see [`plain_of`]).
    pub fn output_plain(response: &IpLookupResponse) -> (text: String)
        ensures
            text@ == plain_of(response@),
    {
        let mut out: Vec<char> = Vec::new();
        match &response.found {
            Some(record) => {
                push_decimal(&mut out, record.number);
                crate::text::append_str(&mut out, " | ");
                push_ip(&mut out, record.first_ip);
                crate::text::append_str(&mut out, "-");
                push_ip(&mut out, record.last_ip);
                crate::text::append_str(&mut out, " | ");
                crate::text::append_str(&mut out, record.country.as_str());
                crate::text::append_str(&mut out, " | ");
                crate::text::append_str(&mut out, record.description.as_str());
            },
            None => {
                crate::text::append_str(&mut out, "- | ");
                crate::text::append_str(&mut out, response.ip.as_str());
                crate::text::append_str(&mut out, " | - | Not announced");
            },
        }
        assert(out@ =~= plain_of(response@));
        string_of(&out)
    }

    /// Writes the answers to the lookup of a list of addresses as a table
    /// of plain text (see [`plain_table_of`]).
    pub fn output_plain_vec(responses: &Vec<IpLookupResponse>) -> (text: String)
        ensures
            text@ == plain_table_of(responses_of(responses@)),
    {
        let ghost all = responses_of(responses@);
        let mut width: usize = 20;
        let mut i: usize = 0;
        assert(all.take(0) =~= Seq::<IpLookupResponseView>::empty());
        while i < responses.len()
            invariant
                i <= responses.len(),
                all == responses_of(responses@),
                width == column_width(all.take(i as int)),
            decreases responses.len() - i,
        {
            proof {
                let now = all.take(i + 1);
                assert(now.drop_last() == all.take(i as int));
                assert(now.last() == responses@[i as int]@);
            }
            let bytes = responses[i].ip.as_str().len();
            if bytes > width {
                width = bytes;
            }
            i += 1;
        }
        assert(all.take(responses.len() as int) == all);
        let mut out: Vec<char> = Vec::new();
        i = 0;
        while i < responses.len()
            invariant
                i <= responses.len(),
                all == responses_of(responses@),
                out@ == table_rows_of(all.take(i as int), width as nat),
            decreases responses.len() - i,
        {
            proof {
                let now = all.take(i + 1);
                assert(now.drop_last() == all.take(i as int));
                assert(now.last() == responses@[i as int]@);
            }
            let ghost before = out@;
            let response = &responses[i];
            let mut number: Vec<char> = Vec::new();
            let mut name: Vec<char> = Vec::new();
            match &response.found {
                Some(record) => {
                    push_decimal(&mut number, record.number);
                    crate::text::append_str(&mut name, record.description.as_str());
                    crate::text::append_str(&mut name, ", ");
                    crate::text::append_str(&mut name, record.country.as_str());
                },
                None => {
                    crate::text::append_str(&mut number, "-");
                    crate::text::append_str(&mut name, "Not announced");
                },
            }
            push_padded(&mut out, &number, 8);
            crate::text::append_str(&mut out, " | ");
            push_padded(&mut out, &chars_of(response.ip.as_str()), width);
            crate::text::append_str(&mut out, " | ");
            append(&mut out, &name);
            out.push('\n');
            assert(out@ =~= before + table_row_of(responses@[i as int]@, width as nat));
            i += 1;
        }
        assert(all.take(responses.len() as int) == all);
        string_of(&out)
    }

    /// Writes the name of an autonomous system as a line of plain text (see
    /// [`as_name_plain_of`]).
    pub fn output_as_name_plain(name: &AsNameResponse) -> (text: String)
        ensures
            text@ == as_name_plain_of(name@),
    {
        let mut out: Vec<char> = Vec::new();
        push_decimal(&mut out, name.as_number);
        crate::text::append_str(&mut out, " | ");
        crate::text::append_str(&mut out, name.as_country_code.as_str());
        crate::text::append_str(&mut out, " | ");
        crate::text::append_str(&mut out, name.as_description.as_str());
        assert(out@ =~= as_name_plain_of(name@));
        string_of(&out)
    }

    /// Writes a list of subnets as plain text, one per line (see
    /// [`subnets_plain_of`]).
    pub fn output_as_subnets_plain(subnets: &Vec<String>) -> (text: String)
        ensures
            text@ == subnets_plain_of(strings_of(subnets@)),
    {
        let ghost all = strings_of(subnets@);
        let mut out: Vec<char> = Vec::new();
        let mut i: usize = 0;
        assert(all.take(0) =~= Seq::<Seq<char>>::empty());
        while i < subnets.len()
            invariant
                i <= subnets.len(),
                all == strings_of(subnets@),
                out@ == subnets_plain_of(all.take(i as int)),
            decreases subnets.len() - i,
        {
            proof {
                let now = all.take(i + 1);
                assert(now.drop_last() == all.take(i as int));
                assert(now.last() == subnets@[i as int]@);
            }
            let ghost before = out@;
            crate::text::append_str(&mut out, subnets[i].as_str());
            out.push('\n');
            assert(out@ =~= before + subnets@[i as int]@ + seq!['\n']);
            i += 1;
        }
        assert(all.take(subnets.len() as int) == all);
        string_of(&out)
    }
}

/// Why the service refuses a request.
#[derive(Clone, Copy, Debug, PartialEq, Eq, Structural)]
pub enum Refusal {
    /// The path offers nothing.
    NotFound,
    /// A lookup by number names no number.
    MissingAsNumber,
    /// What stands for the number of an autonomous system is no number.
    InvalidAsNumber,
    /// The body of the request could not be read.
    UnreadableBody,
    /// The body lists no address. The refusal is written in the form of the
    /// answer.
    InvalidText,
    /// The body was announced as JSON, is none, and lists no address when
    /// read as plain text. The refusal is written as plain text.
    InvalidTextPlain,
    /// The body was announced as JSON, looks like JSON and is no list of
    /// texts.
    InvalidJson,
}

/// A reply whose text is fixed.
pub struct Reply {
    /// The status code.
    pub status: u16,
    /// The value of the header `Content-Type`, if the reply has one.
    pub content_type: Option<&'static str>,
    /// The body.
    pub body: &'static str,
}

/// The status code of a refusal.
pub open spec fn refusal_status(refusal: Refusal) -> u16 {
    if refusal == Refusal::NotFound {
        404
    } else {
        400
    }
}

/// The form in which a refusal is written, given the form of answer that
/// the request asked for. Most refusals know plain text and JSON only.
pub open spec fn refusal_form(refusal: Refusal, output: OutputType) -> OutputType {
    match refusal {
        Refusal::NotFound => OutputType::Plain,
        Refusal::InvalidAsNumber => output,
        Refusal::InvalidTextPlain => OutputType::Plain,
        Refusal::InvalidJson => OutputType::Json,
        _ => if output == OutputType::Plain {
            OutputType::Plain
        } else {
            OutputType::Json
        },
    }
}

/// The value of the header `Content-Type` of a refusal. The refusal of what
/// is no number of an autonomous system announces JSON also where it is
/// written as plain text.
pub open spec fn refusal_content_type(refusal: Refusal, output: OutputType) -> Option<Seq<char>> {
    match refusal {
        Refusal::NotFound => None,
        Refusal::InvalidAsNumber => if output == OutputType::Html {
            Some("text/html; charset=utf-8"@)
        } else {
            Some("application/json; charset=utf-8"@)
        },
        _ => if refusal_form(refusal, output) == OutputType::Plain {
            Some("text/plain; charset=utf-8"@)
        } else {
            Some("application/json; charset=utf-8"@)
        },
    }
}

/// The body of a refusal.
pub open spec fn refusal_body(refusal: Refusal, output: OutputType) -> Seq<char> {
    let form = refusal_form(refusal, output);
    match refusal {
        Refusal::NotFound => "Not Found"@,
        Refusal::MissingAsNumber => if form == OutputType::Plain {
            "Missing AS number. Use /v1/as/n/<AS123> or /v1/as/n/<123>\n"@
        } else {
            "{\"error\":\"Missing AS number. Use /v1/as/n/<AS123> or /v1/as/n/<123>\"}"@
        },
        Refusal::InvalidAsNumber => match form {
            OutputType::Plain => "Invalid AS number. Use AS123 or 123\n"@,
            OutputType::Html => "<!DOCTYPE html><html><body><p>Invalid AS number. Use AS123 or 123</p></body></html>"@,
            OutputType::Json => "{\"error\":\"Invalid AS number. Use AS123 or 123\"}"@,
        },
        Refusal::UnreadableBody => if form == OutputType::Plain {
            "Failed to read request body\n"@
        } else {
            "{\"error\":\"Failed to read request body\"}"@
        },
        Refusal::InvalidText | Refusal::InvalidTextPlain => if form == OutputType::Plain {
            "Invalid text body. Expected newline-separated IPs, optionally wrapped by 'begin'/'end'\n"@
        } else {
            "{\"error\":\"Invalid text body. Expected newline-separated IPs, optionally wrapped by 'begin'/'end'\"}"@
        },
        Refusal::InvalidJson => "{\"error\":\"Invalid JSON. Expected an array of IP strings\"}"@,
    }
}

/// The list of texts that bytes of JSON spell: what
/// `serde_json::from_slice` makes of them as a list of strings, or `None`
/// where it fails.
pub uninterp spec fn json_string_list(bytes: Seq<u8>) -> Option<Seq<Seq<char>>>;

/// Reads a list of strings from bytes of JSON with
/// `serde_json::from_slice`. The result is a function of the bytes alone,
/// named [`json_string_list`]; nothing else is claimed of it.
#[verifier::external_body]
fn parse_json_string_list(bytes: &Vec<u8>) -> (list: Option<Vec<String>>)
    ensures
        match list {
            Some(l) => json_string_list(bytes@) == Some(strings_of(l@)),
            None => json_string_list(bytes@) is None,
        },
{
    match serde_json::from_slice::<Vec<String>>(bytes.as_slice()) {
        Ok(list) => Some(list),
        Err(_) => None,
    }
}

/// The text that bytes stand for when what is no UTF-8 among them is
/// replaced: the result of `String::from_utf8_lossy`.
pub uninterp spec fn lossy_text(bytes: Seq<u8>) -> Seq<char>;

/// Reads bytes as text with `String::from_utf8_lossy`. The result is a
/// function of the bytes alone, named [`lossy_text`]; nothing else is
/// claimed of it.
#[verifier::external_body]
fn text_of_bytes(bytes: &Vec<u8>) -> (text: String)
    ensures
        text@ == lossy_text(bytes@),
{
    String::from_utf8_lossy(bytes.as_slice()).into_owned()
}

/// The form of the answer to a list of addresses: plain text where the
/// request asks for it, and JSON otherwise.
pub open spec fn list_output_of(accept: Option<Seq<char>>) -> OutputType {
    if accept_type_of(accept) == OutputType::Plain {
        OutputType::Plain
    } else {
        OutputType::Json
    }
}

/// The addresses that the body of a request lists.
///
/// A body that was announced as JSON is the list that its JSON spells.
/// Where it spells none, the body is read as plain text if the answer is to
/// be plain text or if the body does not begin, after white space, with an
/// opening bracket. A body that was announced otherwise, or not at all, is
/// read as plain text. A body that is read as plain text and lists no
/// address is refused.
pub open spec fn ip_list_of(
    input: Option<BodyInputType>,
    json: Option<Seq<Seq<char>>>,
    text: Seq<char>,
    output: OutputType,
) -> Result<Seq<Seq<char>>, Refusal> {
    let plain = plain_ip_list_of(text);
    if input == Some(BodyInputType::Json) {
        match json {
            Some(list) => Ok(list),
            None => if output == OutputType::Plain || !starts_with(trim_start(text), seq!['[']) {
                if plain.len() == 0 {
                    Err(Refusal::InvalidTextPlain)
                } else {
                    Ok(plain)
                }
            } else {
                Err(Refusal::InvalidJson)
            },
        }
    } else {
        if plain.len() == 0 {
            Err(Refusal::InvalidText)
        } else {
            Ok(plain)
        }
    }
}

/// What the service needs to know of a request.
pub struct Request {
    pub method: Method,
    pub path: String,
    /// The value of the header `Accept`, if it is there and is text.
    pub accept: Option<String>,
    /// The value of the header `Content-Type`, if it is there and is text.
    pub content_type: Option<String>,
    /// The value of the header `x-real-ip`, if it is there and is text.
    pub x_real_ip: Option<String>,
    /// The value of the header `x-forwarded-for`, if it is there and is
    /// text.
    pub x_forwarded_for: Option<String>,
    /// The address of the peer, as text.
    pub remote_ip: String,
    /// The body, unless it could not be read.
    pub body: Option<Vec<u8>>,
}

/// What a [`Request`] holds.
pub struct RequestView {
    pub method: Method,
    pub path: Seq<char>,
    pub accept: Option<Seq<char>>,
    pub content_type: Option<Seq<char>>,
    pub x_real_ip: Option<Seq<char>>,
    pub x_forwarded_for: Option<Seq<char>>,
    pub remote_ip: Seq<char>,
    pub body: Option<Seq<u8>>,
}

/// The text of a header that may be missing.
pub open spec fn header_of(value: Option<String>) -> Option<Seq<char>> {
    match value {
        Some(v) => Some(v@),
        None => None,
    }
}

impl View for Request {
    type V = RequestView;

    open spec fn view(&self) -> RequestView {
        RequestView {
            method: self.method,
            path: self.path@,
            accept: header_of(self.accept),
            content_type: header_of(self.content_type),
            x_real_ip: header_of(self.x_real_ip),
            x_forwarded_for: header_of(self.x_forwarded_for),
            remote_ip: self.remote_ip@,
            body: match self.body {
                Some(bytes) => Some(bytes@),
                None => None,
            },
        }
    }
}

/// What the service answers, before it is written in the form that the
/// request asked for.
pub enum Answer {
    /// The name of the service.
    Index,
    /// The lookup of one address.
    Ip(OutputType, IpLookupResponse),
    /// The lookup of a list of addresses.
    Ips(OutputType, Vec<IpLookupResponse>),
    /// The name of an autonomous system.
    AsName(OutputType, AsNameResponse),
    /// The subnets of an autonomous system.
    Subnets(OutputType, AsSubnetsResponse),
    /// A refusal.
    Refused(OutputType, Refusal),
}

/// What an [`Answer`] holds.
pub enum AnswerView {
    Index,
    Ip(OutputType, IpLookupResponseView),
    Ips(OutputType, Seq<IpLookupResponseView>),
    AsName(OutputType, AsNameResponseView),
    Subnets(OutputType, AsSubnetsResponseView),
    Refused(OutputType, Refusal),
}

impl View for Answer {
    type V = AnswerView;

    open spec fn view(&self) -> AnswerView {
        match self {
            Answer::Index => AnswerView::Index,
            Answer::Ip(output, response) => AnswerView::Ip(*output, response@),
            Answer::Ips(output, responses) => AnswerView::Ips(*output, responses_of(responses@)),
            Answer::AsName(output, name) => AnswerView::AsName(*output, name@),
            Answer::Subnets(output, subnets) => AnswerView::Subnets(*output, subnets@),
            Answer::Refused(output, refusal) => AnswerView::Refused(*output, *refusal),
        }
    }
}

/// The answer to a request for the lookup of the addresses in its body.
pub open spec fn ips_answer_of(request: RequestView, asns: AsnsView) -> AnswerView {
    let output = list_output_of(request.accept);
    match request.body {
        None => AnswerView::Refused(output, Refusal::UnreadableBody),
        Some(bytes) => match ip_list_of(
            body_input_type_of(request.content_type),
            json_string_list(bytes),
            lossy_text(bytes),
            output,
        ) {
            Ok(list) => AnswerView::Ips(output, bulk_lookup_of(list, asns.records)),
            Err(refusal) => AnswerView::Refused(output, refusal),
        },
    }
}

/// The answer of the service to a request, given the snapshot that it
/// serves.
pub open spec fn answer_of(request: RequestView, asns: AsnsView) -> AnswerView {
    let output = accept_type_of(request.accept);
    match route_of(request.method, request.path) {
        RouteView::Index => AnswerView::Index,
        RouteView::OwnIp => AnswerView::Ip(
            output,
            ip_lookup_of(
                client_ip_of(request.x_real_ip, request.x_forwarded_for, request.remote_ip),
                asns.records,
            ),
        ),
        RouteView::Ip(ip) => AnswerView::Ip(output, ip_lookup_of(ip, asns.records)),
        RouteView::MissingAsNumber => AnswerView::Refused(output, Refusal::MissingAsNumber),
        RouteView::Subnets(text) => match as_number_of(text) {
            Some(number) => AnswerView::Subnets(
                output,
                AsSubnetsResponseView { as_number: number, subnets: subnets_of(number, asns) },
            ),
            None => AnswerView::Refused(output, Refusal::InvalidAsNumber),
        },
        RouteView::AsName(text) => match as_number_of(text) {
            Some(number) => AnswerView::AsName(output, as_name_of(number, asns.meta)),
            None => AnswerView::Refused(output, Refusal::InvalidAsNumber),
        },
        RouteView::Ips => ips_answer_of(request, asns),
        RouteView::NotFound => AnswerView::Refused(output, Refusal::NotFound),
    }
}

/// The text of a header that may be missing.
fn header(value: &Option<String>) -> (text: Option<&str>)
    ensures
        match text {
            Some(t) => header_of(*value) == Some(t@),
            None => header_of(*value) is None,
        },
{
    match value {
        Some(v) => Some(v.as_str()),
        None => None,
    }
}

/// The value of the header `Content-Type` of an answer in the given form.
pub open spec fn content_type_of(output: OutputType) -> Seq<char> {
    match output {
        OutputType::Json => "application/json; charset=utf-8"@,
        OutputType::Html => "text/html; charset=utf-8"@,
        OutputType::Plain => "text/plain; charset=utf-8"@,
    }
}

impl Answer {
    /// Whether whoever asked may keep the answer for [`TTL`] seconds: every
    /// answer to a lookup may be kept, the name of the service and refusals
    /// may not.
    pub fn is_cacheable(&self) -> (cacheable: bool)
        ensures
            cacheable == !(self@ is Index || self@ is Refused),
    {
        match self {
            Answer::Index => false,
            Answer::Refused(_, _) => false,
            _ => true,
        }
    }
}

impl WebService {
    /// The text that names the service.
    pub fn index() -> (reply: Reply)
        ensures
            reply.status == 200,
            reply.content_type is Some && reply.content_type->0@ == content_type_of(
                OutputType::Plain,
            ),
            reply.body@ == "iptoasn-webservice\n"@,
    {
        Reply {
            status: 200,
            content_type: Some("text/plain; charset=utf-8"),
            body: "iptoasn-webservice\n",
        }
    }

    /// The value of the header `Content-Type` of an answer in the given
    /// form.
    pub fn content_type(output: OutputType) -> (value: &'static str)
        ensures
            value@ == content_type_of(output),
    {
        match output {
            OutputType::Json => "application/json; charset=utf-8",
            OutputType::Html => "text/html; charset=utf-8",
            OutputType::Plain => "text/plain; charset=utf-8",
        }
    }

    /// The value of the header `Cache-Control` of an answer that may be
    /// kept.
    pub fn cache_control() -> (value: String)
        ensures
            value@ == "max-age="@ + decimal_text(TTL as nat),
    {
        let mut out: Vec<char> = Vec::new();
        crate::text::append_str(&mut out, "max-age=");
        push_decimal(&mut out, TTL);
        string_of(&out)
    }

    /// The reply that tells a refusal (see [`refusal_status`],
    /// [`refusal_content_type`] and [`refusal_body`]).
    pub fn refusal_reply(refusal: Refusal, output: OutputType) -> (reply: Reply)
        ensures
            reply.status == refusal_status(refusal),
            match reply.content_type {
                Some(value) => refusal_content_type(refusal, output) == Some(value@),
                None => refusal_content_type(refusal, output) is None,
            },
            reply.body@ == refusal_body(refusal, output),
    {
        let plain = match output {
            OutputType::Plain => true,
            _ => false,
        };
        let negotiated: &'static str = if plain {
            "text/plain; charset=utf-8"
        } else {
            "application/json; charset=utf-8"
        };
        match refusal {
            Refusal::NotFound => Reply { status: 404, content_type: None, body: "Not Found" },
            Refusal::MissingAsNumber => Reply {
                status: 400,
                content_type: Some(negotiated),
                body: if plain {
                    "Missing AS number. Use /v1/as/n/<AS123> or /v1/as/n/<123>\n"
                } else {
                    "{\"error\":\"Missing AS number. Use /v1/as/n/<AS123> or /v1/as/n/<123>\"}"
                },
            },
            Refusal::InvalidAsNumber => match output {
                OutputType::Plain => Reply {
                    status: 400,
                    content_type: Some("application/json; charset=utf-8"),
                    body: "Invalid AS number. Use AS123 or 123\n",
                },
                OutputType::Html => Reply {
                    status: 400,
                    content_type: Some("text/html; charset=utf-8"),
                    body: "<!DOCTYPE html><html><body><p>Invalid AS number. Use AS123 or 123</p></body></html>",
                },
                OutputType::Json => Reply {
                    status: 400,
                    content_type: Some("application/json; charset=utf-8"),
                    body: "{\"error\":\"Invalid AS number. Use AS123 or 123\"}",
                },
            },
            Refusal::UnreadableBody => Reply {
                status: 400,
                content_type: Some(negotiated),
                body: if plain {
                    "Failed to read request body\n"
                } else {
                    "{\"error\":\"Failed to read request body\"}"
                },
            },
            Refusal::InvalidText => Reply {
                status: 400,
                content_type: Some(negotiated),
                body: if plain {
                    "Invalid text body. Expected newline-separated IPs, optionally wrapped by 'begin'/'end'\n"
                } else {
                    "{\"error\":\"Invalid text body. Expected newline-separated IPs, optionally wrapped by 'begin'/'end'\"}"
                },
            },
            Refusal::InvalidTextPlain => Reply {
                status: 400,
                content_type: Some("text/plain; charset=utf-8"),
                body: "Invalid text body. Expected newline-separated IPs, optionally wrapped by 'begin'/'end'\n",
            },
            Refusal::InvalidJson => Reply {
                status: 400,
                content_type: Some("application/json; charset=utf-8"),
                body: "{\"error\":\"Invalid JSON. Expected an array of IP strings\"}",
            },
        }
    }

    /// Settles which addresses the body of a request lists, given what its
    /// JSON spells and what text it is (see [`ip_list_of`]).
    pub fn select_ip_list(
        input: Option<BodyInputType>,
        json: Option<Vec<String>>,
        text: &str,
        output: OutputType,
    ) -> (list: Result<Vec<String>, Refusal>)
        ensures
            match list {
                Ok(l) => ip_list_of(
                    input,
                    match json {
                        Some(j) => Some(strings_of(j@)),
                        None => None,
                    },
                    text@,
                    output,
                ) == Ok::<Seq<Seq<char>>, Refusal>(strings_of(l@)),
                Err(refusal) => ip_list_of(
                    input,
                    match json {
                        Some(j) => Some(strings_of(j@)),
                        None => None,
                    },
                    text@,
                    output,
                ) == Err::<Seq<Seq<char>>, Refusal>(refusal),
            },
    {
        let announced_json = match input {
            Some(BodyInputType::Json) => true,
            _ => false,
        };
        if announced_json {
            match json {
                Some(list) => Ok(list),
                None => {
                    let start = trimmed_start(&chars_of(text));
                    let bracket = start.len() > 0 && start[0] == '[';
                    assert(bracket == starts_with(start@, seq!['['])) by {
                        if start.len() > 0 {
                            assert(start@.take(1) =~= seq![start@[0]]);
                        }
                        if starts_with(start@, seq!['[']) {
                            assert(start@.take(1)[0] == '[');
                        }
                    }
                    let plain_output = match output {
                        OutputType::Plain => true,
                        _ => false,
                    };
                    if plain_output || !bracket {
                        let ips = WebService::parse_plain_ip_list(text);
                        if ips.len() == 0 {
                            Err(Refusal::InvalidTextPlain)
                        } else {
                            Ok(ips)
                        }
                    } else {
                        Err(Refusal::InvalidJson)
                    }
                },
            }
        } else {
            let ips = WebService::parse_plain_ip_list(text);
            if ips.len() == 0 {
                Err(Refusal::InvalidText)
            } else {
                Ok(ips)
            }
        }
    }

    /// Answers a request for the lookup of the addresses in its body (see
    /// [`ips_answer_of`]).
    pub fn handle_put_ips(request: &Request, asns: &Asns) -> (answer: Answer)
        ensures
            answer@ == ips_answer_of(request@, asns@),
    {
        let output = match WebService::accept_type(header(&request.accept)) {
            OutputType::Plain => OutputType::Plain,
            _ => OutputType::Json,
        };
        let bytes = match &request.body {
            Some(bytes) => bytes,
            None => {
                return Answer::Refused(output, Refusal::UnreadableBody);
            },
        };
        let input = WebService::body_input_type(header(&request.content_type));
        let text = text_of_bytes(bytes);
        let json = match input {
            Some(BodyInputType::Json) => parse_json_string_list(bytes),
            _ => None,
        };
        match WebService::select_ip_list(input, json, text.as_str(), output) {
            Ok(list) => Answer::Ips(output, WebService::bulk_lookup(&list, asns)),
            Err(refusal) => Answer::Refused(output, refusal),
        }
    }

    /// Answers a request (see [`answer_of`]).
    pub fn handle_request(request: &Request, asns: &Asns) -> (answer: Answer)
        ensures
            answer@ == answer_of(request@, asns@),
    {
        let output = WebService::accept_type(header(&request.accept));
        match WebService::route(request.method, request.path.as_str()) {
            Route::Index => Answer::Index,
            Route::OwnIp => {
                let client = WebService::extract_client_ip(
                    header(&request.x_real_ip),
                    header(&request.x_forwarded_for),
                    request.remote_ip.as_str(),
                );
                Answer::Ip(output, WebService::ip_lookup(client.as_str(), asns))
            },
            Route::Ip(ip) => Answer::Ip(output, WebService::ip_lookup(ip.as_str(), asns)),
            Route::MissingAsNumber => Answer::Refused(output, Refusal::MissingAsNumber),
            Route::Subnets(text) => match WebService::as_subnets_lookup(text.as_str(), asns) {
                Some(subnets) => Answer::Subnets(output, subnets),
                None => Answer::Refused(output, Refusal::InvalidAsNumber),
            },
            Route::AsName(text) => match WebService::as_name_lookup(text.as_str(), asns) {
                Some(name) => Answer::AsName(output, name),
                None => Answer::Refused(output, Refusal::InvalidAsNumber),
            },
            Route::Ips => WebService::handle_put_ips(request, asns),
            Route::NotFound => Answer::Refused(output, Refusal::NotFound),
        }
    }
}

} // verus!

use crate::asns::{announcing, Asns, AsnView};
use crate::intern::{hash_text, text_hash};
use crate::ip_text::{ip_of, parse_ip};
use crate::text::{append, append_str, chars_of, decimal_text, push_decimal, string_of};
use regex::Regex;
use std::collections::HashMap;
use vstd::prelude::*;
use vstd::utf8::encode_utf8;

verus! {

/// The pattern that finds addresses of both families in one pass.
///
/// It names the group `ip4` for a dotted quad and the group `ip6` for an
/// IPv6 address between its delimiters. The prefix `::ffff:` of an IPv4
/// address mapped into IPv6 matches alone, in a group of its own, so that
/// the dotted quad behind it is found as an IPv4 address.
pub const COMBINED_PATTERN: &'static str = r"(?x)
        # 1) IPv4 dotted-quad
        \b (?P<ip4> (?:\d{1,3}\.){3}\d{1,3} ) \b
        |
        # 2) IPv4-mapped IPv6 prefix '::ffff:' (do not consume dotted-quad that follows)
        (?P<pre_mapped> ^ | [^0-9A-Fa-f:] )
        (?P<mapped> :: [Ff]{4} : )
        |
        # 3) IPv6 (preserve surrounding delimiters)
        (?P<pre> ^ | [^0-9A-Fa-f:] )
        (?P<ip6> (?:[0-9A-Fa-f]{0,4}:){2,7}[0-9A-Fa-f]{0,4} | :: )
        (?P<post> [^0-9A-Fa-f:] | $ )
        ";

/// The pattern that finds dotted quads, in the group `ip`.
pub const IPV4_PATTERN: &'static str = r"\b(?P<ip>(?:\d{1,3}\.){3}\d{1,3})\b";

/// The pattern that finds IPv6 addresses between their delimiters, in the
/// group `ip`. An IPv4 address mapped into IPv6 matches in the group `skip`
/// and is left alone.
pub const IPV6_PATTERN: &'static str = r"(?x)
          (?P<pre>^|[^0-9A-Fa-f:])
          (?:
              (?P<skip>::[Ff]{4}:[0-9A-Fa-f:.]+)           # IPv4-mapped (::ffff:...)
            |
              (?P<ip>(?:[0-9A-Fa-f]{0,4}:){2,7}[0-9A-Fa-f]{0,4}|::)
          )
          (?P<post>[^0-9A-Fa-f:]|$)
        ";

/// A compiled pattern of the crate `regex`. Nothing of what it holds is
/// known here: it is handed from `Regex::new` to `Regex::captures_iter`
/// within a [`Pattern`].
#[verifier::external_type_specification]
#[verifier::external_body]
pub struct ExRegex(Regex);

/// What an annotation says of an address that nobody announces.
#[derive(Clone, Copy, Debug, PartialEq, Eq, Structural)]
pub enum Unannounced {
    /// `AS0`, `None` and `Not announced`.
    AsZero,
    /// `NA`, `--` and `local or unknown`.
    NotAvailable,
}

/// How annotations are written.
pub struct Style {
    /// The marker before the annotation.
    pub open: char,
    /// The marker after the annotation.
    pub close: char,
    /// The text between the parts of the annotation.
    pub sep: String,
    /// Whether the description is part of the annotation.
    pub include_description: bool,
    /// What is said of an address that nobody announces.
    pub unannounced: Unannounced,
}

/// What a [`Style`] holds.
pub struct StyleView {
    pub open: char,
    pub close: char,
    pub sep: Seq<char>,
    pub include_description: bool,
    pub unannounced: Unannounced,
}

impl View for Style {
    type V = StyleView;

    open spec fn view(&self) -> StyleView {
        StyleView {
            open: self.open,
            close: self.close,
            sep: self.sep@,
            include_description: self.include_description,
            unannounced: self.unannounced,
        }
    }
}

/// The two markers that a text of exactly two characters names.
pub open spec fn markers_of(s: Seq<char>) -> Option<(char, char)> {
    if s.len() == 2 {
        Some((s[0], s[1]))
    } else {
        None
    }
}

/// Reads the markers of annotations (see [`markers_of`]).
pub fn parse_markers(s: &str) -> (markers: Option<(char, char)>)
    ensures
        markers == markers_of(s@),
{
    let chars = chars_of(s);
    if chars.len() == 2 {
        Some((chars[0], chars[1]))
    } else {
        None
    }
}

/// What is written between the markers for the record that announces an
/// address, or for an address that nobody announces.
pub open spec fn annotation_body(found: Option<AsnView>, style: StyleView) -> Seq<char> {
    match found {
        Some(record) => "AS"@ + decimal_text(record.number as nat) + style.sep + record.country + (
        if style.include_description {
            style.sep + record.description
        } else {
            Seq::<char>::empty()
        }),
        None => match style.unannounced {
            Unannounced::AsZero => "AS0"@ + style.sep + "None"@ + (if style.include_description {
                style.sep + "Not announced"@
            } else {
                Seq::<char>::empty()
            }),
            Unannounced::NotAvailable => "NA"@ + style.sep + "--"@ + (if style.include_description {
                style.sep + "local or unknown"@
            } else {
                Seq::<char>::empty()
            }),
        },
    }
}

/// An address with its annotation: the address as it was written, a blank,
/// and between the markers what is known of it.
pub open spec fn annotation_of(token: Seq<char>, found: Option<AsnView>, style: StyleView) -> Seq<
    char,
> {
    token + seq![' ', style.open] + annotation_body(found, style) + seq![style.close]
}

/// What stands in place of a token: the token with its annotation where it
/// spells an address, and the token as it is where it spells none.
pub open spec fn annotated_token(token: Seq<char>, records: Seq<AsnView>, style: StyleView) -> Seq<
    char,
> {
    match ip_of(token) {
        None => token,
        Some(ip) => annotation_of(token, announcing(records, ip), style),
    }
}

/// Appends the annotation of `token`, which spells the address that `found`
/// was looked up for, to `out`.
fn push_annotation(out: &mut Vec<char>, token: &Vec<char>, found: Option<&crate::asns::Asn>, style: &Style)
    ensures
        final(out)@ == old(out)@ + annotation_of(
            token@,
            match found {
                Some(record) => Some(record@),
                None => None,
            },
            style@,
        ),
{
    let ghost shown: Option<AsnView> = match found {
        Some(record) => Some(record@),
        None => None,
    };
    let mut body: Vec<char> = Vec::new();
    match found {
        Some(record) => {
            append_str(&mut body, "AS");
            push_decimal(&mut body, record.number);
            append_str(&mut body, style.sep.as_str());
            append_str(&mut body, record.country.as_str());
            if style.include_description {
                append_str(&mut body, style.sep.as_str());
                append_str(&mut body, record.description.as_str());
            }
        },
        None => {
            match style.unannounced {
                Unannounced::AsZero => {
                    append_str(&mut body, "AS0");
                    append_str(&mut body, style.sep.as_str());
                    append_str(&mut body, "None");
                    if style.include_description {
                        append_str(&mut body, style.sep.as_str());
                        append_str(&mut body, "Not announced");
                    }
                },
                Unannounced::NotAvailable => {
                    append_str(&mut body, "NA");
                    append_str(&mut body, style.sep.as_str());
                    append_str(&mut body, "--");
                    if style.include_description {
                        append_str(&mut body, style.sep.as_str());
                        append_str(&mut body, "local or unknown");
                    }
                },
            }
        },
    }
    assert(body@ =~= annotation_body(shown, style@));
    append(out, token);
    out.push(' ');
    out.push(style.open);
    append(out, &body);
    out.push(style.close);
    assert(out@ =~= old(out)@ + annotation_of(token@, shown, style@));
}

/// Annotates a token (see [`annotated_token`]).
pub fn annotate_ip_token(ip_s: &str, asns: &Asns, style: &Style) -> (text: String)
    ensures
        text@ == annotated_token(ip_s@, asns@.records, style@),
{
    let token = chars_of(ip_s);
    match parse_ip(&token) {
        None => string_of(&token),
        Some(ip) => {
            let mut out: Vec<char> = Vec::new();
            push_annotation(&mut out, &token, asns.lookup_by_ip(ip), style);
            string_of(&out)
        },
    }
}

/// What a memo holds for a token: nothing to add where the token spells
/// no address, and else the token with its annotation, written with or
/// without the description as `described` says.
pub open spec fn memo_entry(
    token: Seq<char>,
    described: bool,
    records: Seq<AsnView>,
    style: StyleView,
) -> Option<Seq<char>> {
    match ip_of(token) {
        None => None,
        Some(ip) => Some(
            annotation_of(
                token,
                announcing(records, ip),
                StyleView { include_description: described, ..style },
            ),
        ),
    }
}

/// One token that a memo has met.
struct MemoEntry {
    token: String,
    described: bool,
    annotation: Option<String>,
}

/// The text of an annotation that may be missing.
spec fn shown_of(annotation: Option<String>) -> Option<Seq<char>> {
    match annotation {
        Some(text) => Some(text@),
        None => None,
    }
}

/// What an entry was filed for.
spec fn entry_key(entry: MemoEntry) -> (Seq<char>, bool) {
    (entry.token@, entry.described)
}

/// Whether the files hold an entry for the key, in the file of its hash.
spec fn files_hold(files: Map<u64, Vec<MemoEntry>>, key: (Seq<char>, bool)) -> bool {
    &&& files.contains_key(text_hash(key.0))
    &&& exists|j: int|
        0 <= j < files[text_hash(key.0)]@.len() && entry_key(
            #[trigger] files[text_hash(key.0)]@[j],
        ) == key
}

/// Whether the files and what they are said to hold agree: every entry
/// stands in the file of the hash of its token and is shown with its
/// annotation, and everything that is shown has its entry.
spec fn filed(
    files: Map<u64, Vec<MemoEntry>>,
    shown: Map<(Seq<char>, bool), Option<Seq<char>>>,
) -> bool {
    &&& forall|h: u64, j: int|
        files.contains_key(h) && 0 <= j < files[h]@.len() ==> {
            let e = #[trigger] files[h]@[j];
            text_hash(e.token@) == h && shown.contains_key(entry_key(e)) && shown[entry_key(e)]
                == shown_of(e.annotation)
        }
    &&& forall|key: (Seq<char>, bool)| #[trigger] shown.contains_key(key) ==> files_hold(files, key)
}

/// The files stay in agreement when an entry for a key that is not shown
/// yet is added to the file of its hash.
proof fn lemma_filed_with_new_entry(
    files: Map<u64, Vec<MemoEntry>>,
    shown: Map<(Seq<char>, bool), Option<Seq<char>>>,
    entry: MemoEntry,
    file: Vec<MemoEntry>,
)
    requires
        filed(files, shown),
        !shown.contains_key(entry_key(entry)),
        file@ == (if files.contains_key(text_hash(entry.token@)) {
            files[text_hash(entry.token@)]@
        } else {
            Seq::<MemoEntry>::empty()
        }).push(entry),
    ensures
        filed(
            files.insert(text_hash(entry.token@), file),
            shown.insert(entry_key(entry), shown_of(entry.annotation)),
        ),
{
    let h = text_hash(entry.token@);
    let new_files = files.insert(h, file);
    let new_shown = shown.insert(entry_key(entry), shown_of(entry.annotation));
    let old_file = if files.contains_key(h) {
        files[h]@
    } else {
        Seq::<MemoEntry>::empty()
    };
    assert forall|g: u64, j: int| new_files.contains_key(g) && 0 <= j < new_files[g]@.len() implies {
        let e = #[trigger] new_files[g]@[j];
        text_hash(e.token@) == g && new_shown.contains_key(entry_key(e)) && new_shown[entry_key(e)]
            == shown_of(e.annotation)
    } by {
        if g == h {
            if j < old_file.len() {
                assert(new_files[g]@[j] == files[h]@[j]);
            }
        } else {
            assert(new_files[g]@[j] == files[g]@[j]);
        }
    }
    assert forall|key: (Seq<char>, bool)| #[trigger] new_shown.contains_key(key) implies files_hold(
        new_files,
        key,
    ) by {
        let g = text_hash(key.0);
        if key == entry_key(entry) {
            assert(entry_key(new_files[h]@[old_file.len() as int]) == key);
        } else {
            assert(shown.contains_key(key));
            assert(files_hold(files, key));
            let j = choose|j: int|
                0 <= j < files[g]@.len() && entry_key(#[trigger] files[g]@[j]) == key;
            assert(entry_key(new_files[g]@[j]) == key);
        }
    }
}

/// The place of the entry for a token among the entries of a file, if the
/// file holds one.
fn find_entry(file: &Vec<MemoEntry>, token: &String, described: bool) -> (found: Option<usize>)
    ensures
        match found {
            Some(j) => j < file@.len() && entry_key(file@[j as int]) == (token@, described),
            None => forall|j: int|
                0 <= j < file@.len() ==> entry_key(#[trigger] file@[j]) != (token@, described),
        },
{
    let mut j: usize = 0;
    while j < file.len()
        invariant
            j <= file.len(),
            forall|i: int| 0 <= i < j ==> entry_key(#[trigger] file@[i]) != (token@, described),
        decreases file.len() - j,
    {
        if file[j].described == described && file[j].token == *token {
            return Some(j);
        }
        j += 1;
    }
    None
}

/// A memo of annotations: what was worked out for a token is kept and
/// handed out again when the token comes back, for as long as the snapshot
/// and the style stay the same.
///
/// A memo maps a token, together with whether descriptions are written,
/// to the token with its annotation, or to nothing where the token spells no
/// address.
pub struct Memo {
    files: HashMap<u64, Vec<MemoEntry>>,
    shown: Ghost<Map<(Seq<char>, bool), Option<Seq<char>>>>,
}

impl View for Memo {
    type V = Map<(Seq<char>, bool), Option<Seq<char>>>;

    closed spec fn view(&self) -> Map<(Seq<char>, bool), Option<Seq<char>>> {
        self.shown@
    }
}

impl Memo {
    /// The entries of the memo are filed as it says.
    pub closed spec fn wf(&self) -> bool {
        filed(self.files@, self.shown@)
    }

    /// Whether the memo is in order and everything in it is what the
    /// snapshot and the style give: a memo that was filled with one
    /// snapshot and one style serves these two, whatever the tokens were.
    pub open spec fn remembers(&self, records: Seq<AsnView>, style: StyleView) -> bool {
        &&& self.wf()
        &&& forall|key: (Seq<char>, bool)| #[trigger]
            self@.contains_key(key) ==> self@[key] == memo_entry(key.0, key.1, records, style)
    }

    /// A memo that has met no token. It serves every snapshot and style.
    pub fn new() -> (memo: Memo)
        ensures
            memo@ == Map::<(Seq<char>, bool), Option<Seq<char>>>::empty(),
            memo.wf(),
    {
        Memo { files: HashMap::new(), shown: Ghost(Map::empty()) }
    }
}

/// Annotates a token as [`annotate_ip_token`] does, with a memo: a token
/// that the memo has met is answered from the memo, which stays as it is,
/// and a new token is worked out and kept.
pub fn annotate_ip_token_with_memo(ip_s: &str, asns: &Asns, style: &Style, memo: &mut Memo) -> (text:
    String)
    requires
        old(memo).remembers(asns@.records, style@),
    ensures
        text@ == annotated_token(ip_s@, asns@.records, style@),
        final(memo).remembers(asns@.records, style@),
        final(memo)@ == old(memo)@.insert(
            (ip_s@, style.include_description),
            memo_entry(ip_s@, style.include_description, asns@.records, style@),
        ),
        old(memo)@.contains_key((ip_s@, style.include_description)) ==> final(memo)@ == old(memo)@,
{
    broadcast use vstd::std_specs::hash::group_hash_axioms;

    let token = chars_of(ip_s);
    let wanted = string_of(&token);
    let described = style.include_description;
    let h = hash_text(&token);
    let ghost key = (ip_s@, described);
    let ghost files = memo.files@;
    let ghost shown = memo.shown@;
    let ghost value = memo_entry(ip_s@, described, asns@.records, style@);
    assert((StyleView { include_description: described, ..style@ }) == style@);
    match memo.files.get(&h) {
        Some(file) => {
            assert(file == files[h]);
            match find_entry(file, &wanted, described) {
                Some(j) => {
                    let entry = &file[j];
                    proof {
                        assert(entry_key(files[h]@[j as int]) == key);
                        assert(shown.contains_key(key));
                        assert(shown.insert(key, value) =~= shown);
                    }
                    return match &entry.annotation {
                        Some(text) => text.clone(),
                        None => wanted,
                    };
                },
                None => {
                    proof {
                        if shown.contains_key(key) {
                            assert(files_hold(files, key));
                        }
                    }
                },
            }
        },
        None => {
            proof {
                if shown.contains_key(key) {
                    assert(files_hold(files, key));
                }
            }
        },
    }
    assert(!shown.contains_key(key));
    let (text, annotation): (String, Option<String>) = match parse_ip(&token) {
        None => (wanted.clone(), None),
        Some(ip) => {
            let mut out: Vec<char> = Vec::new();
            push_annotation(&mut out, &token, asns.lookup_by_ip(ip), style);
            let text = string_of(&out);
            (text.clone(), Some(text))
        },
    };
    let entry = MemoEntry { token: wanted, described, annotation };
    assert(entry_key(entry) == key);
    assert(shown_of(entry.annotation) == value);
    let mut file: Vec<MemoEntry> = match memo.files.remove(&h) {
        Some(file) => file,
        None => Vec::new(),
    };
    file.push(entry);
    proof {
        lemma_filed_with_new_entry(files, shown, entry, file);
    }
    memo.files.insert(h, file);
    memo.shown = Ghost(shown.insert(key, value));
    assert(memo.files@ =~= files.insert(h, file));
    text
}

/// The characters that the bytes of a token stand for, byte by byte.
pub open spec fn token_text(bytes: Seq<u8>) -> Seq<char> {
    Seq::new(bytes.len(), |i: int| bytes[i] as char)
}

/// The bytes that stand in place of a token of a line: the token with its
/// annotation, in UTF-8, where the token spells an address, and the bytes of
/// the token where it spells none.
pub open spec fn replacement_of(token: Seq<u8>, records: Seq<AsnView>, style: StyleView) -> Seq<u8> {
    match ip_of(token_text(token)) {
        None => token,
        Some(ip) => encode_utf8(annotation_of(token_text(token), announcing(records, ip), style)),
    }
}

/// The rest of an annotated line, from the byte at `cursor` on, once the
/// spans before index `k` are dealt with. A span that reaches back before
/// `cursor`, ends before it starts or passes the end of the line is left
/// out.
pub open spec fn annotated_from(
    line: Seq<u8>,
    spans: Seq<(usize, usize)>,
    k: int,
    cursor: int,
    records: Seq<AsnView>,
    style: StyleView,
) -> Seq<u8>
    decreases spans.len() - k,
{
    if k < 0 || k >= spans.len() {
        line.skip(cursor)
    } else {
        let start = spans[k].0 as int;
        let end = spans[k].1 as int;
        if cursor <= start <= end <= line.len() {
            line.subrange(cursor, start) + replacement_of(line.subrange(start, end), records, style)
                + annotated_from(line, spans, k + 1, end, records, style)
        } else {
            annotated_from(line, spans, k + 1, cursor, records, style)
        }
    }
}

/// The line in which every token, given by the span of its bytes, is
/// replaced (see [`replacement_of`]) and every other byte is kept.
pub open spec fn annotated_line(
    line: Seq<u8>,
    spans: Seq<(usize, usize)>,
    records: Seq<AsnView>,
    style: StyleView,
) -> Seq<u8> {
    annotated_from(line, spans, 0, 0, records, style)
}

/// The spans of the tokens among what a pattern captured: of each match
/// the span of the first group, or else that of the second group, if either
/// took part in the match.
pub open spec fn token_spans_of(
    captures: Seq<(Option<(usize, usize)>, Option<(usize, usize)>)>,
) -> Seq<(usize, usize)>
    decreases captures.len(),
{
    if captures.len() == 0 {
        Seq::empty()
    } else {
        let before = token_spans_of(captures.drop_last());
        match captures.last() {
            (Some(span), _) => before.push(span),
            (None, Some(span)) => before.push(span),
            (None, None) => before,
        }
    }
}

/// Picks the spans of the tokens (see [`token_spans_of`]).
pub fn token_spans(captures: &Vec<(Option<(usize, usize)>, Option<(usize, usize)>)>) -> (spans: Vec<
    (usize, usize),
>)
    ensures
        spans@ == token_spans_of(captures@),
{
    let mut spans: Vec<(usize, usize)> = Vec::new();
    let mut i: usize = 0;
    assert(captures@.take(0) =~= Seq::empty());
    while i < captures.len()
        invariant
            i <= captures.len(),
            spans@ == token_spans_of(captures@.take(i as int)),
        decreases captures.len() - i,
    {
        proof {
            let now = captures@.take(i + 1);
            assert(now.drop_last() == captures@.take(i as int));
            assert(now.last() == captures@[i as int]);
        }
        match captures[i] {
            (Some(span), _) => {
                spans.push(span);
            },
            (None, Some(span)) => {
                spans.push(span);
            },
            (None, None) => {},
        }
        i += 1;
    }
    assert(captures@.take(captures.len() as int) == captures@);
    spans
}

/// Appends the bytes of `line` from index `from` up to, not including, `to`
/// to `out`.
fn push_bytes(out: &mut Vec<u8>, line: &[u8], from: usize, to: usize)
    requires
        from <= to <= line@.len(),
    ensures
        final(out)@ == old(out)@ + line@.subrange(from as int, to as int),
{
    let mut i: usize = from;
    while i < to
        invariant
            from <= i <= to <= line@.len(),
            out@ == old(out)@ + line@.subrange(from as int, i as int),
        decreases to - i,
    {
        out.push(line[i]);
        assert(out@ =~= old(out)@ + line@.subrange(from as int, i + 1));
        i += 1;
    }
}

/// Annotates the tokens of a line, given the spans of their bytes (see
/// [`annotated_line`]).
pub fn annotate_spans(line: &[u8], spans: &Vec<(usize, usize)>, asns: &Asns, style: &Style) -> (out:
    Vec<u8>)
    ensures
        out@ == annotated_line(line@, spans@, asns@.records, style@),
{
    let mut out: Vec<u8> = Vec::new();
    let mut cursor: usize = 0;
    let mut k: usize = 0;
    let ghost whole = annotated_line(line@, spans@, asns@.records, style@);
    while k < spans.len()
        invariant
            k <= spans.len(),
            cursor <= line@.len(),
            whole == annotated_line(line@, spans@, asns@.records, style@),
            whole == out@ + annotated_from(
                line@,
                spans@,
                k as int,
                cursor as int,
                asns@.records,
                style@,
            ),
        decreases spans.len() - k,
    {
        let (start, end) = spans[k];
        if cursor <= start && start <= end && end <= line.len() {
            let ghost before = out@;
            push_bytes(&mut out, line, cursor, start);
            let ghost token = line@.subrange(start as int, end as int);
            let mut chars: Vec<char> = Vec::new();
            let mut i: usize = start;
            while i < end
                invariant
                    start <= i <= end <= line@.len(),
                    chars@ == token_text(line@.subrange(start as int, i as int)),
                decreases end - i,
            {
                chars.push(line[i] as char);
                assert(chars@ =~= token_text(line@.subrange(start as int, i + 1)));
                i += 1;
            }
            match parse_ip(&chars) {
                None => {
                    push_bytes(&mut out, line, start, end);
                },
                Some(ip) => {
                    let mut text: Vec<char> = Vec::new();
                    push_annotation(&mut text, &chars, asns.lookup_by_ip(ip), style);
                    let annotation = string_of(&text);
                    let bytes = annotation.as_str().as_bytes();
                    push_bytes(&mut out, bytes, 0, bytes.len());
                    assert(bytes@.subrange(0, bytes@.len() as int) == bytes@);
                },
            }
            assert(out@ =~= before + line@.subrange(cursor as int, start as int) + replacement_of(
                token,
                asns@.records,
                style@,
            ));
            cursor = end;
        }
        k += 1;
    }
    push_bytes(&mut out, line, cursor, line.len());
    assert(line@.subrange(cursor as int, line@.len() as int) == line@.skip(cursor as int));
    out
}

/// What a memo holds once the spans of a line from index `k` on are dealt
/// with, given what it holds before and the byte at which the line goes on:
/// every token that is replaced (see [`annotated_from`]) is kept with what
/// stands in its place.
pub open spec fn memo_after(
    shown: Map<(Seq<char>, bool), Option<Seq<char>>>,
    line: Seq<u8>,
    spans: Seq<(usize, usize)>,
    k: int,
    cursor: int,
    records: Seq<AsnView>,
    style: StyleView,
) -> Map<(Seq<char>, bool), Option<Seq<char>>>
    decreases spans.len() - k,
{
    if k < 0 || k >= spans.len() {
        shown
    } else {
        let start = spans[k].0 as int;
        let end = spans[k].1 as int;
        if cursor <= start <= end <= line.len() {
            let token = token_text(line.subrange(start, end));
            memo_after(
                shown.insert(
                    (token, style.include_description),
                    memo_entry(token, style.include_description, records, style),
                ),
                line,
                spans,
                k + 1,
                end,
                records,
                style,
            )
        } else {
            memo_after(shown, line, spans, k + 1, cursor, records, style)
        }
    }
}

/// Annotates the tokens of a line as [`annotate_spans`] does, with a memo
/// that is kept from line to line: a token that the memo has met costs no
/// lookup.
pub fn annotate_spans_with_memo(
    line: &[u8],
    spans: &Vec<(usize, usize)>,
    asns: &Asns,
    style: &Style,
    memo: &mut Memo,
) -> (out: Vec<u8>)
    requires
        old(memo).remembers(asns@.records, style@),
    ensures
        out@ == annotated_line(line@, spans@, asns@.records, style@),
        final(memo).remembers(asns@.records, style@),
        final(memo)@ == memo_after(old(memo)@, line@, spans@, 0, 0, asns@.records, style@),
{
    let mut out: Vec<u8> = Vec::new();
    let mut cursor: usize = 0;
    let mut k: usize = 0;
    let ghost whole = annotated_line(line@, spans@, asns@.records, style@);
    let ghost kept = memo_after(old(memo)@, line@, spans@, 0, 0, asns@.records, style@);
    while k < spans.len()
        invariant
            k <= spans.len(),
            cursor <= line@.len(),
            memo.remembers(asns@.records, style@),
            whole == annotated_line(line@, spans@, asns@.records, style@),
            whole == out@ + annotated_from(
                line@,
                spans@,
                k as int,
                cursor as int,
                asns@.records,
                style@,
            ),
            kept == memo_after(
                memo@,
                line@,
                spans@,
                k as int,
                cursor as int,
                asns@.records,
                style@,
            ),
        decreases spans.len() - k,
    {
        let (start, end) = spans[k];
        if cursor <= start && start <= end && end <= line.len() {
            let ghost before = out@;
            push_bytes(&mut out, line, cursor, start);
            let ghost token = line@.subrange(start as int, end as int);
            let mut chars: Vec<char> = Vec::new();
            let mut i: usize = start;
            while i < end
                invariant
                    start <= i <= end <= line@.len(),
                    chars@ == token_text(line@.subrange(start as int, i as int)),
                decreases end - i,
            {
                chars.push(line[i] as char);
                assert(chars@ =~= token_text(line@.subrange(start as int, i + 1)));
                i += 1;
            }
            let written = string_of(&chars);
            let text = annotate_ip_token_with_memo(written.as_str(), asns, style, memo);
            // An annotation is longer than its token: what comes back as
            // it went in spells no address, and its bytes are kept.
            if text == written {
                assert(ip_of(chars@) is None) by {
                    if ip_of(chars@) is Some {
                        assert(text@.len() > chars@.len());
                    }
                }
                push_bytes(&mut out, line, start, end);
            } else {
                let bytes = text.as_str().as_bytes();
                push_bytes(&mut out, bytes, 0, bytes.len());
                assert(bytes@.subrange(0, bytes@.len() as int) == bytes@);
            }
            assert(out@ =~= before + line@.subrange(cursor as int, start as int) + replacement_of(
                token,
                asns@.records,
                style@,
            ));
            cursor = end;
        }
        k += 1;
    }
    push_bytes(&mut out, line, cursor, line.len());
    assert(line@.subrange(cursor as int, line@.len() as int) == line@.skip(cursor as int));
    out
}

/// Whether `Regex::new` accepts the pattern: whether it is well written
/// and what it compiles to stays within the size that the crate allows.
pub uninterp spec fn pattern_accepted(pattern: Seq<char>) -> bool;

/// What the pattern finds in a line: for each match that
/// `Regex::captures_iter` yields, in turn, the spans of the bytes that the
/// groups named `first` and `second` matched, where they took part. The
/// pattern is the one that `Regex::new` compiles from the text `pattern`.
pub uninterp spec fn captures_of(
    pattern: Seq<char>,
    line: Seq<char>,
    first: Seq<char>,
    second: Seq<char>,
) -> Seq<(Option<(usize, usize)>, Option<(usize, usize)>)>;

/// A pattern as `Regex::new` compiled it, together with the text that it
/// was compiled from. Only [`Pattern::compile`] makes one, so that the two
/// always belong together.
pub struct Pattern {
    regex: Regex,
    source: String,
}

/// Compiles a pattern with `Regex::new`; `None` where the pattern is not
/// accepted. Whether it is accepted is a function of the pattern alone,
/// named [`pattern_accepted`]. The compiled pattern is kept with the text
/// that was handed in; nothing else is claimed of it.
#[verifier::external_body]
fn compile(pattern: &str) -> (compiled: Option<Pattern>)
    ensures
        compiled is Some <==> pattern_accepted(pattern@),
        compiled matches Some(p) ==> p.source() == pattern@,
{
    Regex::new(pattern).ok().map(|regex| Pattern { regex, source: pattern.to_string() })
}

/// Runs `Regex::captures_iter` over a line and hands back, for each match
/// in turn, the spans of the bytes that the two named groups matched, where
/// they took part. The result is a function of the text of the pattern, of
/// the line and of the two names, named [`captures_of`]; nothing else is
/// claimed of it.
#[verifier::external_body]
fn captured_spans(pattern: &Pattern, line: &str, first: &str, second: &str) -> (captures: Vec<
    (Option<(usize, usize)>, Option<(usize, usize)>),
>)
    ensures
        captures@ == captures_of(pattern.source(), line@, first@, second@),
{
    pattern.regex.captures_iter(line).map(
        |c|
            (
                c.name(first).map(|m| (m.start(), m.end())),
                c.name(second).map(|m| (m.start(), m.end())),
            ),
    ).collect()
}

impl Pattern {
    /// The text that the pattern was compiled from.
    pub closed spec fn source(&self) -> Seq<char> {
        self.source@
    }

    /// Compiles a pattern. There is a compiled pattern exactly where the
    /// text is accepted.
    pub fn compile(source: &str) -> (compiled: Option<Pattern>)
        ensures
            compiled is Some <==> pattern_accepted(source@),
            compiled matches Some(p) ==> p.source() == source@,
    {
        compile(source)
    }
}

/// Finds the addresses in lines of text and annotates them.
pub struct Annotator {
    pattern: Pattern,
    first_group: &'static str,
    second_group: &'static str,
    style: Style,
}

impl Annotator {
    /// How annotations are written.
    pub closed spec fn style(&self) -> Style {
        self.style
    }

    /// The text of the pattern that finds the tokens.
    pub closed spec fn pattern_text(&self) -> Seq<char> {
        self.pattern.source()
    }

    /// The name of the group whose match is a token.
    pub closed spec fn first_group(&self) -> Seq<char> {
        self.first_group@
    }

    /// The name of the group whose match is a token where the first group
    /// took no part in the match.
    pub closed spec fn second_group(&self) -> Seq<char> {
        self.second_group@
    }

    /// The annotator that finds its tokens with a compiled pattern, in the
    /// two groups that are named. There is none where there is no compiled
    /// pattern.
    pub fn from_compiled(
        compiled: Option<Pattern>,
        first_group: &'static str,
        second_group: &'static str,
        style: Style,
    ) -> (annotator: Option<Annotator>)
        ensures
            match compiled {
                Some(pattern) => annotator is Some && annotator->0.pattern_text()
                    == pattern.source() && annotator->0.first_group() == first_group@
                    && annotator->0.second_group() == second_group@ && annotator->0.style()
                    == style,
                None => annotator is None,
            },
    {
        match compiled {
            Some(pattern) => Some(Annotator { pattern, first_group, second_group, style }),
            None => None,
        }
    }

    /// An annotator that finds the addresses of both families in one pass,
    /// with [`COMBINED_PATTERN`]: a token is what the group `ip4` matched,
    /// or else the group `ip6`. There is one exactly where the pattern is
    /// accepted.
    pub fn combined(style: Style) -> (annotator: Option<Annotator>)
        ensures
            annotator is Some <==> pattern_accepted(COMBINED_PATTERN@),
            annotator matches Some(a) ==> a.style() == style && a.pattern_text()
                == COMBINED_PATTERN@ && a.first_group() == "ip4"@ && a.second_group() == "ip6"@,
    {
        Annotator::from_compiled(Pattern::compile(COMBINED_PATTERN), "ip4", "ip6", style)
    }

    /// An annotator that finds dotted quads, with [`IPV4_PATTERN`]: a token
    /// is what the group `ip` matched. There is one exactly where the
    /// pattern is accepted.
    pub fn ipv4(style: Style) -> (annotator: Option<Annotator>)
        ensures
            annotator is Some <==> pattern_accepted(IPV4_PATTERN@),
            annotator matches Some(a) ==> a.style() == style && a.pattern_text() == IPV4_PATTERN@
                && a.first_group() == "ip"@ && a.second_group() == "ip"@,
    {
        Annotator::from_compiled(Pattern::compile(IPV4_PATTERN), "ip", "ip", style)
    }

    /// An annotator that finds IPv6 addresses and leaves alone the IPv4
    /// addresses that are mapped into IPv6, with [`IPV6_PATTERN`]: a token
    /// is what the group `ip` matched. There is one exactly where the
    /// pattern is accepted.
    pub fn ipv6(style: Style) -> (annotator: Option<Annotator>)
        ensures
            annotator is Some <==> pattern_accepted(IPV6_PATTERN@),
            annotator matches Some(a) ==> a.style() == style && a.pattern_text() == IPV6_PATTERN@
                && a.first_group() == "ip"@ && a.second_group() == "ip"@,
    {
        Annotator::from_compiled(Pattern::compile(IPV6_PATTERN), "ip", "ip", style)
    }

    /// Annotates the addresses that the pattern finds in a line.
    ///
    /// The result is the line, in UTF-8, in which the tokens that the
    /// pattern finds (see [`captures_of`] and [`token_spans_of`]) are
    /// replaced as [`annotated_line`] says.
    pub fn annotate_line(&self, line: &str, asns: &Asns) -> (out: Vec<u8>)
        ensures
            out@ == annotated_line(
                encode_utf8(line@),
                token_spans_of(
                    captures_of(
                        self.pattern_text(),
                        line@,
                        self.first_group(),
                        self.second_group(),
                    ),
                ),
                asns@.records,
                self.style()@,
            ),
    {
        let captures = captured_spans(&self.pattern, line, self.first_group, self.second_group);
        let spans = token_spans(&captures);
        annotate_spans(line.as_bytes(), &spans, asns, &self.style)
    }

    /// Annotates the addresses that the pattern finds in a line as
    /// [`Annotator::annotate_line`] does, with a memo that is kept from line
    /// to line.
    pub fn annotate_line_with_memo(&self, line: &str, asns: &Asns, memo: &mut Memo) -> (out: Vec<u8>)
        requires
            old(memo).remembers(asns@.records, self.style()@),
        ensures
            out@ == annotated_line(
                encode_utf8(line@),
                token_spans_of(
                    captures_of(
                        self.pattern_text(),
                        line@,
                        self.first_group(),
                        self.second_group(),
                    ),
                ),
                asns@.records,
                self.style()@,
            ),
            final(memo).remembers(asns@.records, self.style()@),
            final(memo)@ == memo_after(
                old(memo)@,
                encode_utf8(line@),
                token_spans_of(
                    captures_of(
                        self.pattern_text(),
                        line@,
                        self.first_group(),
                        self.second_group(),
                    ),
                ),
                0,
                0,
                asns@.records,
                self.style()@,
            ),
    {
        let captures = captured_spans(&self.pattern, line, self.first_group, self.second_group);
        let spans = token_spans(&captures);
        annotate_spans_with_memo(line.as_bytes(), &spans, asns, &self.style, memo)
    }
}

} // verus!

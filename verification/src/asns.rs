use crate::error::LoadError;
use crate::index::{
    lemma_count_up_to_splits, predecessor, strictly_ascending, with_record, RangeIndex,
};
use crate::intern::{pool_with, share, InternPool};
use crate::ip::IpAddress;
use crate::ip_text::{ip_of, parse_ip};
use crate::text::{
    is_blank, lemma_split_nonempty, parse_u32, split, split_at_char, text_is_blank, texts_of,
    u32_of,
};
use flate2::read::GzDecoder;
use std::collections::HashMap;
use std::io::Read;
use std::sync::Arc;
use vstd::prelude::*;

verus! {

/// One announced range: the addresses from `first_ip` to `last_ip`, both
/// included, and the autonomous system that announces them. The number 0
/// marks a range that nobody announces.
///
/// The texts are shared between all records of a dataset that carry the
/// same text.
#[derive(Clone, Debug)]
pub struct Asn {
    pub first_ip: IpAddress,
    pub last_ip: IpAddress,
    pub number: u32,
    pub country: Arc<String>,
    pub description: Arc<String>,
}

/// What a record holds, with its texts as sequences of characters.
pub struct AsnView {
    pub first_ip: IpAddress,
    pub last_ip: IpAddress,
    pub number: u32,
    pub country: Seq<char>,
    pub description: Seq<char>,
}

impl View for Asn {
    type V = AsnView;

    open spec fn view(&self) -> AsnView {
        AsnView {
            first_ip: self.first_ip,
            last_ip: self.last_ip,
            number: self.number,
            country: self.country@,
            description: self.description@,
        }
    }
}

impl AsnView {
    /// Whether the range of the record holds `ip`.
    pub open spec fn covers(self, ip: IpAddress) -> bool {
        self.first_ip.rank() <= ip.rank() <= self.last_ip.rank()
    }

    /// Whether the record says that an autonomous system announces `ip`.
    pub open spec fn announces(self, ip: IpAddress) -> bool {
        self.covers(ip) && self.number != 0
    }
}

impl Asn {
    /// A record that holds what this one holds and shares its texts.
    pub fn duplicate(&self) -> (record: Asn)
        ensures
            record@ == self@,
    {
        Asn {
            first_ip: self.first_ip,
            last_ip: self.last_ip,
            number: self.number,
            country: share(&self.country),
            description: share(&self.description),
        }
    }

    /// The record of the range that holds `ip` alone, announced by nobody
    /// and without texts.
    pub fn from_single_ip(ip: IpAddress) -> (record: Asn)
        ensures
            record@ == (AsnView {
                first_ip: ip,
                last_ip: ip,
                number: 0,
                country: Seq::<char>::empty(),
                description: Seq::<char>::empty(),
            }),
    {
        Asn {
            first_ip: ip,
            last_ip: ip,
            number: 0,
            country: Arc::new(String::new()),
            description: Arc::new(String::new()),
        }
    }
}

/// What a line of the dataset says, if it is a valid row.
///
/// The line is cut at its tabs into the fields first address, last address,
/// number, country and description. The two addresses and the number must be
/// there and well written, and the first address must not lie above the
/// last. The country and the description are empty where the line ends
/// before them. A line of white space alone is no row.
#[verifier::opaque]
pub open spec fn row_of(line: Seq<char>) -> Option<AsnView> {
    let f = split(line, '\t');
    if !is_blank(line) && f.len() >= 3 && ip_of(f[0]) is Some && ip_of(f[1]) is Some && u32_of(
        f[2],
    ) is Some && ip_of(f[0])->0.rank() <= ip_of(f[1])->0.rank() {
        Some(
            AsnView {
                first_ip: ip_of(f[0])->0,
                last_ip: ip_of(f[1])->0,
                number: u32_of(f[2])->0,
                country: if f.len() > 3 {
                    f[3]
                } else {
                    Seq::<char>::empty()
                },
                description: if f.len() > 4 {
                    f[4]
                } else {
                    Seq::<char>::empty()
                },
            },
        )
    } else {
        None
    }
}

/// A valid row ends at or above the address at which it starts.
pub proof fn lemma_rows_are_ordered(line: Seq<char>)
    ensures
        row_of(line) matches Some(r) ==> r.first_ip.rank() <= r.last_ip.rank(),
{
    reveal(row_of);
}

/// The lines of a text: what its line feeds cut it into, without the empty
/// piece that follows a line feed at the very end.
pub open spec fn lines_of(text: Seq<char>) -> Seq<Seq<char>> {
    let pieces = split(text, '\n');
    if pieces.last().len() == 0 {
        pieces.drop_last()
    } else {
        pieces
    }
}

/// What the lines read so far amount to.
pub struct Ingested {
    /// The Range Index: the records, ordered by their first address.
    pub records: Seq<AsnView>,
    /// The Metadata Registry: country and description by number.
    pub meta: Map<u32, (Seq<char>, Seq<char>)>,
    /// The distinct countries, in the order of first appearance.
    pub countries: Seq<Seq<char>>,
    /// The distinct descriptions, in the order of first appearance.
    pub descriptions: Seq<Seq<char>>,
}

/// The registry after the record was shown to it: the first record of a
/// number decides its country and description, later ones change nothing.
pub open spec fn meta_with(meta: Map<u32, (Seq<char>, Seq<char>)>, record: AsnView) -> Map<
    u32,
    (Seq<char>, Seq<char>),
> {
    if meta.contains_key(record.number) {
        meta
    } else {
        meta.insert(record.number, (record.country, record.description))
    }
}

/// What has been ingested once `line` was read after `state`: a line that
/// is no valid row changes nothing.
pub open spec fn after_line(state: Ingested, line: Seq<char>) -> Ingested {
    match row_of(line) {
        None => state,
        Some(record) => Ingested {
            records: with_record(state.records, record),
            meta: meta_with(state.meta, record),
            countries: pool_with(state.countries, record.country),
            descriptions: pool_with(state.descriptions, record.description),
        },
    }
}

/// What reading `lines` in order amounts to.
pub open spec fn ingest(lines: Seq<Seq<char>>) -> Ingested
    decreases lines.len(),
{
    if lines.len() == 0 {
        Ingested {
            records: Seq::empty(),
            meta: Map::empty(),
            countries: Seq::empty(),
            descriptions: Seq::empty(),
        }
    } else {
        after_line(ingest(lines.drop_last()), lines.last())
    }
}

/// What a snapshot holds.
pub struct AsnsView {
    /// The Range Index: the records, ordered by their first address.
    pub records: Seq<AsnView>,
    /// The Metadata Registry: country and description by number.
    pub meta: Map<u32, (Seq<char>, Seq<char>)>,
    /// Number of distinct countries met while the dataset was read.
    pub distinct_countries: nat,
    /// Number of distinct descriptions met while the dataset was read.
    pub distinct_descriptions: nat,
}

/// The snapshot that the ingested lines make.
pub open spec fn snapshot_of(state: Ingested) -> AsnsView {
    AsnsView {
        records: state.records,
        meta: state.meta,
        distinct_countries: state.countries.len(),
        distinct_descriptions: state.descriptions.len(),
    }
}

/// The snapshot that the text of a dataset makes.
pub open spec fn dataset_of(text: Seq<char>) -> AsnsView {
    snapshot_of(ingest(lines_of(text)))
}

/// The record that announces `ip` according to ordered records: the one
/// that starts last at or before `ip`, provided that its range reaches `ip`
/// and that its number is not 0. No other record is consulted.
pub open spec fn announcing(records: Seq<AsnView>, ip: IpAddress) -> Option<AsnView> {
    match predecessor(records, ip) {
        Some(record) => if record.announces(ip) {
            Some(record)
        } else {
            None
        },
        None => None,
    }
}

/// The ranges of the records with the given number, in the order of the
/// records.
pub open spec fn ranges_of(records: Seq<AsnView>, number: u32) -> Seq<(IpAddress, IpAddress)>
    decreases records.len(),
{
    if records.len() == 0 {
        Seq::empty()
    } else {
        let before = ranges_of(records.drop_last(), number);
        if records.last().number == number {
            before.push((records.last().first_ip, records.last().last_ip))
        } else {
            before
        }
    }
}

/// The text that a gzip stream unpacks to: what `GzDecoder` over the bytes
/// hands to `read_to_string`, or `None` where the bytes are no gzip stream
/// or what they hold is not UTF-8.
pub uninterp spec fn gunzip_text(bytes: Seq<u8>) -> Option<Seq<char>>;

/// Unpacks a gzip stream to text with `flate2::read::GzDecoder` and
/// `read_to_string`. The result is a function of the bytes alone, named
/// [`gunzip_text`]; nothing else is claimed of it.
#[verifier::external_body]
fn gunzip_to_string(bytes: &Vec<u8>) -> (text: Option<String>)
    ensures
        match text {
            Some(t) => gunzip_text(bytes@) == Some(t@),
            None => gunzip_text(bytes@) is None,
        },
{
    let mut data = String::new();
    match GzDecoder::new(bytes.as_slice()).read_to_string(&mut data) {
        Ok(_) => Some(data),
        Err(_) => None,
    }
}

/// The texts of the registry's entries.
pub open spec fn meta_texts(meta: Map<u32, (Arc<String>, Arc<String>)>) -> Map<
    u32,
    (Seq<char>, Seq<char>),
> {
    Map::new(|k: u32| meta.contains_key(k), |k: u32| (meta[k].0@, meta[k].1@))
}

/// One row of the dataset, as read from a line.
struct Row {
    first_ip: IpAddress,
    last_ip: IpAddress,
    number: u32,
    country: Vec<char>,
    description: Vec<char>,
}

impl View for Row {
    type V = AsnView;

    closed spec fn view(&self) -> AsnView {
        AsnView {
            first_ip: self.first_ip,
            last_ip: self.last_ip,
            number: self.number,
            country: self.country@,
            description: self.description@,
        }
    }
}

/// Reads a line of the dataset (see [`row_of`]).
fn parse_row(line: &Vec<char>) -> (row: Option<Row>)
    ensures
        match row {
            Some(r) => row_of(line@) == Some(r@),
            None => row_of(line@) is None,
        },
{
    reveal(row_of);
    if text_is_blank(line) {
        return None;
    }
    let mut fields = split_at_char(line, '\t');
    let ghost f = texts_of(fields@);
    if fields.len() < 3 {
        return None;
    }
    proof {
        assert(f[0] == fields@[0]@);
        assert(f[1] == fields@[1]@);
        assert(f[2] == fields@[2]@);
    }
    let first_ip = match parse_ip(&fields[0]) {
        Some(ip) => ip,
        None => {
            return None;
        },
    };
    let last_ip = match parse_ip(&fields[1]) {
        Some(ip) => ip,
        None => {
            return None;
        },
    };
    let number = match parse_u32(&fields[2]) {
        Some(n) => n,
        None => {
            return None;
        },
    };
    if !first_ip.le(&last_ip) {
        return None;
    }
    let mut description: Vec<char> = Vec::new();
    let mut country: Vec<char> = Vec::new();
    if fields.len() > 4 {
        assert(f[4] == fields@[4]@);
        description = fields.swap_remove(4);
    }
    if fields.len() > 3 {
        assert(f[3] == fields@[3]@);
        country = fields.swap_remove(3);
    }
    Some(Row { first_ip, last_ip, number, country, description })
}

/// The state of an ingestion.
struct Ingestion {
    index: RangeIndex,
    meta: HashMap<u32, (Arc<String>, Arc<String>)>,
    countries: InternPool,
    descriptions: InternPool,
}

impl View for Ingestion {
    type V = Ingested;

    closed spec fn view(&self) -> Ingested {
        Ingested {
            records: self.index@,
            meta: meta_texts(self.meta@),
            countries: self.countries@,
            descriptions: self.descriptions@,
        }
    }
}

impl Ingestion {
    spec fn wf(&self) -> bool {
        &&& self.index.wf()
        &&& ranges_ordered(self.index@)
        &&& self.countries.wf()
        &&& self.descriptions.wf()
    }

    fn new() -> (state: Ingestion)
        ensures
            state.wf(),
            state@ == ingest(Seq::empty()),
    {
        let state = Ingestion {
            index: RangeIndex::new(),
            meta: HashMap::new(),
            countries: InternPool::new(),
            descriptions: InternPool::new(),
        };
        assert(meta_texts(state.meta@) =~= Map::empty());
        state
    }

    /// Reads one line (see [`after_line`]).
    fn line(&mut self, line: &Vec<char>)
        requires
            old(self).wf(),
        ensures
            final(self).wf(),
            final(self)@ == after_line(old(self)@, line@),
    {
        broadcast use vstd::std_specs::hash::group_hash_axioms;

        let row = match parse_row(line) {
            Some(row) => row,
            None => {
                return ;
            },
        };
        let ghost shown = row@;
        let ghost meta_before = meta_texts(self.meta@);
        let country = self.countries.intern(&row.country);
        let description = self.descriptions.intern(&row.description);
        if !self.meta.contains_key(&row.number) {
            self.meta.insert(row.number, (share(&country), share(&description)));
            assert(meta_texts(self.meta@) =~= meta_before.insert(
                shown.number,
                (shown.country, shown.description),
            ));
        }
        let record = Asn {
            first_ip: row.first_ip,
            last_ip: row.last_ip,
            number: row.number,
            country,
            description,
        };
        assert(record@ == shown);
        let ghost before = self.index@;
        self.index.insert(record);
        proof {
            lemma_rows_are_ordered(line@);
            crate::index::lemma_with_record(before, shown);
            assert forall|i: int| 0 <= i < self.index@.len() implies (
            #[trigger] self.index@[i]).first_ip.rank() <= self.index@[i].last_ip.rank() by {
                let r = self.index@[i];
                assert(self.index@.contains(r));
                if before.contains(r) {
                    let k = choose|k: int| 0 <= k < before.len() && before[k] == r;
                    assert(before[k].first_ip.rank() <= before[k].last_ip.rank());
                }
            }
        }
    }
}

/// A snapshot: the Range Index and the Metadata Registry that one dataset
/// makes. It does not change once it is built.
pub struct Asns {
    asns: RangeIndex,
    asn_meta: HashMap<u32, (Arc<String>, Arc<String>)>,
    distinct_countries: usize,
    distinct_descriptions: usize,
}

impl View for Asns {
    type V = AsnsView;

    closed spec fn view(&self) -> AsnsView {
        AsnsView {
            records: self.asns@,
            meta: meta_texts(self.asn_meta@),
            distinct_countries: self.distinct_countries as nat,
            distinct_descriptions: self.distinct_descriptions as nat,
        }
    }
}

impl Asns {
    /// What every snapshot keeps, whoever holds it.
    #[verifier::type_invariant]
    spec fn ordered(self) -> bool {
        &&& strictly_ascending(self.asns@)
        &&& ranges_ordered(self.asns@)
    }

    /// The records are ordered by their first address, no two of them start
    /// at one address, and each of them ends at or above the address at
    /// which it starts.
    pub open spec fn wf(&self) -> bool {
        &&& strictly_ascending(self@.records)
        &&& ranges_ordered(self@.records)
    }

    /// Tells that the snapshot is well formed, as every snapshot is.
    pub fn is_well_formed(&self)
        ensures
            self.wf(),
    {
        proof {
            use_type_invariant(self);
        }
    }

    /// Builds the snapshot of a dataset from its text, one row per line.
    /// Lines that are no valid row are passed over.
    pub fn from_text(text: &str) -> (asns: Asns)
        ensures
            asns.wf(),
            asns@ == dataset_of(text@),
    {
        let mut state = Ingestion::new();
        let mut line: Vec<char> = Vec::new();
        proof {
            assert(text@.take(0) =~= Seq::<char>::empty());
            assert(split(text@.take(0), '\n').drop_last() =~= Seq::<Seq<char>>::empty());
        }
        for c in it: text.chars()
            invariant
                it.seq() == text@,
                state.wf(),
                state@ == ingest(split(text@.take(it.index()), '\n').drop_last()),
                line@ == split(text@.take(it.index()), '\n').last(),
        {
            let ghost i = it.index();
            let ghost before = split(text@.take(i), '\n');
            proof {
                let now = text@.take(i + 1);
                assert(now.drop_last() == text@.take(i));
                assert(now.last() == c);
                lemma_split_nonempty(text@.take(i), '\n');
            }
            if c == '\n' {
                state.line(&line);
                line = Vec::new();
                proof {
                    let after = before.push(Seq::<char>::empty());
                    assert(after.drop_last() == before);
                    assert(before.drop_last() == before.take(before.len() - 1));
                }
            } else {
                line.push(c);
                proof {
                    let after = before.drop_last().push(before.last().push(c));
                    assert(after.drop_last() == before.drop_last());
                }
            }
        }
        proof {
            assert(text@.take(text@.len() as int) == text@);
            lemma_split_nonempty(text@, '\n');
        }
        if line.len() > 0 {
            state.line(&line);
        }
        let asns = Asns {
            distinct_countries: state.countries.len(),
            distinct_descriptions: state.descriptions.len(),
            asns: state.index,
            asn_meta: state.meta,
        };
        asns
    }

    /// Builds the snapshot of a dataset from its gzip-compressed bytes.
    ///
    /// The bytes are unpacked with the outside decoder; where that fails the
    /// result is [`LoadError::Decompress`], and otherwise it is the snapshot
    /// that [`Asns::from_text`] makes of the unpacked text.
    pub fn parse_data(bytes: Vec<u8>) -> (result: Result<Asns, LoadError>)
        ensures
            match result {
                Ok(asns) => asns.wf() && gunzip_text(bytes@) is Some && asns@ == dataset_of(
                    gunzip_text(bytes@)->0,
                ),
                Err(e) => e == LoadError::Decompress && gunzip_text(bytes@) is None,
            },
    {
        match gunzip_to_string(&bytes) {
            Some(text) => Ok(Asns::from_text(text.as_str())),
            None => Err(LoadError::Decompress),
        }
    }

    /// Number of records in the Range Index.
    pub fn len(&self) -> (n: usize)
        ensures
            n == self@.records.len(),
    {
        self.asns.len()
    }

    /// Number of distinct countries met while the dataset was read.
    pub fn distinct_countries(&self) -> (n: usize)
        ensures
            n == self@.distinct_countries,
    {
        self.distinct_countries
    }

    /// Number of distinct descriptions met while the dataset was read.
    pub fn distinct_descriptions(&self) -> (n: usize)
        ensures
            n == self@.distinct_descriptions,
    {
        self.distinct_descriptions
    }

    /// The record that announces `ip` (see [`announcing`]): `None` where no
    /// record starts at or before `ip`, where the one that starts last
    /// there ends before `ip`, and where its number is 0.
    pub fn lookup_by_ip(&self, ip: IpAddress) -> (found: Option<&Asn>)
        ensures
            match found {
                Some(record) => announcing(self@.records, ip) == Some(record@),
                None => announcing(self@.records, ip) is None,
            },
    {
        proof {
            use_type_invariant(self);
            lemma_count_up_to_splits(self@.records, ip.rank());
        }
        match self.asns.predecessor(ip) {
            Some(record) => {
                if ip.le(&record.last_ip) && record.number > 0 {
                    Some(record)
                } else {
                    None
                }
            },
            None => None,
        }
    }

    /// The country and the description of the autonomous system with the
    /// given number: those of the first row of the dataset that carries the
    /// number.
    pub fn lookup_meta_by_asn(&self, number: u32) -> (found: Option<(Arc<String>, Arc<String>)>)
        ensures
            match found {
                Some(texts) => self@.meta.contains_key(number) && self@.meta[number] == (
                    texts.0@,
                    texts.1@,
                ),
                None => !self@.meta.contains_key(number),
            },
    {
        broadcast use vstd::std_specs::hash::group_hash_axioms;

        match self.asn_meta.get(&number) {
            Some(texts) => Some((share(&texts.0), share(&texts.1))),
            None => None,
        }
    }

    /// The ranges that the autonomous system with the given number
    /// announces, in ascending order.
    pub fn collect_ranges_by_asn(&self, number: u32) -> (ranges: Vec<(IpAddress, IpAddress)>)
        ensures
            ranges@ == ranges_of(self@.records, number),
    {
        let mut ranges: Vec<(IpAddress, IpAddress)> = Vec::new();
        let n = self.asns.len();
        let mut i: usize = 0;
        assert(self@.records.take(0) =~= Seq::<AsnView>::empty());
        while i < n
            invariant
                i <= n,
                n == self@.records.len(),
                ranges@ == ranges_of(self@.records.take(i as int), number),
            decreases n - i,
        {
            let record = self.asns.record(i);
            proof {
                let now = self@.records.take(i + 1);
                assert(now.drop_last() == self@.records.take(i as int));
                assert(now.last() == record@);
            }
            if record.number == number {
                ranges.push((record.first_ip, record.last_ip));
            }
            i += 1;
        }
        assert(self@.records.take(n as int) == self@.records);
        ranges
    }
}

/// Whether every record ends at or above the address at which it starts.
pub open spec fn ranges_ordered(records: Seq<AsnView>) -> bool {
    forall|i: int|
        0 <= i < records.len() ==> (#[trigger] records[i]).first_ip.rank()
            <= records[i].last_ip.rank()
}

/// Whether the lookup of `ip` misses a record that announces it: some record
/// announces `ip`, but the record that starts last at or before `ip`, the
/// only one that the lookup consults, does not. This takes ranges that
/// overlap.
pub open spec fn shadowed(records: Seq<AsnView>, ip: IpAddress) -> bool {
    exists|i: int, j: int|
        0 <= i < records.len() && 0 <= j < records.len() && (#[trigger] records[i]).announces(ip)
            && starts_last(records, j, ip) && !(#[trigger] records[j]).announces(ip)
}

/// Whether record `j` starts at or before `ip` and no record that starts at
/// or before `ip` starts after it.
pub open spec fn starts_last(records: Seq<AsnView>, j: int, ip: IpAddress) -> bool {
    &&& 0 <= j < records.len()
    &&& records[j].first_ip.rank() <= ip.rank()
    &&& forall|k: int|
        0 <= k < records.len() && (#[trigger] records[k]).first_ip.rank() <= ip.rank()
            ==> records[k].first_ip.rank() <= records[j].first_ip.rank()
}

/// Whether no address lies in the ranges of two records.
pub open spec fn ranges_disjoint(records: Seq<AsnView>) -> bool {
    forall|i: int, j: int, ip: IpAddress|
        0 <= i < records.len() && 0 <= j < records.len() && #[trigger] records[i].covers(ip)
            && #[trigger] records[j].covers(ip) ==> i == j
}

/// What a lookup returns is a record of the index that announces the
/// address: its range holds the address and its number is not 0.
pub proof fn lemma_lookup_is_sound(records: Seq<AsnView>, ip: IpAddress)
    requires
        strictly_ascending(records),
    ensures
        announcing(records, ip) matches Some(r) ==> records.contains(r) && r.first_ip.rank()
            <= ip.rank() <= r.last_ip.rank() && r.number != 0,
{
    crate::index::lemma_predecessor(records, ip);
}

/// A lookup returns a record exactly when some record of the index
/// announces the address, that is holds it in its range and has a number
/// other than 0, unless the address is shadowed (see [`shadowed`]).
pub proof fn lemma_lookup_finds_what_is_announced(records: Seq<AsnView>, ip: IpAddress)
    requires
        strictly_ascending(records),
        !shadowed(records, ip),
    ensures
        announcing(records, ip) is Some <==> exists|i: int|
            0 <= i < records.len() && (#[trigger] records[i]).announces(ip),
{
    crate::index::lemma_predecessor(records, ip);
    if exists|i: int| 0 <= i < records.len() && (#[trigger] records[i]).announces(ip) {
        let i = choose|i: int| 0 <= i < records.len() && (#[trigger] records[i]).announces(ip);
        assert(predecessor(records, ip) is Some);
        let p = predecessor(records, ip)->0;
        let j = choose|j: int| 0 <= j < records.len() && records[j] == p;
        assert(starts_last(records, j, ip));
        if !p.announces(ip) {
            assert(records[i].announces(ip) && starts_last(records, j, ip) && !records[j].announces(
                ip,
            ));
        }
    }
    if announcing(records, ip) is Some {
        let p = predecessor(records, ip)->0;
        let j = choose|j: int| 0 <= j < records.len() && records[j] == p;
        assert(records[j].announces(ip));
    }
}

/// Where the ranges of the records do not overlap, no address is shadowed:
/// a lookup then returns a record exactly when some record announces the
/// address.
pub proof fn lemma_disjoint_ranges_are_never_shadowed(records: Seq<AsnView>, ip: IpAddress)
    requires
        strictly_ascending(records),
        ranges_ordered(records),
        ranges_disjoint(records),
    ensures
        !shadowed(records, ip),
{
    if shadowed(records, ip) {
        let (i, j) = choose|i: int, j: int|
            0 <= i < records.len() && 0 <= j < records.len() && (#[trigger] records[i]).announces(
                ip,
            ) && starts_last(records, j, ip) && !(#[trigger] records[j]).announces(ip);
        // Record `j` starts within the range of record `i`, and within its own.
        let start = records[j].first_ip;
        assert(records[i].first_ip.rank() <= records[j].first_ip.rank());
        assert(records[i].covers(start));
        assert(records[j].covers(start));
    }
}

/// Every record that reading the lines leaves in the Range Index is the row
/// of one of the lines; the records are ordered by their first address, and
/// each of them ends at or above the address at which it starts.
pub proof fn lemma_ingested_records(lines: Seq<Seq<char>>)
    ensures
        strictly_ascending(ingest(lines).records),
        ranges_ordered(ingest(lines).records),
        forall|r: AsnView|
            ingest(lines).records.contains(r) ==> exists|j: int|
                0 <= j < lines.len() && #[trigger] row_of(lines[j]) == Some(r),
    decreases lines.len(),
{
    if lines.len() > 0 {
        let before = ingest(lines.drop_last());
        let after = ingest(lines);
        lemma_ingested_records(lines.drop_last());
        lemma_rows_are_ordered(lines.last());
        match row_of(lines.last()) {
            None => {},
            Some(record) => {
                crate::index::lemma_with_record(before.records, record);
            },
        }
        assert forall|r: AsnView| after.records.contains(r) implies exists|j: int|
            0 <= j < lines.len() && #[trigger] row_of(lines[j]) == Some(r) by {
            if before.records.contains(r) {
                let j = choose|j: int|
                    0 <= j < lines.drop_last().len() && #[trigger] row_of(lines.drop_last()[j])
                        == Some(r);
                assert(lines.drop_last()[j] == lines[j]);
                assert(row_of(lines[j]) == Some(r));
            } else {
                assert(row_of(lines[lines.len() - 1]) == Some(r));
            }
        }
        assert forall|i: int| 0 <= i < after.records.len() implies (
        #[trigger] after.records[i]).first_ip.rank() <= after.records[i].last_ip.rank() by {
            let r = after.records[i];
            assert(after.records.contains(r));
            if before.records.contains(r) {
                let k = choose|k: int| 0 <= k < before.records.len() && before.records[k] == r;
                assert(before.records[k].first_ip.rank() <= before.records[k].last_ip.rank());
            }
        }
    }
}

/// A line that is no valid row leaves no trace: the lines before and after
/// it are ingested as if it were not there.
pub proof fn lemma_invalid_lines_are_skipped(
    before: Seq<Seq<char>>,
    line: Seq<char>,
    after: Seq<Seq<char>>,
)
    requires
        row_of(line) is None,
    ensures
        ingest(before.push(line) + after) == ingest(before + after),
    decreases after.len(),
{
    if after.len() == 0 {
        assert(before.push(line) + after == before.push(line));
        assert(before + after == before);
        assert(before.push(line).drop_last() == before);
    } else {
        lemma_invalid_lines_are_skipped(before, line, after.drop_last());
        assert((before.push(line) + after).drop_last() == before.push(line) + after.drop_last());
        assert((before + after).drop_last() == before + after.drop_last());
    }
}

/// The first row of a number decides what the Metadata Registry holds for
/// it: once `first` was shown to the registry, showing `second`, which
/// carries the same number, changes nothing.
pub proof fn lemma_first_row_of_a_number_wins(
    meta: Map<u32, (Seq<char>, Seq<char>)>,
    first: AsnView,
    second: AsnView,
)
    requires
        first.number == second.number,
    ensures
        meta_with(meta_with(meta, first), second) == meta_with(meta, first),
{
}

/// Of two rows that start at one address the earlier one stays in the
/// Range Index: a later row with the same first address leaves the records
/// as they were.
pub proof fn lemma_later_row_of_an_address_is_dropped(
    lines: Seq<Seq<char>>,
    earlier: Seq<char>,
    later: Seq<char>,
)
    requires
        row_of(earlier) is Some,
        row_of(later) is Some,
        row_of(earlier)->0.first_ip == row_of(later)->0.first_ip,
    ensures
        ingest(lines.push(earlier).push(later)).records == ingest(lines.push(earlier)).records,
        crate::index::has_start(ingest(lines.push(earlier)).records, row_of(earlier)->0.first_ip),
{
    let one = lines.push(earlier);
    let two = one.push(later);
    assert(one.drop_last() == lines);
    assert(two.drop_last() == one);
    crate::index::lemma_first_record_of_an_address_wins(
        ingest(lines).records,
        row_of(earlier)->0,
        row_of(later)->0,
    );
}

/// Whether line `j` is a valid row that starts at `ip`.
pub open spec fn row_starts_at(lines: Seq<Seq<char>>, j: int, ip: IpAddress) -> bool {
    &&& 0 <= j < lines.len()
    &&& row_of(lines[j]) is Some
    &&& row_of(lines[j])->0.first_ip == ip
}

/// Whether line `j` is a valid row that carries `number`.
pub open spec fn row_carries(lines: Seq<Seq<char>>, j: int, number: u32) -> bool {
    &&& 0 <= j < lines.len()
    &&& row_of(lines[j]) is Some
    &&& row_of(lines[j])->0.number == number
}

/// Whether line `j` is a valid row and the first one that starts at its
/// first address.
pub open spec fn first_row_of_its_start(lines: Seq<Seq<char>>, j: int) -> bool {
    &&& 0 <= j < lines.len()
    &&& row_of(lines[j]) is Some
    &&& forall|i: int| 0 <= i < j ==> !#[trigger] row_starts_at(lines, i, row_of(lines[j])->0.first_ip)
}

/// Whether line `j` is a valid row and the first one that carries its
/// number.
pub open spec fn first_row_of_its_number(lines: Seq<Seq<char>>, j: int) -> bool {
    &&& 0 <= j < lines.len()
    &&& row_of(lines[j]) is Some
    &&& forall|i: int| 0 <= i < j ==> !#[trigger] row_carries(lines, i, row_of(lines[j])->0.number)
}

/// Some record of the Range Index starts at an address exactly when some
/// valid row starts there.
pub proof fn lemma_index_starts(lines: Seq<Seq<char>>, ip: IpAddress)
    ensures
        crate::index::has_start(ingest(lines).records, ip) <==> exists|j: int|
            row_starts_at(lines, j, ip),
    decreases lines.len(),
{
    let after = ingest(lines).records;
    if lines.len() == 0 {
    } else {
        let shorter = lines.drop_last();
        let before = ingest(shorter).records;
        let n = lines.len() - 1;
        lemma_index_starts(shorter, ip);
        lemma_ingested_records(shorter);
        if exists|j: int| row_starts_at(shorter, j, ip) {
            let j = choose|j: int| row_starts_at(shorter, j, ip);
            assert(shorter[j] == lines[j]);
            assert(row_starts_at(lines, j, ip));
        }
        if exists|j: int| row_starts_at(lines, j, ip) {
            let j = choose|j: int| row_starts_at(lines, j, ip);
            if j < n {
                assert(shorter[j] == lines[j]);
                assert(row_starts_at(shorter, j, ip));
            }
        }
        match row_of(lines[n]) {
            None => {},
            Some(record) => {
                crate::index::lemma_with_record(before, record);
                assert(lines.last() == lines[n]);
                assert(after == with_record(before, record));
                if crate::index::has_start(before, ip) {
                    let i = choose|i: int|
                        0 <= i < before.len() && (#[trigger] before[i]).first_ip == ip;
                    assert(before.contains(before[i]));
                    assert(after.contains(before[i]));
                    let k = choose|k: int| 0 <= k < after.len() && after[k] == before[i];
                    assert(after[k].first_ip == ip);
                }
                if crate::index::has_start(after, ip) {
                    let k = choose|k: int| 0 <= k < after.len() && (#[trigger] after[k]).first_ip == ip;
                    assert(after.contains(after[k]));
                    if before.contains(after[k]) {
                        let i = choose|i: int| 0 <= i < before.len() && before[i] == after[k];
                        assert(before[i].first_ip == ip);
                    } else {
                        assert(row_starts_at(lines, n, ip));
                    }
                }
                if record.first_ip == ip && !crate::index::has_start(before, ip) {
                    assert(!crate::index::has_start(before, record.first_ip));
                    assert(with_record(before, record).contains(record));
                    assert(after.contains(record));
                    let k = choose|k: int| 0 <= k < after.len() && after[k] == record;
                    assert(after[k].first_ip == ip);
                }
            },
        }
    }
}

/// A line is the first row of its start among the lines exactly when it is
/// so among the lines without the last one, unless it is the last one.
proof fn lemma_first_row_without_last(lines: Seq<Seq<char>>, j: int)
    requires
        0 <= j < lines.len() - 1,
    ensures
        first_row_of_its_start(lines.drop_last(), j) == first_row_of_its_start(lines, j),
        first_row_of_its_number(lines.drop_last(), j) == first_row_of_its_number(lines, j),
{
    let shorter = lines.drop_last();
    assert(shorter[j] == lines[j]);
    assert forall|i: int| 0 <= i < j implies row_starts_at(
        shorter,
        i,
        row_of(lines[j])->0.first_ip,
    ) == row_starts_at(lines, i, row_of(lines[j])->0.first_ip) by {
        assert(shorter[i] == lines[i]);
    }
    assert forall|i: int| 0 <= i < j implies row_carries(shorter, i, row_of(lines[j])->0.number)
        == row_carries(lines, i, row_of(lines[j])->0.number) by {
        assert(shorter[i] == lines[i]);
    }
}

/// The Range Index holds exactly the valid rows that are the first to start
/// at their address: a record is in the index after the lines were read
/// exactly when it is such a row.
pub proof fn lemma_index_holds_first_rows(lines: Seq<Seq<char>>, r: AsnView)
    ensures
        ingest(lines).records.contains(r) <==> exists|j: int|
            first_row_of_its_start(lines, j) && #[trigger] row_of(lines[j]) == Some(r),
    decreases lines.len(),
{
    let after = ingest(lines).records;
    if lines.len() == 0 {
    } else {
        let shorter = lines.drop_last();
        let before = ingest(shorter).records;
        let n = lines.len() - 1;
        lemma_index_holds_first_rows(shorter, r);
        lemma_ingested_records(shorter);
        if exists|j: int|
            first_row_of_its_start(shorter, j) && #[trigger] row_of(shorter[j]) == Some(r) {
            let j = choose|j: int|
                first_row_of_its_start(shorter, j) && #[trigger] row_of(shorter[j]) == Some(r);
            lemma_first_row_without_last(lines, j);
            assert(shorter[j] == lines[j]);
            assert(first_row_of_its_start(lines, j) && row_of(lines[j]) == Some(r));
        }
        if exists|j: int| first_row_of_its_start(lines, j) && #[trigger] row_of(lines[j]) == Some(r) {
            let j = choose|j: int|
                first_row_of_its_start(lines, j) && #[trigger] row_of(lines[j]) == Some(r);
            if j < n {
                lemma_first_row_without_last(lines, j);
                assert(shorter[j] == lines[j]);
                assert(first_row_of_its_start(shorter, j) && row_of(shorter[j]) == Some(r));
            }
        }
        match row_of(lines[n]) {
            None => {},
            Some(record) => {
                crate::index::lemma_with_record(before, record);
                assert(lines.last() == lines[n]);
                assert(after == with_record(before, record));
                lemma_index_starts(shorter, record.first_ip);
                // The last line is the first of its start exactly when no
                // record starts there yet.
                if crate::index::has_start(before, record.first_ip) {
                    let i = choose|i: int| row_starts_at(shorter, i, record.first_ip);
                    assert(shorter[i] == lines[i]);
                    assert(row_starts_at(lines, i, record.first_ip));
                    assert(!first_row_of_its_start(lines, n));
                } else {
                    assert forall|i: int| 0 <= i < n implies !#[trigger] row_starts_at(
                        lines,
                        i,
                        record.first_ip,
                    ) by {
                        assert(shorter[i] == lines[i]);
                        if row_starts_at(lines, i, record.first_ip) {
                            assert(row_starts_at(shorter, i, record.first_ip));
                        }
                    }
                    assert(first_row_of_its_start(lines, n));
                }
            },
        }
    }
}

/// The Metadata Registry knows a number exactly when some valid row carries
/// it.
pub proof fn lemma_registry_numbers(lines: Seq<Seq<char>>, number: u32)
    ensures
        ingest(lines).meta.contains_key(number) <==> exists|j: int| row_carries(lines, j, number),
    decreases lines.len(),
{
    if lines.len() > 0 {
        let shorter = lines.drop_last();
        let n = lines.len() - 1;
        lemma_registry_numbers(shorter, number);
        if exists|j: int| row_carries(shorter, j, number) {
            let j = choose|j: int| row_carries(shorter, j, number);
            assert(shorter[j] == lines[j]);
            assert(row_carries(lines, j, number));
        }
        if exists|j: int| row_carries(lines, j, number) {
            let j = choose|j: int| row_carries(lines, j, number);
            if j < n {
                assert(shorter[j] == lines[j]);
                assert(row_carries(shorter, j, number));
            }
        }
        if row_of(lines[n]) is Some && row_of(lines[n])->0.number == number {
            assert(row_carries(lines, n, number));
        }
    }
}

/// The Metadata Registry holds, for the number of a valid row that is the
/// first to carry it, the country and the description of that row.
pub proof fn lemma_registry_holds_first_rows(lines: Seq<Seq<char>>, j: int)
    requires
        first_row_of_its_number(lines, j),
    ensures
        ingest(lines).meta.contains_key(row_of(lines[j])->0.number),
        ingest(lines).meta[row_of(lines[j])->0.number] == (
            row_of(lines[j])->0.country,
            row_of(lines[j])->0.description,
        ),
    decreases lines.len(),
{
    let shorter = lines.drop_last();
    let n = lines.len() - 1;
    let number = row_of(lines[j])->0.number;
    if j < n {
        lemma_first_row_without_last(lines, j);
        assert(shorter[j] == lines[j]);
        lemma_registry_holds_first_rows(shorter, j);
    } else {
        lemma_registry_numbers(shorter, number);
        if ingest(shorter).meta.contains_key(number) {
            let i = choose|i: int| row_carries(shorter, i, number);
            assert(shorter[i] == lines[i]);
            assert(row_carries(lines, i, number));
        }
    }
}

} // verus!

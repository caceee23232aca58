use crate::asns::{Asn, AsnView};
use crate::ip::{lemma_rank_injective, IpAddress};
use vstd::prelude::*;

verus! {

/// The views of a list of records.
pub open spec fn views_of(records: Seq<Asn>) -> Seq<AsnView> {
    Seq::new(records.len(), |i: int| records[i]@)
}

/// Whether the records are ordered by their first address, each one
/// starting above the one before it; no two records then start at one
/// address.
pub open spec fn strictly_ascending(s: Seq<AsnView>) -> bool {
    forall|i: int, j: int|
        0 <= i < j < s.len() ==> (#[trigger] s[i]).first_ip.rank() < (#[trigger] s[j]).first_ip.rank()
}

/// Number of records that start below the rank `key`.
pub open spec fn count_below(s: Seq<AsnView>, key: int) -> int
    decreases s.len(),
{
    if s.len() == 0 {
        0
    } else {
        count_below(s.drop_last(), key) + if s.last().first_ip.rank() < key {
            1int
        } else {
            0int
        }
    }
}

/// Number of records that start at or below the rank `key`.
pub open spec fn count_up_to(s: Seq<AsnView>, key: int) -> int
    decreases s.len(),
{
    if s.len() == 0 {
        0
    } else {
        count_up_to(s.drop_last(), key) + if s.last().first_ip.rank() <= key {
            1int
        } else {
            0int
        }
    }
}

/// Whether some record starts at `ip`.
pub open spec fn has_start(s: Seq<AsnView>, ip: IpAddress) -> bool {
    exists|i: int| 0 <= i < s.len() && (#[trigger] s[i]).first_ip == ip
}

/// The ordered records after `record` was offered to them: where a record
/// already starts at the same address nothing changes, and the newcomer is
/// dropped; otherwise it takes its place in the order.
pub open spec fn with_record(s: Seq<AsnView>, record: AsnView) -> Seq<AsnView> {
    if has_start(s, record.first_ip) {
        s
    } else {
        s.insert(count_below(s, record.first_ip.rank()), record)
    }
}

/// The record that starts last at or before `ip`, if any record starts
/// there.
pub open spec fn predecessor(s: Seq<AsnView>, ip: IpAddress) -> Option<AsnView> {
    let k = count_up_to(s, ip.rank());
    if 0 < k <= s.len() {
        Some(s[k - 1])
    } else {
        None
    }
}

/// Where the records that start below `key` are exactly the first `k`,
/// `k` is their number.
pub proof fn lemma_count_below(s: Seq<AsnView>, key: int, k: int)
    requires
        0 <= k <= s.len(),
        forall|i: int| 0 <= i < k ==> (#[trigger] s[i]).first_ip.rank() < key,
        forall|i: int| k <= i < s.len() ==> (#[trigger] s[i]).first_ip.rank() >= key,
    ensures
        count_below(s, key) == k,
    decreases s.len(),
{
    if s.len() > 0 {
        let rest = s.drop_last();
        assert(s.last() == s[s.len() - 1]);
        if k == s.len() {
            assert forall|i: int| 0 <= i < k - 1 implies (#[trigger] rest[i]).first_ip.rank()
                < key by {
                assert(rest[i] == s[i]);
            }
            lemma_count_below(rest, key, k - 1);
        } else {
            assert forall|i: int| 0 <= i < k implies (#[trigger] rest[i]).first_ip.rank() < key by {
                assert(rest[i] == s[i]);
            }
            assert forall|i: int| k <= i < rest.len() implies (#[trigger] rest[i]).first_ip.rank()
                >= key by {
                assert(rest[i] == s[i]);
            }
            lemma_count_below(rest, key, k);
        }
    }
}

/// Where the records that start at or below `key` are exactly the first
/// `k`, `k` is their number.
pub proof fn lemma_count_up_to(s: Seq<AsnView>, key: int, k: int)
    requires
        0 <= k <= s.len(),
        forall|i: int| 0 <= i < k ==> (#[trigger] s[i]).first_ip.rank() <= key,
        forall|i: int| k <= i < s.len() ==> (#[trigger] s[i]).first_ip.rank() > key,
    ensures
        count_up_to(s, key) == k,
    decreases s.len(),
{
    if s.len() > 0 {
        let rest = s.drop_last();
        assert(s.last() == s[s.len() - 1]);
        if k == s.len() {
            assert forall|i: int| 0 <= i < k - 1 implies (#[trigger] rest[i]).first_ip.rank()
                <= key by {
                assert(rest[i] == s[i]);
            }
            lemma_count_up_to(rest, key, k - 1);
        } else {
            assert forall|i: int| 0 <= i < k implies (#[trigger] rest[i]).first_ip.rank()
                <= key by {
                assert(rest[i] == s[i]);
            }
            assert forall|i: int| k <= i < rest.len() implies (#[trigger] rest[i]).first_ip.rank()
                > key by {
                assert(rest[i] == s[i]);
            }
            lemma_count_up_to(rest, key, k);
        }
    }
}

/// In ordered records, those that start at or below `key` come first: a
/// record starts at or below `key` exactly when its index is below their
/// number.
pub proof fn lemma_count_up_to_splits(s: Seq<AsnView>, key: int)
    requires
        strictly_ascending(s),
    ensures
        0 <= count_up_to(s, key) <= s.len(),
        forall|i: int|
            0 <= i < s.len() ==> ((#[trigger] s[i]).first_ip.rank() <= key <==> i < count_up_to(
                s,
                key,
            )),
    decreases s.len(),
{
    if s.len() > 0 {
        let rest = s.drop_last();
        assert(strictly_ascending(rest)) by {
            assert forall|i: int, j: int| 0 <= i < j < rest.len() implies (
            #[trigger] rest[i]).first_ip.rank() < (#[trigger] rest[j]).first_ip.rank() by {
                assert(rest[i] == s[i]);
                assert(rest[j] == s[j]);
            }
        }
        lemma_count_up_to_splits(rest, key);
        assert forall|i: int| 0 <= i < s.len() implies ((#[trigger] s[i]).first_ip.rank() <= key
            <==> i < count_up_to(s, key)) by {
            if i < rest.len() {
                assert(rest[i] == s[i]);
                if !(s[i].first_ip.rank() <= key) {
                    assert(s[i].first_ip.rank() < s[s.len() - 1].first_ip.rank());
                }
            } else {
                if s[i].first_ip.rank() <= key && rest.len() > 0 {
                    assert(rest[rest.len() - 1] == s[rest.len() - 1]);
                    assert(s[rest.len() - 1].first_ip.rank() < s[i].first_ip.rank());
                    if count_up_to(rest, key) < rest.len() {
                        assert(!(rest[rest.len() - 1].first_ip.rank() <= key));
                    }
                }
            }
        }
    }
}

/// The Range Index: the records of a dataset ordered by their first
/// address, with no two records starting at one address.
///
/// The records stand in a vector in their order. A lookup halves the
/// vector until it has found its place; an insertion does the same and then
/// makes room, which costs nothing where the newcomer starts above all
/// records, as the rows of a dataset in ascending order do.
pub struct RangeIndex {
    records: Vec<Asn>,
}

impl View for RangeIndex {
    type V = Seq<AsnView>;

    closed spec fn view(&self) -> Seq<AsnView> {
        views_of(self.records@)
    }
}

impl RangeIndex {
    /// What every index keeps, whoever holds it.
    #[verifier::type_invariant]
    spec fn ordered(self) -> bool {
        strictly_ascending(views_of(self.records@))
    }

    /// The order that every index keeps.
    pub open spec fn wf(&self) -> bool {
        strictly_ascending(self@)
    }

    /// Tells that the index is in order, as every index is.
    pub fn is_well_formed(&self)
        ensures
            self.wf(),
    {
        proof {
            use_type_invariant(self);
        }
    }

    /// An index without records.
    pub fn new() -> (index: RangeIndex)
        ensures
            index@ == Seq::<AsnView>::empty(),
            index.wf(),
    {
        let index = RangeIndex { records: Vec::new() };
        assert(index@ =~= Seq::<AsnView>::empty());
        index
    }

    /// Number of records.
    pub fn len(&self) -> (n: usize)
        ensures
            n == self@.len(),
    {
        self.records.len()
    }

    /// The record at position `i` of the order.
    pub fn record(&self, i: usize) -> (record: &Asn)
        requires
            i < self@.len(),
        ensures
            record@ == self@[i as int],
    {
        &self.records[i]
    }

    /// Number of records that start below `ip`.
    fn position_below(&self, ip: &IpAddress) -> (k: usize)
        ensures
            k <= self@.len(),
            k == count_below(self@, ip.rank()),
            forall|i: int| 0 <= i < k ==> (#[trigger] self@[i]).first_ip.rank() < ip.rank(),
            forall|i: int| k <= i < self@.len() ==> (#[trigger] self@[i]).first_ip.rank() >= ip.rank(),
    {
        proof {
            use_type_invariant(self);
        }
        let mut lo: usize = 0;
        let mut hi: usize = self.records.len();
        while lo < hi
            invariant
                lo <= hi <= self.records.len(),
                self.wf(),
                forall|i: int| 0 <= i < lo ==> (#[trigger] self@[i]).first_ip.rank() < ip.rank(),
                forall|i: int|
                    hi <= i < self@.len() ==> (#[trigger] self@[i]).first_ip.rank() >= ip.rank(),
            decreases hi - lo,
        {
            let mid: usize = lo + (hi - lo) / 2;
            assert(self@[mid as int] == self.records@[mid as int]@);
            if self.records[mid].first_ip.lt(ip) {
                assert forall|i: int| 0 <= i < mid + 1 implies (#[trigger] self@[i]).first_ip.rank()
                    < ip.rank() by {
                    if i < mid {
                        assert(self@[i].first_ip.rank() < self@[mid as int].first_ip.rank());
                    }
                }
                lo = mid + 1;
            } else {
                assert forall|i: int| mid <= i < self@.len() implies (
                #[trigger] self@[i]).first_ip.rank() >= ip.rank() by {
                    if mid < i {
                        assert(self@[mid as int].first_ip.rank() < self@[i].first_ip.rank());
                    }
                }
                hi = mid;
            }
        }
        proof {
            lemma_count_below(self@, ip.rank(), lo as int);
        }
        lo
    }

    /// Number of records that start at or below `ip`.
    fn position_up_to(&self, ip: &IpAddress) -> (k: usize)
        ensures
            k <= self@.len(),
            k == count_up_to(self@, ip.rank()),
    {
        proof {
            use_type_invariant(self);
        }
        let mut lo: usize = 0;
        let mut hi: usize = self.records.len();
        while lo < hi
            invariant
                lo <= hi <= self.records.len(),
                self.wf(),
                forall|i: int| 0 <= i < lo ==> (#[trigger] self@[i]).first_ip.rank() <= ip.rank(),
                forall|i: int|
                    hi <= i < self@.len() ==> (#[trigger] self@[i]).first_ip.rank() > ip.rank(),
            decreases hi - lo,
        {
            let mid: usize = lo + (hi - lo) / 2;
            assert(self@[mid as int] == self.records@[mid as int]@);
            if self.records[mid].first_ip.le(ip) {
                assert forall|i: int| 0 <= i < mid + 1 implies (#[trigger] self@[i]).first_ip.rank()
                    <= ip.rank() by {
                    if i < mid {
                        assert(self@[i].first_ip.rank() < self@[mid as int].first_ip.rank());
                    }
                }
                lo = mid + 1;
            } else {
                assert forall|i: int| mid <= i < self@.len() implies (
                #[trigger] self@[i]).first_ip.rank() > ip.rank() by {
                    if mid < i {
                        assert(self@[mid as int].first_ip.rank() < self@[i].first_ip.rank());
                    }
                }
                hi = mid;
            }
        }
        proof {
            lemma_count_up_to(self@, ip.rank(), lo as int);
        }
        lo
    }

    /// Offers a record to the index. Where a record already starts at the
    /// same address the index keeps that one and drops the newcomer, and the
    /// result is `false`; otherwise the record takes its place in the order.
    pub fn insert(&mut self, record: Asn) -> (inserted: bool)
        ensures
            final(self)@ == with_record(old(self)@, record@),
            inserted == !has_start(old(self)@, record.first_ip),
    {
        proof {
            use_type_invariant(&*self);
        }
        let k = self.position_below(&record.first_ip);
        let ghost before = self@;
        let ghost key = record.first_ip.rank();
        if k < self.records.len() {
            assert(before[k as int] == self.records@[k as int]@);
            if self.records[k].first_ip == record.first_ip {
                assert(has_start(before, record.first_ip));
                return false;
            }
        }
        let ghost shown = record@;
        proof {
            // A record that starts at the same address would stand at `k`.
            assert(!has_start(before, record.first_ip)) by {
                if has_start(before, record.first_ip) {
                    let i = choose|i: int| 0 <= i < before.len() && (#[trigger] before[i]).first_ip
                        == record.first_ip;
                    assert(before[i].first_ip.rank() == key);
                    if i > k {
                        assert(before[k as int].first_ip.rank() < before[i].first_ip.rank());
                    }
                }
            }
            lemma_with_record(before, shown);
        }
        // The records leave the index while the newcomer takes its place.
        let mut records: Vec<Asn> = Vec::new();
        assert(views_of(records@) =~= Seq::<AsnView>::empty());
        std::mem::swap(&mut self.records, &mut records);
        records.insert(k, record);
        assert(views_of(records@) =~= before.insert(k as int, shown));
        self.records = records;
        true
    }

    /// The record that starts last at or before `ip`, if any record starts
    /// there.
    pub fn predecessor(&self, ip: IpAddress) -> (found: Option<&Asn>)
        ensures
            match found {
                Some(record) => predecessor(self@, ip) == Some(record@),
                None => predecessor(self@, ip) is None,
            },
    {
        let k = self.position_up_to(&ip);
        if k == 0 {
            None
        } else {
            assert(self@[k - 1] == self.records@[k - 1]@);
            Some(&self.records[k - 1])
        }
    }
}

/// Two records that start at one address collapse to one, and the earlier
/// one wins: once `first` was offered to the records, offering `second`,
/// which starts at the same address, changes nothing.
pub proof fn lemma_first_record_of_an_address_wins(s: Seq<AsnView>, first: AsnView, second: AsnView)
    requires
        first.first_ip == second.first_ip,
    ensures
        with_record(with_record(s, first), second) == with_record(s, first),
        has_start(with_record(s, first), first.first_ip),
{
    let after = with_record(s, first);
    if !has_start(s, first.first_ip) {
        lemma_count_below_in_range(s, first.first_ip.rank());
        let k = count_below(s, first.first_ip.rank());
        assert(after[k] == first);
    }
}

/// The number of records that start below a rank is a position of the list.
pub proof fn lemma_count_below_in_range(s: Seq<AsnView>, key: int)
    ensures
        0 <= count_below(s, key) <= s.len(),
    decreases s.len(),
{
    if s.len() > 0 {
        lemma_count_below_in_range(s.drop_last(), key);
    }
}

/// In ordered records, those that start below `key` come first: a record
/// starts below `key` exactly when its index is below their number.
pub proof fn lemma_count_below_splits(s: Seq<AsnView>, key: int)
    requires
        strictly_ascending(s),
    ensures
        0 <= count_below(s, key) <= s.len(),
        forall|i: int|
            0 <= i < s.len() ==> ((#[trigger] s[i]).first_ip.rank() < key <==> i < count_below(
                s,
                key,
            )),
    decreases s.len(),
{
    if s.len() > 0 {
        let rest = s.drop_last();
        assert(strictly_ascending(rest)) by {
            assert forall|i: int, j: int| 0 <= i < j < rest.len() implies (
            #[trigger] rest[i]).first_ip.rank() < (#[trigger] rest[j]).first_ip.rank() by {
                assert(rest[i] == s[i]);
                assert(rest[j] == s[j]);
            }
        }
        lemma_count_below_splits(rest, key);
        assert forall|i: int| 0 <= i < s.len() implies ((#[trigger] s[i]).first_ip.rank() < key
            <==> i < count_below(s, key)) by {
            if i < rest.len() {
                assert(rest[i] == s[i]);
                if !(s[i].first_ip.rank() < key) {
                    assert(s[i].first_ip.rank() < s[s.len() - 1].first_ip.rank());
                }
            } else {
                if s[i].first_ip.rank() < key && rest.len() > 0 {
                    assert(rest[rest.len() - 1] == s[rest.len() - 1]);
                    assert(s[rest.len() - 1].first_ip.rank() < s[i].first_ip.rank());
                    if count_below(rest, key) < rest.len() {
                        assert(!(rest[rest.len() - 1].first_ip.rank() < key));
                    }
                }
            }
        }
    }
}

/// Offering a record to ordered records leaves them ordered, keeps every
/// record that was there, and adds at most the newcomer: a record is among
/// the result exactly when it was there before, or is the newcomer and no
/// record started at its address.
pub proof fn lemma_with_record(s: Seq<AsnView>, record: AsnView)
    requires
        strictly_ascending(s),
    ensures
        strictly_ascending(with_record(s, record)),
        forall|r: AsnView|
            #![trigger with_record(s, record).contains(r)]
            #![trigger s.contains(r)]
            with_record(s, record).contains(r) <==> (s.contains(r) || (r == record && !has_start(
                s,
                record.first_ip,
            ))),
        !has_start(s, record.first_ip) ==> with_record(s, record).contains(record),
{
    let after = with_record(s, record);
    let key = record.first_ip.rank();
    if !has_start(s, record.first_ip) {
        lemma_count_below_splits(s, key);
        let k = count_below(s, key);
        assert forall|i: int| k <= i < s.len() implies (#[trigger] s[i]).first_ip.rank() > key by {
            if s[i].first_ip.rank() == key {
                lemma_rank_injective(s[i].first_ip, record.first_ip);
            }
        }
        assert forall|i: int, j: int| 0 <= i < j < after.len() implies (
        #[trigger] after[i]).first_ip.rank() < (#[trigger] after[j]).first_ip.rank() by {
            let a = if i < k {
                i
            } else {
                i - 1
            };
            let b = if j < k {
                j
            } else {
                j - 1
            };
            if i != k && j != k {
                assert(after[i] == s[a]);
                assert(after[j] == s[b]);
                assert(s[a].first_ip.rank() < s[b].first_ip.rank());
            } else if i == k {
                assert(after[j] == s[b]);
            } else {
                assert(after[i] == s[a]);
            }
        }
        assert forall|r: AsnView| after.contains(r) <==> (s.contains(r) || r == record) by {
            if after.contains(r) {
                let i = choose|i: int| 0 <= i < after.len() && after[i] == r;
                if i < k {
                    assert(s[i] == r);
                } else if i > k {
                    assert(s[i - 1] == r);
                }
            }
            if s.contains(r) {
                let i = choose|i: int| 0 <= i < s.len() && s[i] == r;
                if i < k {
                    assert(after[i] == r);
                } else {
                    assert(after[i + 1] == r);
                }
            }
            if r == record {
                assert(after[k] == r);
            }
        }
    }
}

/// What [`predecessor`] names is the last start at or before the address:
/// it is one of the records, it starts at or before `ip`, and no record
/// that starts at or before `ip` starts after it. Where it names none, no
/// record starts at or before `ip`.
pub proof fn lemma_predecessor(s: Seq<AsnView>, ip: IpAddress)
    requires
        strictly_ascending(s),
    ensures
        match predecessor(s, ip) {
            Some(p) => s.contains(p) && p.first_ip.rank() <= ip.rank() && forall|i: int|
                0 <= i < s.len() && (#[trigger] s[i]).first_ip.rank() <= ip.rank()
                    ==> s[i].first_ip.rank() <= p.first_ip.rank(),
            None => forall|i: int| 0 <= i < s.len() ==> (#[trigger] s[i]).first_ip.rank() > ip.rank(),
        },
{
    lemma_count_up_to_splits(s, ip.rank());
    let k = count_up_to(s, ip.rank());
    if k > 0 {
        let p = s[k - 1];
        assert forall|i: int| 0 <= i < s.len() && (#[trigger] s[i]).first_ip.rank()
            <= ip.rank() implies s[i].first_ip.rank() <= p.first_ip.rank() by {
            if i < k - 1 {
                assert(s[i].first_ip.rank() < s[k - 1].first_ip.rank());
            }
        }
    }
}

} // verus!

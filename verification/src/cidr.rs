use crate::ip::IpAddress;
use crate::ip_text::{ip_of, ip_text, octet_of, parse_ip, parse_octet, push_ip};
use crate::text::{chars_of, decimal_text, push_decimal, split, split_at_char, string_of, texts_of};
use vstd::arithmetic::div_mod::{
    lemma_fundamental_div_mod, lemma_fundamental_div_mod_converse_mod, lemma_small_mod,
};
use vstd::arithmetic::power2::{lemma2_to64, lemma_pow2_adds, lemma_pow2_pos, lemma_pow2_unfold, pow2};
use vstd::prelude::*;

verus! {

/// A block of addresses in CIDR form: the addresses that share the first
/// `prefix_len` bits of `network`.
#[derive(Clone, Copy, Debug, PartialEq, Eq, Structural)]
pub struct CidrBlock {
    pub network: IpAddress,
    pub prefix_len: u8,
}

impl CidrBlock {
    /// Number of host bits: the block holds two to this power addresses.
    pub open spec fn host_bits(self) -> nat {
        (self.network.width() - self.prefix_len) as nat
    }

    /// Number of addresses in the block.
    pub open spec fn size(self) -> int {
        pow2(self.host_bits()) as int
    }

    /// Value of the first address of the block (its network address).
    pub open spec fn lo(self) -> int {
        self.network.value() as int
    }

    /// Value of the last address of the block (its broadcast address).
    pub open spec fn hi(self) -> int {
        self.lo() + self.size() - 1
    }

    /// The prefix is no longer than an address, and the network address is
    /// a multiple of the block's size.
    pub open spec fn well_formed(self) -> bool {
        &&& self.prefix_len <= self.network.width()
        &&& self.lo() % self.size() == 0
    }

    /// Whether the block holds the address.
    pub open spec fn contains(self, ip: IpAddress) -> bool {
        &&& ip.same_family(self.network)
        &&& self.lo() <= ip.value() <= self.hi()
    }

    /// No block of twice the size starts at the same address and ends at or
    /// before `end`.
    pub open spec fn maximal_up_to(self, end: int) -> bool {
        ||| self.prefix_len == 0
        ||| self.lo() % (2 * self.size()) != 0
        ||| self.lo() + 2 * self.size() - 1 > end
    }

    /// Reads a block from its text, such as `10.0.0.0/30` (see
    /// [`cidr_of`]).
    pub fn parse(text: &str) -> (block: Option<CidrBlock>)
        ensures
            block == cidr_of(text@),
    {
        let fields = split_at_char(&chars_of(text), '/');
        if fields.len() != 2 {
            return None;
        }
        proof {
            assert(texts_of(fields@)[0] == fields@[0]@);
            assert(texts_of(fields@)[1] == fields@[1]@);
        }
        let network = match parse_ip(&fields[0]) {
            Some(ip) => ip,
            None => {
                return None;
            },
        };
        let prefix_len = match parse_octet(&fields[1]) {
            Some(n) => n,
            None => {
                return None;
            },
        };
        let block = CidrBlock { network, prefix_len };
        let (width, value): (u8, u128) = match network {
            IpAddress::V4(a) => (32, a as u128),
            IpAddress::V6(a) => (128, a),
        };
        if prefix_len > width {
            return None;
        }
        proof {
            lemma_family_limits();
            lemma_pow2_pos(block.host_bits());
        }
        let aligned = if prefix_len == 0 {
            proof {
                lemma_small_mod(value as nat, pow2(width as nat));
            }
            value == 0
        } else {
            value % power_of_two(width - prefix_len) == 0
        };
        if aligned {
            Some(block)
        } else {
            None
        }
    }

    /// The text of the block, such as `10.0.0.0/30`.
    pub fn to_text(&self) -> (text: String)
        ensures
            text@ == cidr_text(*self),
    {
        let mut out: Vec<char> = Vec::new();
        push_ip(&mut out, self.network);
        out.push('/');
        push_decimal(&mut out, self.prefix_len as u32);
        string_of(&out)
    }

    /// The network address: the first address of the block.
    pub fn first_address(&self) -> (ip: IpAddress)
        ensures
            ip == self.network,
    {
        self.network
    }

    /// The broadcast address: the last address of the block.
    pub fn last_address(&self) -> (ip: IpAddress)
        requires
            self.well_formed(),
        ensures
            ip.same_family(self.network),
            ip.value() == self.hi(),
    {
        proof {
            lemma_well_formed_in_family(*self);
            lemma_family_limits();
        }
        match self.network {
            IpAddress::V4(a) => {
                if self.prefix_len == 0 {
                    IpAddress::V4(0xffff_ffff)
                } else {
                    let size: u128 = power_of_two(32 - self.prefix_len);
                    let last: u128 = a as u128 + (size - 1);
                    IpAddress::V4(last as u32)
                }
            },
            IpAddress::V6(a) => {
                if self.prefix_len == 0 {
                    IpAddress::V6(0xffff_ffff_ffff_ffff_ffff_ffff_ffff_ffff)
                } else {
                    let size: u128 = power_of_two(128 - self.prefix_len);
                    IpAddress::V6(a + (size - 1))
                }
            },
        }
    }
}

/// Whether `blocks` tiles the values from `start` to `end`, both included,
/// with well-formed blocks of one family (IPv4 if `v4` holds), in ascending
/// order and without gaps: the first block starts at `start`, each further
/// block starts right after the one before it, and the final block ends at
/// `end`. An empty range (`start` above `end`) is tiled by no block at all.
pub open spec fn tiles_values(blocks: Seq<CidrBlock>, v4: bool, start: int, end: int) -> bool {
    &&& forall|i: int|
        0 <= i < blocks.len() ==> (#[trigger] blocks[i]).well_formed() && (blocks[i].network is V4)
            == v4
    &&& forall|i: int|
        0 <= i < blocks.len() - 1 ==> (#[trigger] blocks[i]).hi() + 1 == blocks[i + 1].lo()
    &&& if start > end {
        blocks.len() == 0
    } else {
        &&& blocks.len() > 0
        &&& blocks[0].lo() == start
        &&& blocks.last().hi() == end
    }
}

/// Whether `blocks` tiles the inclusive range of addresses from `first` to
/// `last`, which belong to one family (see [`tiles_values`]).
pub open spec fn tiles(blocks: Seq<CidrBlock>, first: IpAddress, last: IpAddress) -> bool {
    &&& first.same_family(last)
    &&& tiles_values(blocks, first is V4, first.value() as int, last.value() as int)
}

/// Whether every block of `blocks` is the largest one that can start where
/// it starts without passing the value `end`.
pub open spec fn greedy_values(blocks: Seq<CidrBlock>, end: int) -> bool {
    forall|i: int| 0 <= i < blocks.len() ==> (#[trigger] blocks[i]).maximal_up_to(end)
}

/// Whether every block of `blocks` is the largest one that can start where
/// it starts without passing `last`.
pub open spec fn greedy(blocks: Seq<CidrBlock>, last: IpAddress) -> bool {
    greedy_values(blocks, last.value() as int)
}

/// The values that bound the two families.
pub proof fn lemma_family_limits()
    ensures
        pow2(32) == 0x1_0000_0000,
        pow2(127) == 0x8000_0000_0000_0000_0000_0000_0000_0000,
        pow2(128) == 0x1_0000_0000_0000_0000_0000_0000_0000_0000,
{
    lemma2_to64();
    lemma_pow2_adds(64, 64);
    lemma_pow2_unfold(128);
}

/// Powers of two grow with the exponent.
pub proof fn lemma_pow2_monotonic(a: nat, b: nat)
    requires
        a <= b,
    ensures
        pow2(a) <= pow2(b),
    decreases b - a,
{
    if a < b {
        lemma_pow2_monotonic(a, (b - 1) as nat);
        lemma_pow2_unfold(b);
        lemma_pow2_pos((b - 1) as nat);
    }
}

/// A multiple of `2 * s` is a multiple of `s`, and a multiple `x` of `s` is
/// one of `2 * s` exactly when `x / s` is even.
pub proof fn lemma_doubled_alignment(x: int, s: int)
    requires
        0 <= x,
        0 < s,
    ensures
        x % (2 * s) == 0 ==> x % s == 0,
        x % s == 0 ==> (x % (2 * s) == 0 <==> (x / s) % 2 == 0),
{
    lemma_fundamental_div_mod(x, s);
    lemma_fundamental_div_mod(x, 2 * s);
    let q = x / s;
    let q2 = x / (2 * s);
    assert(s * (2 * q2) == (2 * s) * q2) by (nonlinear_arith);
    if x % (2 * s) == 0 {
        assert(x == s * (2 * q2) + 0);
        lemma_fundamental_div_mod_converse_mod(x, s, 2 * q2, 0);
    }
    if x % s == 0 {
        let h = q / 2;
        assert(q == 2 * h + q % 2);
        if q % 2 == 0 {
            assert((2 * s) * h == s * (2 * h)) by (nonlinear_arith);
            assert(x == (2 * s) * h + 0);
            lemma_fundamental_div_mod_converse_mod(x, 2 * s, h, 0);
        } else {
            assert((2 * s) * h + s == s * (2 * h + 1)) by (nonlinear_arith);
            assert(x == (2 * s) * h + s);
            lemma_fundamental_div_mod_converse_mod(x, 2 * s, h, s);
        }
    }
}

/// A well-formed block lies within its family: its last address is an
/// address.
pub proof fn lemma_well_formed_in_family(b: CidrBlock)
    requires
        b.well_formed(),
    ensures
        0 < b.size() <= pow2(b.network.width()),
        b.hi() <= b.network.max_value(),
        b.prefix_len == 0 ==> b.lo() == 0,
{
    lemma_family_limits();
    let w = b.network.width();
    let s = b.size();
    lemma_pow2_pos(b.host_bits());
    lemma_pow2_monotonic(b.host_bits(), w);
    lemma_fundamental_div_mod(b.lo(), s);
    let q = b.lo() / s;
    if b.prefix_len == 0 && b.lo() != 0 {
        lemma_small_mod(b.lo() as nat, s as nat);
    }
    // The network address is a multiple of the size below two to the
    // width, which is a multiple of the size too: so is the one after it.
    lemma_pow2_adds(b.host_bits(), b.prefix_len as nat);
    let r = pow2(b.prefix_len as nat) as int;
    assert(pow2(w) == s * r);
    assert(q < r) by (nonlinear_arith)
        requires
            s * q < s * r,
            s > 0,
    ;
    assert(s * q + s <= s * r) by (nonlinear_arith)
        requires
            q + 1 <= r,
            s > 0,
    ;
}

/// The address of the chosen family with the given value.
fn address_of(v4: bool, value: u128) -> (ip: IpAddress)
    requires
        v4 ==> value <= 0xffff_ffff,
    ensures
        (ip is V4) == v4,
        ip.value() == value,
{
    if v4 {
        IpAddress::V4(value as u32)
    } else {
        IpAddress::V6(value)
    }
}

/// The CIDR blocks that stand for the inclusive range from `first` to
/// `last`: the one list of blocks that tiles the range and in which every
/// block is the largest that may start at its position. A range whose ends
/// belong to different families has no blocks.
pub open spec fn cover_of(first: IpAddress, last: IpAddress) -> Seq<CidrBlock> {
    if first.same_family(last) {
        choose|blocks: Seq<CidrBlock>| tiles(blocks, first, last) && greedy(blocks, last)
    } else {
        Seq::<CidrBlock>::empty()
    }
}

/// The text of a block: its network address, a slash and the length of its
/// prefix.
pub open spec fn cidr_text(block: CidrBlock) -> Seq<char> {
    ip_text(block.network) + seq!['/'] + decimal_text(block.prefix_len as nat)
}

/// The block that `text` spells: an address, a slash and the length of the
/// prefix as a decimal number without leading zeros. The prefix must be no
/// longer than the address, and the address must be the first of the block.
pub open spec fn cidr_of(text: Seq<char>) -> Option<CidrBlock> {
    let f = split(text, '/');
    if f.len() == 2 && ip_of(f[0]) is Some && octet_of(f[1]) is Some {
        let block = CidrBlock { network: ip_of(f[0])->0, prefix_len: octet_of(f[1])->0 };
        if block.well_formed() {
            Some(block)
        } else {
            None
        }
    } else {
        None
    }
}

/// The texts of a list of blocks.
pub open spec fn cidr_texts(blocks: Seq<CidrBlock>) -> Seq<Seq<char>> {
    Seq::new(blocks.len(), |i: int| cidr_text(blocks[i]))
}

/// Re-expresses the inclusive range from `first` to `last` as CIDR blocks.
///
/// The blocks tile the range in ascending order, and each one is the
/// largest block that may start at its position. Such a list is unique
/// ([`lemma_greedy_tiling_unique`]), and no list of blocks whose union is
/// the range has fewer blocks ([`lemma_greedy_tiling_fewest`]). A range
/// whose `first` lies above its `last`, or whose ends belong to different
/// families, yields no block.
pub fn range_to_blocks(first: IpAddress, last: IpAddress) -> (blocks: Vec<CidrBlock>)
    ensures
        !first.same_family(last) ==> blocks@.len() == 0,
        first.same_family(last) ==> tiles(blocks@, first, last) && greedy(blocks@, last),
        blocks@ == cover_of(first, last),
{
    let blocks = tile_range(first, last);
    proof {
        if first.same_family(last) {
            lemma_greedy_tiling_unique(blocks@, cover_of(first, last), first, last);
        } else {
            assert(blocks@ =~= Seq::<CidrBlock>::empty());
        }
    }
    blocks
}

/// Walks the range and emits at each position the largest block that may
/// start there.
fn tile_range(first: IpAddress, last: IpAddress) -> (blocks: Vec<CidrBlock>)
    ensures
        !first.same_family(last) ==> blocks@.len() == 0,
        first.same_family(last) ==> tiles(blocks@, first, last) && greedy(blocks@, last),
{
    let mut blocks: Vec<CidrBlock> = Vec::new();
    let (v4, start, end): (bool, u128, u128) = match (first, last) {
        (IpAddress::V4(f), IpAddress::V4(l)) => (true, f as u128, l as u128),
        (IpAddress::V6(f), IpAddress::V6(l)) => (false, f, l),
        _ => {
            return blocks;
        },
    };
    if start > end {
        return blocks;
    }
    let width: u8 = if v4 {
        32
    } else {
        128
    };
    let top: u128 = if v4 {
        0xffff_ffff
    } else {
        0xffff_ffff_ffff_ffff_ffff_ffff_ffff_ffff
    };
    proof {
        lemma_family_limits();
        lemma2_to64();
    }
    if start == 0 && end == top {
        let whole = CidrBlock { network: address_of(v4, 0), prefix_len: 0 };
        blocks.push(whole);
        proof {
            assert(blocks@[0] == whole);
            assert(whole.size() == top + 1);
            assert(whole.lo() % whole.size() == 0);
        }
        return blocks;
    }
    let mut cur: u128 = start;
    let mut open: bool = true;
    while open
        invariant
            width == first.width(),
            top == first.max_value(),
            v4 == (first is V4),
            first.same_family(last),
            start == first.value(),
            end == last.value(),
            start <= cur <= end <= top,
            !(cur == 0 && end == top),
            pow2(32) == 0x1_0000_0000,
            pow2(127) == 0x8000_0000_0000_0000_0000_0000_0000_0000,
            pow2(128) == 0x1_0000_0000_0000_0000_0000_0000_0000_0000,
            forall|i: int|
                0 <= i < blocks@.len() ==> (#[trigger] blocks@[i]).well_formed()
                    && blocks@[i].network.same_family(first) && blocks@[i].maximal_up_to(
                    end as int,
                ),
            forall|i: int|
                0 <= i < blocks@.len() - 1 ==> (#[trigger] blocks@[i]).hi() + 1 == blocks@[i + 1].lo(),
            blocks@.len() > 0 ==> blocks@[0].lo() == start,
            blocks@.len() == 0 ==> cur == start && open,
            blocks@.len() > 0 && open ==> blocks@.last().hi() + 1 == cur,
            !open ==> blocks@.len() > 0 && blocks@.last().hi() == end,
        decreases end - cur + (if open { 1int } else { 0int }),
    {
        // The largest power of two that divides `cur`, short of the whole space.
        let mut k: u8 = 0;
        let mut size: u128 = 1;
        proof {
            lemma2_to64();
        }
        while k < width - 1 && (cur / size) % 2 == 0
            invariant
                width == 32 || width == 128,
                k <= width - 1,
                size == pow2(k as nat),
                size > 0,
                cur % size == 0,
                pow2(127) == 0x8000_0000_0000_0000_0000_0000_0000_0000,
            decreases width - k,
        {
            proof {
                lemma_doubled_alignment(cur as int, size as int);
                lemma_pow2_unfold((k + 1) as nat);
                lemma_pow2_monotonic((k + 1) as nat, 127);
            }
            size = size * 2;
            k = k + 1;
        }
        proof {
            lemma_doubled_alignment(cur as int, size as int);
        }
        // Halved until it no longer passes `end`.
        let room: u128 = end - cur;
        let ghost mut halved: bool = false;
        while size - 1 > room
            invariant
                k <= width - 1,
                size == pow2(k as nat),
                size > 0,
                cur % size == 0,
                halved ==> 2 * size - 1 > room,
                !halved ==> k == width - 1 || cur as int % (2 * size) != 0,
            decreases k,
        {
            proof {
                if k == 0 {
                    lemma2_to64();
                }
                lemma_pow2_unfold(k as nat);
                lemma_doubled_alignment(cur as int, (size / 2) as int);
                halved = true;
            }
            size = size / 2;
            k = k - 1;
        }
        let block = CidrBlock { network: address_of(v4, cur), prefix_len: width - k };
        proof {
            assert(block.host_bits() == k);
            assert(block.size() == size);
            assert(block.lo() == cur);
            assert(block.well_formed());
            if !halved && k == width - 1 {
                // A block of twice this size would be the whole space.
                lemma_pow2_unfold(width as nat);
                if cur != 0 {
                    lemma_small_mod(cur as nat, pow2(width as nat));
                }
            }
            assert(block.maximal_up_to(end as int));
        }
        let ghost before = blocks@;
        blocks.push(block);
        assert(forall|i: int| 0 <= i < before.len() ==> blocks@[i] == before[i]);
        assert(blocks@[before.len() as int] == block);
        // Advance; the walk ends where the block reaches `end` or the top of the space.
        match cur.checked_add(size) {
            Some(next) => {
                if next > end {
                    open = false;
                } else {
                    cur = next;
                }
            },
            None => {
                open = false;
            },
        }
    }
    blocks
}

/// Two to the power `k`.
pub(crate) fn power_of_two(k: u8) -> (r: u128)
    requires
        k < 128,
    ensures
        r == pow2(k as nat),
{
    let mut r: u128 = 1;
    let mut i: u8 = 0;
    proof {
        lemma2_to64();
    }
    while i < k
        invariant
            i <= k < 128,
            r == pow2(i as nat),
        decreases k - i,
    {
        proof {
            lemma_pow2_unfold((i + 1) as nat);
            lemma_pow2_monotonic((i + 1) as nat, 127);
            lemma_family_limits();
        }
        r = r * 2;
        i = i + 1;
    }
    r
}

/// In a tiling, a later block starts above the end of every earlier one.
pub proof fn lemma_tiling_ascends(
    blocks: Seq<CidrBlock>,
    v4: bool,
    start: int,
    end: int,
    i: int,
    j: int,
)
    requires
        tiles_values(blocks, v4, start, end),
        0 <= i < j < blocks.len(),
    ensures
        blocks[i].hi() < blocks[j].lo(),
    decreases j - i,
{
    if i < j - 1 {
        lemma_tiling_ascends(blocks, v4, start, end, i, j - 1);
        lemma_well_formed_in_family(blocks[j - 1]);
    }
}

/// Every block of a tiling lies within the tiled range.
pub proof fn lemma_tiling_within(blocks: Seq<CidrBlock>, v4: bool, start: int, end: int, i: int)
    requires
        tiles_values(blocks, v4, start, end),
        0 <= i < blocks.len(),
    ensures
        start <= blocks[i].lo() <= blocks[i].hi() <= end,
{
    lemma_well_formed_in_family(blocks[i]);
    lemma_well_formed_in_family(blocks[0]);
    if 0 < i {
        lemma_tiling_ascends(blocks, v4, start, end, 0, i);
    }
    if i < blocks.len() - 1 {
        lemma_tiling_ascends(blocks, v4, start, end, i, blocks.len() - 1);
    }
}

/// A value at or above `start` and at or below the end of block `n` lies in
/// one of the blocks up to `n`; the result is the index of that block.
pub proof fn lemma_tiling_covers(
    blocks: Seq<CidrBlock>,
    v4: bool,
    start: int,
    end: int,
    value: int,
    n: int,
) -> (i: int)
    requires
        tiles_values(blocks, v4, start, end),
        0 <= n < blocks.len(),
        start <= value <= blocks[n].hi(),
    ensures
        0 <= i <= n,
        blocks[i].lo() <= value <= blocks[i].hi(),
    decreases n,
{
    if blocks[n].lo() <= value {
        n
    } else {
        lemma_tiling_covers(blocks, v4, start, end, value, n - 1)
    }
}

/// The blocks of a tiling partition the range they tile: an address lies in
/// the range exactly when some block holds it (so the union of the blocks,
/// each taken from its network address to its broadcast address, is the
/// range and nothing else), no address lies in two blocks, and the blocks
/// come in ascending order.
pub proof fn lemma_tiling_partitions(blocks: Seq<CidrBlock>, first: IpAddress, last: IpAddress)
    requires
        tiles(blocks, first, last),
    ensures
        forall|ip: IpAddress|
            (ip.same_family(first) && first.value() <= ip.value() <= last.value()) <==> (exists|
                i: int,
            |
                0 <= i < blocks.len() && #[trigger] blocks[i].contains(ip)),
        forall|i: int, j: int, ip: IpAddress|
            0 <= i < blocks.len() && 0 <= j < blocks.len() && #[trigger] blocks[i].contains(ip)
                && #[trigger] blocks[j].contains(ip) ==> i == j,
        forall|i: int, j: int|
            0 <= i < j < blocks.len() ==> (#[trigger] blocks[i]).hi() < (#[trigger] blocks[j]).lo(),
{
    let v4 = first is V4;
    let start = first.value() as int;
    let end = last.value() as int;
    assert forall|i: int, j: int| 0 <= i < j < blocks.len() implies (#[trigger] blocks[i]).hi() < (
    #[trigger] blocks[j]).lo() by {
        lemma_tiling_ascends(blocks, v4, start, end, i, j);
    }
    assert forall|ip: IpAddress|
        (ip.same_family(first) && first.value() <= ip.value() <= last.value()) <==> (exists|i: int|
            0 <= i < blocks.len() && #[trigger] blocks[i].contains(ip)) by {
        if ip.same_family(first) && first.value() <= ip.value() <= last.value() {
            let i = lemma_tiling_covers(
                blocks,
                v4,
                start,
                end,
                ip.value() as int,
                blocks.len() - 1,
            );
            assert(blocks[i].contains(ip));
        }
        if exists|i: int| 0 <= i < blocks.len() && #[trigger] blocks[i].contains(ip) {
            let i = choose|i: int| 0 <= i < blocks.len() && #[trigger] blocks[i].contains(ip);
            lemma_tiling_within(blocks, v4, start, end, i);
        }
    }
    assert forall|i: int, j: int, ip: IpAddress|
        0 <= i < blocks.len() && 0 <= j < blocks.len() && #[trigger] blocks[i].contains(ip)
            && #[trigger] blocks[j].contains(ip) implies i == j by {
        if i < j {
            lemma_tiling_ascends(blocks, v4, start, end, i, j);
        }
        if j < i {
            lemma_tiling_ascends(blocks, v4, start, end, j, i);
        }
    }
}

/// A multiple of a power of two is a multiple of every smaller power of two.
pub proof fn lemma_aligned_downward(x: int, j: nat, k: nat)
    requires
        0 <= x,
        j <= k,
        x % (pow2(k) as int) == 0,
    ensures
        x % (pow2(j) as int) == 0,
    decreases k - j,
{
    if j < k {
        lemma_pow2_unfold(k);
        lemma_pow2_pos((k - 1) as nat);
        lemma_doubled_alignment(x, pow2((k - 1) as nat) as int);
        lemma_aligned_downward(x, j, (k - 1) as nat);
    }
}

/// Two well-formed blocks of one family that start at one address, both end
/// at or before `end` and are both the largest that may do so, are equal.
pub proof fn lemma_maximal_block_unique(a: CidrBlock, b: CidrBlock, end: int)
    requires
        a.well_formed(),
        b.well_formed(),
        a.network.same_family(b.network),
        a.lo() == b.lo(),
        a.hi() <= end,
        b.hi() <= end,
        a.maximal_up_to(end),
        b.maximal_up_to(end),
    ensures
        a == b,
{
    if a.host_bits() < b.host_bits() {
        lemma_not_maximal_below(a, b, end);
    }
    if b.host_bits() < a.host_bits() {
        lemma_not_maximal_below(b, a, end);
    }
}

/// A block is not the largest that may start at its address when a larger
/// well-formed block starts there and ends at or before `end`.
pub proof fn lemma_not_maximal_below(a: CidrBlock, b: CidrBlock, end: int)
    requires
        a.well_formed(),
        b.well_formed(),
        a.network.same_family(b.network),
        a.lo() == b.lo(),
        b.hi() <= end,
        a.host_bits() < b.host_bits(),
    ensures
        !a.maximal_up_to(end),
{
    let k = a.host_bits();
    lemma_pow2_unfold(k + 1);
    lemma_aligned_downward(b.lo(), k + 1, b.host_bits());
    lemma_pow2_monotonic(k + 1, b.host_bits());
}

/// The greedy tiling of a range is unique: two tilings of one range in each
/// of which every block is the largest that may start at its position are
/// the same list of blocks.
pub proof fn lemma_greedy_tiling_unique(
    a: Seq<CidrBlock>,
    b: Seq<CidrBlock>,
    first: IpAddress,
    last: IpAddress,
)
    requires
        tiles(a, first, last),
        greedy(a, last),
        tiles(b, first, last),
        greedy(b, last),
    ensures
        a == b,
{
    let v4 = first is V4;
    let start = first.value() as int;
    let end = last.value() as int;
    if start <= end {
        let n = if a.len() <= b.len() {
            a.len() as int
        } else {
            b.len() as int
        };
        lemma_greedy_prefixes_agree(a, b, v4, start, end, n - 1);
        if a.len() > n {
            lemma_tiling_ascends(a, v4, start, end, n - 1, n);
            lemma_tiling_within(a, v4, start, end, n);
        }
        if b.len() > n {
            lemma_tiling_ascends(b, v4, start, end, n - 1, n);
            lemma_tiling_within(b, v4, start, end, n);
        }
        assert(a.len() == b.len());
        assert forall|i: int| 0 <= i < a.len() implies a[i] == b[i] by {
            lemma_greedy_prefixes_agree(a, b, v4, start, end, i);
        }
    }
    assert(a =~= b);
}

/// Two greedy tilings of one range hold the same block at every index that
/// both reach.
pub proof fn lemma_greedy_prefixes_agree(
    a: Seq<CidrBlock>,
    b: Seq<CidrBlock>,
    v4: bool,
    start: int,
    end: int,
    i: int,
)
    requires
        tiles_values(a, v4, start, end),
        greedy_values(a, end),
        tiles_values(b, v4, start, end),
        greedy_values(b, end),
        0 <= i < a.len(),
        i < b.len(),
    ensures
        a[i] == b[i],
    decreases i,
{
    if i > 0 {
        lemma_greedy_prefixes_agree(a, b, v4, start, end, i - 1);
    }
    lemma_tiling_within(a, v4, start, end, i);
    lemma_tiling_within(b, v4, start, end, i);
    assert(a[i].maximal_up_to(end));
    assert(b[i].maximal_up_to(end));
    lemma_maximal_block_unique(a[i], b[i], end);
}

/// A block of `2^a` values that starts at a multiple `x` of `2^a` does not
/// cross a multiple of a larger power `2^b`: it ends before the next one.
pub proof fn lemma_block_within_chunk(x: int, a: nat, b: nat)
    requires
        0 <= x,
        a <= b,
        x % (pow2(a) as int) == 0,
    ensures
        x % (pow2(b) as int) + pow2(a) <= pow2(b),
{
    let pa = pow2(a) as int;
    let pb = pow2(b) as int;
    let pr = pow2((b - a) as nat) as int;
    lemma_pow2_pos(a);
    lemma_pow2_pos(b);
    lemma_pow2_pos((b - a) as nat);
    lemma_pow2_adds(a, (b - a) as nat);
    assert(pb == pa * pr);
    lemma_fundamental_div_mod(x, pa);
    lemma_fundamental_div_mod(x, pb);
    let q = x / pa;
    let m = x / pb;
    let r = x % pb;
    let t = q - pr * m;
    assert(r == pa * t) by (nonlinear_arith)
        requires
            x == pa * q,
            x == pb * m + r,
            pb == pa * pr,
            t == q - pr * m,
    ;
    assert(t < pr) by (nonlinear_arith)
        requires
            pa * t < pa * pr,
            pa > 0,
    ;
    assert(pa * t + pa <= pa * pr) by (nonlinear_arith)
        requires
            t + 1 <= pr,
            pa > 0,
    ;
}

/// No multiple of `p` lies strictly between a multiple of `p` and the next.
pub proof fn lemma_no_multiple_between(c: int, x: int, p: int)
    requires
        0 < p,
        c % p == 0,
        x % p == 0,
        c < x,
    ensures
        c + p <= x,
{
    lemma_fundamental_div_mod(c, p);
    lemma_fundamental_div_mod(x, p);
    let qc = c / p;
    let qx = x / p;
    assert(qc < qx) by (nonlinear_arith)
        requires
            p * qc < p * qx,
            p > 0,
    ;
    assert(p * qc + p <= p * qx) by (nonlinear_arith)
        requires
            qc + 1 <= qx,
            p > 0,
    ;
}

/// The blocks of a tiling from index `n` on tile what is left of the range.
pub proof fn lemma_tiling_suffix(blocks: Seq<CidrBlock>, v4: bool, start: int, end: int, n: int)
    requires
        tiles_values(blocks, v4, start, end),
        0 <= n < blocks.len(),
    ensures
        tiles_values(blocks.skip(n), v4, blocks[n].lo(), end),
        forall|bound: int| greedy_values(blocks, bound) ==> greedy_values(blocks.skip(n), bound),
{
    let rest = blocks.skip(n);
    lemma_tiling_within(blocks, v4, start, end, n);
    assert forall|i: int| 0 <= i < rest.len() implies (#[trigger] rest[i]).well_formed() && (
    rest[i].network is V4) == v4 by {
        assert(rest[i] == blocks[i + n]);
    }
    assert forall|i: int| 0 <= i < rest.len() - 1 implies (#[trigger] rest[i]).hi() + 1 == rest[i
        + 1].lo() by {
        assert(rest[i] == blocks[i + n]);
        assert(rest[i + 1] == blocks[i + n + 1]);
    }
    assert(rest[0] == blocks[n]);
    assert(rest.last() == blocks.last());
    assert forall|bound: int| greedy_values(blocks, bound) implies greedy_values(rest, bound) by {
        assert forall|i: int| 0 <= i < rest.len() implies (#[trigger] rest[i]).maximal_up_to(
            bound,
        ) by {
            assert(rest[i] == blocks[i + n]);
            assert(blocks[i + n].maximal_up_to(bound));
        }
    }
}

/// A block beside the largest block that may start at an address: a block
/// that starts at or above the start of `g0` and ends at or before `end`
/// lies within `g0` or wholly above it. Blocks never straddle the end of
/// `g0`.
pub proof fn lemma_block_beside_maximal(g0: CidrBlock, c: CidrBlock, end: int)
    requires
        g0.well_formed(),
        c.well_formed(),
        g0.network.same_family(c.network),
        g0.hi() <= end,
        g0.maximal_up_to(end),
        g0.lo() <= c.lo(),
        c.hi() <= end,
    ensures
        c.hi() <= g0.hi() || g0.hi() < c.lo(),
{
    let a = c.host_bits();
    let kg = g0.host_bits();
    lemma_well_formed_in_family(c);
    lemma_well_formed_in_family(g0);
    if c.lo() == g0.lo() {
        if kg < a {
            lemma_not_maximal_below(g0, c, end);
        } else {
            lemma_pow2_monotonic(a, kg);
        }
    } else if c.lo() <= g0.hi() {
        if a <= kg {
            lemma_block_within_chunk(c.lo(), a, kg);
            lemma_fundamental_div_mod(g0.lo(), g0.size());
            let q = g0.lo() / g0.size();
            assert(g0.size() * q == q * g0.size()) by (nonlinear_arith);
            lemma_fundamental_div_mod_converse_mod(c.lo(), g0.size(), q, c.lo() - g0.lo());
        } else {
            lemma_block_within_chunk(g0.lo(), kg, a);
            let r = g0.lo() % c.size();
            let below = g0.lo() - r;
            lemma_fundamental_div_mod(g0.lo(), c.size());
            let q = g0.lo() / c.size();
            assert(c.size() * q == q * c.size()) by (nonlinear_arith);
            lemma_fundamental_div_mod_converse_mod(below, c.size(), q, 0);
            lemma_no_multiple_between(below, c.lo(), c.size());
        }
    }
}

/// Whether the block holds the value.
pub open spec fn holds_value(block: CidrBlock, value: int) -> bool {
    block.lo() <= value <= block.hi()
}

/// Whether one of the blocks holds the value.
pub open spec fn some_block_holds(blocks: Seq<CidrBlock>, value: int) -> bool {
    exists|i: int| 0 <= i < blocks.len() && holds_value(#[trigger] blocks[i], value)
}

/// Whether the union of `blocks` is the values from `start` to `end`, both
/// included: the blocks are well-formed, of one family (IPv4 if `v4` holds)
/// and within the range, and each value of the range lies in one of them.
/// The blocks may overlap and come in any order.
pub open spec fn fills_values(blocks: Seq<CidrBlock>, v4: bool, start: int, end: int) -> bool {
    &&& forall|i: int|
        0 <= i < blocks.len() ==> {
            &&& (#[trigger] blocks[i]).well_formed()
            &&& (blocks[i].network is V4) == v4
            &&& start <= blocks[i].lo()
            &&& blocks[i].hi() <= end
        }
    &&& forall|value: int| start <= value <= end ==> #[trigger] some_block_holds(blocks, value)
}

/// Whether one of the blocks holds the address.
pub open spec fn some_block_contains(blocks: Seq<CidrBlock>, ip: IpAddress) -> bool {
    exists|i: int| 0 <= i < blocks.len() && #[trigger] blocks[i].contains(ip)
}

/// Whether the union of `blocks` is the inclusive range of addresses from
/// `first` to `last`: the blocks are well-formed, and one of them holds an
/// address exactly when the address lies in the range. The blocks may
/// overlap and come in any order.
pub open spec fn fills(blocks: Seq<CidrBlock>, first: IpAddress, last: IpAddress) -> bool {
    &&& first.same_family(last)
    &&& forall|i: int| 0 <= i < blocks.len() ==> (#[trigger] blocks[i]).well_formed()
    &&& forall|ip: IpAddress| #[trigger]
        some_block_contains(blocks, ip) <==> (ip.same_family(first) && first.value() <= ip.value()
            <= last.value())
}

/// The blocks of `blocks` that start above `bound`, in their order.
pub open spec fn blocks_above(blocks: Seq<CidrBlock>, bound: int) -> Seq<CidrBlock>
    decreases blocks.len(),
{
    if blocks.len() == 0 {
        Seq::<CidrBlock>::empty()
    } else if blocks.last().lo() > bound {
        blocks_above(blocks.drop_last(), bound).push(blocks.last())
    } else {
        blocks_above(blocks.drop_last(), bound)
    }
}

/// What [`blocks_above`] keeps: blocks of the list that start above the
/// bound, and each of them. It keeps fewer blocks than the list holds where
/// one of them starts at or below the bound.
pub proof fn lemma_blocks_above(blocks: Seq<CidrBlock>, bound: int)
    ensures
        blocks_above(blocks, bound).len() <= blocks.len(),
        forall|i: int|
            0 <= i < blocks_above(blocks, bound).len() ==> {
                &&& (#[trigger] blocks_above(blocks, bound)[i]).lo() > bound
                &&& blocks.contains(blocks_above(blocks, bound)[i])
            },
        forall|i: int|
            0 <= i < blocks.len() && (#[trigger] blocks[i]).lo() > bound ==> blocks_above(
                blocks,
                bound,
            ).contains(blocks[i]),
        forall|i: int|
            0 <= i < blocks.len() && (#[trigger] blocks[i]).lo() <= bound ==> blocks_above(
                blocks,
                bound,
            ).len() < blocks.len(),
    decreases blocks.len(),
{
    let kept = blocks_above(blocks, bound);
    if blocks.len() > 0 {
        let before = blocks.drop_last();
        let kept_before = blocks_above(before, bound);
        lemma_blocks_above(before, bound);
        assert forall|i: int| 0 <= i < kept.len() implies (#[trigger] kept[i]).lo() > bound
            && blocks.contains(kept[i]) by {
            if i < kept_before.len() {
                assert(kept[i] == kept_before[i]);
                let j = choose|j: int| 0 <= j < before.len() && before[j] == kept_before[i];
                assert(blocks[j] == kept[i]);
            } else {
                assert(blocks[blocks.len() - 1] == kept[i]);
            }
        }
        assert forall|i: int|
            0 <= i < blocks.len() && (#[trigger] blocks[i]).lo() > bound implies kept.contains(
            blocks[i],
        ) by {
            if i < before.len() {
                assert(before[i] == blocks[i]);
                let j = choose|j: int| 0 <= j < kept_before.len() && kept_before[j] == before[i];
                assert(kept[j] == blocks[i]);
            } else {
                assert(kept[kept.len() - 1] == blocks[i]);
            }
        }
        assert forall|i: int|
            0 <= i < blocks.len() && (#[trigger] blocks[i]).lo() <= bound implies kept.len()
            < blocks.len() by {
            if i < before.len() {
                assert(before[i] == blocks[i]);
            }
        }
    }
}

/// No list of blocks whose union is a range of values has fewer blocks than
/// the greedy tiling of that range.
pub proof fn lemma_greedy_values_fewest(
    g: Seq<CidrBlock>,
    other: Seq<CidrBlock>,
    v4: bool,
    start: int,
    end: int,
)
    requires
        tiles_values(g, v4, start, end),
        greedy_values(g, end),
        fills_values(other, v4, start, end),
    ensures
        g.len() <= other.len(),
    decreases g.len(),
{
    if start <= end {
        let g0 = g[0];
        lemma_tiling_within(g, v4, start, end, 0);
        assert(g0.maximal_up_to(end));
        assert(some_block_holds(other, start));
        let b = choose|i: int| 0 <= i < other.len() && holds_value(#[trigger] other[i], start);
        assert(other[b].lo() <= g0.hi());
        if g0.hi() == end {
            if g.len() > 1 {
                lemma_tiling_within(g, v4, start, end, 1);
            }
        } else {
            if g.len() == 1 {
                assert(g.last() == g0);
            }
            let above = g0.hi() + 1;
            let rest = blocks_above(other, g0.hi());
            lemma_blocks_above(other, g0.hi());
            assert forall|i: int| 0 <= i < rest.len() implies {
                &&& (#[trigger] rest[i]).well_formed()
                &&& (rest[i].network is V4) == v4
                &&& above <= rest[i].lo()
                &&& rest[i].hi() <= end
            } by {
                assert(other.contains(rest[i]));
                let j = choose|j: int| 0 <= j < other.len() && other[j] == rest[i];
                assert(other[j].well_formed());
            }
            assert forall|value: int| above <= value <= end implies #[trigger] some_block_holds(
                rest,
                value,
            ) by {
                assert(some_block_holds(other, value));
                let j = choose|j: int|
                    0 <= j < other.len() && holds_value(#[trigger] other[j], value);
                assert(other[j].well_formed());
                lemma_block_beside_maximal(g0, other[j], end);
                assert(rest.contains(other[j]));
                let k = choose|k: int| 0 <= k < rest.len() && rest[k] == other[j];
                assert(holds_value(rest[k], value));
            }
            lemma_tiling_suffix(g, v4, start, end, 1);
            lemma_greedy_values_fewest(g.skip(1), rest, v4, above, end);
        }
    }
}

/// A list of blocks whose union is a range of addresses fills the range of
/// their values.
pub proof fn lemma_fills_values(blocks: Seq<CidrBlock>, first: IpAddress, last: IpAddress)
    requires
        fills(blocks, first, last),
    ensures
        fills_values(blocks, first is V4, first.value() as int, last.value() as int),
{
    let v4 = first is V4;
    let start = first.value() as int;
    let end = last.value() as int;
    assert forall|i: int| 0 <= i < blocks.len() implies {
        &&& (#[trigger] blocks[i]).well_formed()
        &&& (blocks[i].network is V4) == v4
        &&& start <= blocks[i].lo()
        &&& blocks[i].hi() <= end
    } by {
        lemma_well_formed_in_family(blocks[i]);
        lemma_family_limits();
        let lowest = blocks[i].network;
        let highest = blocks[i].network.with_value(blocks[i].hi() as nat);
        assert(highest.same_family(lowest) && highest.value() == blocks[i].hi());
        assert(blocks[i].contains(lowest));
        assert(blocks[i].contains(highest));
        assert(some_block_contains(blocks, lowest));
        assert(some_block_contains(blocks, highest));
    }
    assert forall|value: int| start <= value <= end implies #[trigger] some_block_holds(
        blocks,
        value,
    ) by {
        let ip = first.with_value(value as nat);
        assert(ip.same_family(first) && ip.value() == value);
        assert(some_block_contains(blocks, ip));
        let i = choose|i: int| 0 <= i < blocks.len() && #[trigger] blocks[i].contains(ip);
        assert(holds_value(blocks[i], value));
    }
}

/// A tiling of a range is a list of blocks whose union is the range.
pub proof fn lemma_tiling_fills(blocks: Seq<CidrBlock>, first: IpAddress, last: IpAddress)
    requires
        tiles(blocks, first, last),
    ensures
        fills(blocks, first, last),
{
    let v4 = first is V4;
    let start = first.value() as int;
    let end = last.value() as int;
    assert forall|ip: IpAddress| #[trigger]
        some_block_contains(blocks, ip) <==> (ip.same_family(first) && first.value() <= ip.value()
            <= last.value()) by {
        if ip.same_family(first) && first.value() <= ip.value() <= last.value() {
            let i = lemma_tiling_covers(
                blocks,
                v4,
                start,
                end,
                ip.value() as int,
                blocks.len() - 1,
            );
            assert(blocks[i].contains(ip));
        }
        if some_block_contains(blocks, ip) {
            let i = choose|i: int| 0 <= i < blocks.len() && #[trigger] blocks[i].contains(ip);
            lemma_tiling_within(blocks, v4, start, end, i);
        }
    }
}

/// The greedy tiling has the fewest blocks: every list of well-formed
/// blocks whose union is exactly the range from `first` to `last`, whether
/// its blocks overlap or not and in whatever order they come, has at least
/// as many blocks as the tiling in which each block is the largest that may
/// start at its position.
pub proof fn lemma_greedy_tiling_fewest(
    greedy_blocks: Seq<CidrBlock>,
    other: Seq<CidrBlock>,
    first: IpAddress,
    last: IpAddress,
)
    requires
        tiles(greedy_blocks, first, last),
        greedy(greedy_blocks, last),
        fills(other, first, last),
    ensures
        greedy_blocks.len() <= other.len(),
{
    lemma_fills_values(other, first, last);
    lemma_greedy_values_fewest(
        greedy_blocks,
        other,
        first is V4,
        first.value() as int,
        last.value() as int,
    );
}

/// The greedy tiling is minimal among tilings: every tiling of the range
/// from `first` to `last` has at least as many blocks as the one in which
/// each block is the largest that may start at its position.
pub proof fn lemma_greedy_tiling_minimal(
    greedy_blocks: Seq<CidrBlock>,
    other: Seq<CidrBlock>,
    first: IpAddress,
    last: IpAddress,
)
    requires
        tiles(greedy_blocks, first, last),
        greedy(greedy_blocks, last),
        tiles(other, first, last),
    ensures
        greedy_blocks.len() <= other.len(),
{
    lemma_tiling_fills(other, first, last);
    lemma_greedy_tiling_fewest(greedy_blocks, other, first, last);
}

/// The largest number of host bits, up to `k`, of a block that may start at
/// `lo` without passing `end`.
pub open spec fn largest_host_bits(lo: int, end: int, k: nat) -> nat
    decreases k,
{
    if k == 0 {
        0
    } else if lo % (pow2(k) as int) == 0 && lo + pow2(k) - 1 <= end {
        k
    } else {
        largest_host_bits(lo, end, (k - 1) as nat)
    }
}

/// The block of the family of `like` that starts at the value `lo` and has
/// `host_bits` host bits.
pub open spec fn block_at(like: IpAddress, lo: int, host_bits: nat) -> CidrBlock {
    CidrBlock {
        network: like.with_value(lo as nat),
        prefix_len: (like.width() - host_bits) as u8,
    }
}

/// The blocks that the greedy walk from the value `lo` to the value `end`
/// emits, in the family of `like`.
pub open spec fn greedy_walk(like: IpAddress, lo: int, end: int) -> Seq<CidrBlock>
    decreases end - lo,
{
    if lo > end {
        Seq::<CidrBlock>::empty()
    } else {
        let k = largest_host_bits(lo, end, like.width());
        if pow2(k) > 0 && lo + pow2(k) <= end {
            seq![block_at(like, lo, k)] + greedy_walk(like, lo + pow2(k), end)
        } else {
            seq![block_at(like, lo, k)]
        }
    }
}

/// What [`largest_host_bits`] names fits, is no more than `k`, and no
/// larger number up to `k` fits.
pub proof fn lemma_largest_host_bits(lo: int, end: int, k: nat)
    requires
        0 <= lo <= end,
    ensures
        largest_host_bits(lo, end, k) <= k,
        lo % (pow2(largest_host_bits(lo, end, k)) as int) == 0,
        lo + pow2(largest_host_bits(lo, end, k)) - 1 <= end,
        forall|j: nat|
            largest_host_bits(lo, end, k) < j <= k ==> !(lo % (#[trigger] pow2(j) as int) == 0 && lo
                + pow2(j) - 1 <= end),
    decreases k,
{
    lemma2_to64();
    if k == 0 {
    } else if lo % (pow2(k) as int) == 0 && lo + pow2(k) - 1 <= end {
    } else {
        lemma_largest_host_bits(lo, end, (k - 1) as nat);
    }
}

/// The greedy walk tiles its range, and each of its blocks is the largest
/// that may start at its position.
pub proof fn lemma_greedy_walk(like: IpAddress, lo: int, end: int)
    requires
        0 <= lo,
        end <= like.max_value(),
    ensures
        tiles_values(greedy_walk(like, lo, end), like is V4, lo, end),
        greedy_values(greedy_walk(like, lo, end), end),
    decreases end - lo,
{
    lemma_family_limits();
    let walk = greedy_walk(like, lo, end);
    if lo <= end {
        let w = like.width();
        let k = largest_host_bits(lo, end, w);
        lemma_largest_host_bits(lo, end, w);
        lemma_pow2_pos(k);
        let first = block_at(like, lo, k);
        let rest = greedy_walk(like, lo + pow2(k), end);
        if lo + pow2(k) <= end {
            lemma_greedy_walk(like, lo + pow2(k), end);
        }
        assert(walk =~= seq![first] + rest);
        assert(first.host_bits() == k);
        assert(first.lo() == lo);
        assert(first.well_formed());
        assert((first.network is V4) == (like is V4));
        assert(first.maximal_up_to(end)) by {
            if first.prefix_len != 0 {
                lemma_pow2_unfold(k + 1);
                assert(!(lo % (pow2(k + 1) as int) == 0 && lo + pow2(k + 1) - 1 <= end));
            }
        }
        assert forall|i: int| 0 <= i < walk.len() implies (#[trigger] walk[i]).well_formed() && (
        walk[i].network is V4) == (like is V4) && walk[i].maximal_up_to(end) by {
            if i > 0 {
                assert(walk[i] == rest[i - 1]);
            }
        }
        assert forall|i: int| 0 <= i < walk.len() - 1 implies (#[trigger] walk[i]).hi() + 1
            == walk[i + 1].lo() by {
            if i > 0 {
                assert(walk[i] == rest[i - 1]);
                assert(walk[i + 1] == rest[i]);
            } else {
                assert(walk[1] == rest[0]);
            }
        }
        if rest.len() > 0 {
            assert(walk.last() == rest.last());
        }
    }
}

/// Every range between two addresses of one family has its blocks:
/// [`cover_of`] tiles the range, and each of its blocks is the largest that
/// may start at its position.
pub proof fn lemma_cover_of(first: IpAddress, last: IpAddress)
    requires
        first.same_family(last),
    ensures
        tiles(cover_of(first, last), first, last),
        greedy(cover_of(first, last), last),
{
    lemma_greedy_walk(first, first.value() as int, last.value() as int);
    let walk = greedy_walk(first, first.value() as int, last.value() as int);
    assert(tiles(walk, first, last) && greedy(walk, last));
}

/// No list of blocks says a range with fewer blocks than [`cover_of`]:
/// every list of well-formed blocks whose union is exactly the range from
/// `first` to `last`, overlapping or not and in any order, is at least as
/// long.
pub proof fn lemma_cover_has_fewest_blocks(
    other: Seq<CidrBlock>,
    first: IpAddress,
    last: IpAddress,
)
    requires
        fills(other, first, last),
    ensures
        cover_of(first, last).len() <= other.len(),
        cidr_texts(cover_of(first, last)).len() <= other.len(),
{
    lemma_cover_of(first, last);
    lemma_greedy_tiling_fewest(cover_of(first, last), other, first, last);
}

} // verus!

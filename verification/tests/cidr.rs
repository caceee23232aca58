use iptoasn_webservice::cidr::{range_to_blocks, CidrBlock};
use iptoasn_webservice::ip::IpAddress;

fn ip(text: &str) -> IpAddress {
    IpAddress::parse(text).unwrap()
}

fn block(network: &str, prefix_len: u8) -> CidrBlock {
    CidrBlock { network: ip(network), prefix_len }
}

#[test]
fn a_range_of_six_addresses_takes_two_blocks() {
    assert_eq!(
        range_to_blocks(ip("10.0.0.0"), ip("10.0.0.5")),
        vec![block("10.0.0.0", 30), block("10.0.0.4", 31)]
    );
}

#[test]
fn the_whole_space_is_one_block() {
    assert_eq!(range_to_blocks(ip("0.0.0.0"), ip("255.255.255.255")), vec![block("0.0.0.0", 0)]);
    assert_eq!(
        range_to_blocks(ip("::"), ip("ffff:ffff:ffff:ffff:ffff:ffff:ffff:ffff")),
        vec![block("::", 0)]
    );
}

#[test]
fn a_range_that_ends_before_it_starts_has_no_block() {
    assert!(range_to_blocks(ip("10.0.0.5"), ip("10.0.0.4")).is_empty());
    assert!(range_to_blocks(ip("::2"), ip("::1")).is_empty());
}

#[test]
fn ends_of_different_families_have_no_block() {
    assert!(range_to_blocks(ip("10.0.0.5"), ip("::1")).is_empty());
    assert!(range_to_blocks(ip("::1"), ip("10.0.0.5")).is_empty());
}

#[test]
fn a_single_address_is_one_block() {
    assert_eq!(range_to_blocks(ip("10.0.0.5"), ip("10.0.0.5")), vec![block("10.0.0.5", 32)]);
    assert_eq!(range_to_blocks(ip("0.0.0.0"), ip("0.0.0.0")), vec![block("0.0.0.0", 32)]);
    assert_eq!(range_to_blocks(ip("::1"), ip("::1")), vec![block("::1", 128)]);
}

#[test]
fn the_walk_ends_at_the_top_of_the_space() {
    assert_eq!(
        range_to_blocks(ip("255.255.255.255"), ip("255.255.255.255")),
        vec![block("255.255.255.255", 32)]
    );
    assert_eq!(
        range_to_blocks(ip("255.255.255.0"), ip("255.255.255.255")),
        vec![block("255.255.255.0", 24)]
    );
    assert_eq!(
        range_to_blocks(ip("255.255.255.253"), ip("255.255.255.255")),
        vec![block("255.255.255.253", 32), block("255.255.255.254", 31)]
    );
    assert_eq!(
        range_to_blocks(ip("0.0.0.1"), ip("255.255.255.255")).len(),
        32
    );
    let top = "ffff:ffff:ffff:ffff:ffff:ffff:ffff:ffff";
    assert_eq!(range_to_blocks(ip(top), ip(top)), vec![block(top, 128)]);
    assert_eq!(
        range_to_blocks(ip("ffff:ffff:ffff:ffff:ffff:ffff:ffff:fffe"), ip(top)),
        vec![block("ffff:ffff:ffff:ffff:ffff:ffff:ffff:fffe", 127)]
    );
    assert_eq!(
        range_to_blocks(ip("8000::"), ip(top)),
        vec![block("8000::", 1)]
    );
    assert_eq!(range_to_blocks(ip("::1"), ip(top)).len(), 128);
}

#[test]
fn a_range_from_zero_short_of_the_top() {
    assert_eq!(
        range_to_blocks(ip("0.0.0.0"), ip("127.255.255.255")),
        vec![block("0.0.0.0", 1)]
    );
    assert_eq!(
        range_to_blocks(ip("0.0.0.0"), ip("255.255.255.254")).len(),
        32
    );
    assert_eq!(
        range_to_blocks(ip("0.0.0.0"), ip("0.0.0.2")),
        vec![block("0.0.0.0", 31), block("0.0.0.2", 32)]
    );
}

#[test]
fn an_unaligned_range_takes_small_blocks_at_both_ends() {
    assert_eq!(
        range_to_blocks(ip("10.0.0.1"), ip("10.0.0.14")),
        vec![
            block("10.0.0.1", 32),
            block("10.0.0.2", 31),
            block("10.0.0.4", 30),
            block("10.0.0.8", 30),
            block("10.0.0.12", 31),
            block("10.0.0.14", 32),
        ]
    );
    assert_eq!(
        range_to_blocks(ip("2001:db8::"), ip("2001:db8::2")),
        vec![block("2001:db8::", 127), block("2001:db8::2", 128)]
    );
}

#[test]
fn the_blocks_partition_the_range() {
    let mut x: u64 = 0x2545_f491_4f6c_dd1d;
    for _ in 0..300 {
        x ^= x << 13;
        x ^= x >> 7;
        x ^= x << 17;
        let a = (x >> 32) as u32;
        let b = a.saturating_add((x as u32) >> ((x >> 59) as u32));
        let blocks = range_to_blocks(IpAddress::V4(a), IpAddress::V4(b));
        let mut next = a as u64;
        for block in &blocks {
            let first = match block.first_address() {
                IpAddress::V4(v) => v as u64,
                IpAddress::V6(_) => panic!("family"),
            };
            let last = match block.last_address() {
                IpAddress::V4(v) => v as u64,
                IpAddress::V6(_) => panic!("family"),
            };
            assert_eq!(first, next);
            let size = 1u64 << (32 - block.prefix_len);
            assert_eq!(first % size, 0);
            assert_eq!(last, first + size - 1);
            // No larger block may start here.
            if block.prefix_len > 0 {
                assert!(first % (2 * size) != 0 || first + 2 * size - 1 > b as u64);
            }
            next = last + 1;
        }
        assert_eq!(next, b as u64 + 1);
    }
}

#[test]
fn first_and_last_address_of_a_block() {
    let b = block("10.0.0.4", 31);
    assert_eq!(b.first_address(), ip("10.0.0.4"));
    assert_eq!(b.last_address(), ip("10.0.0.5"));
    assert_eq!(block("0.0.0.0", 0).last_address(), ip("255.255.255.255"));
    assert_eq!(block("10.0.0.7", 32).last_address(), ip("10.0.0.7"));
    assert_eq!(block("2001:db8::", 32).last_address(), ip("2001:db8:ffff:ffff:ffff:ffff:ffff:ffff"));
    assert_eq!(block("::", 0).last_address(), ip("ffff:ffff:ffff:ffff:ffff:ffff:ffff:ffff"));
}

#[test]
fn blocks_are_written_and_read_back() {
    assert_eq!(block("10.0.0.0", 30).to_text(), "10.0.0.0/30");
    assert_eq!(block("0.0.0.0", 0).to_text(), "0.0.0.0/0");
    assert_eq!(block("255.255.255.255", 32).to_text(), "255.255.255.255/32");
    assert_eq!(block("2001:db8::", 127).to_text(), "2001:db8::/127");
    assert_eq!(block("::", 0).to_text(), "::/0");
    assert_eq!(block("::ffff:1.2.3.0", 120).to_text(), "::ffff:1.2.3.0/120");

    assert_eq!(CidrBlock::parse("10.0.0.0/30"), Some(block("10.0.0.0", 30)));
    assert_eq!(CidrBlock::parse("0.0.0.0/0"), Some(block("0.0.0.0", 0)));
    assert_eq!(CidrBlock::parse("10.0.0.7/32"), Some(block("10.0.0.7", 32)));
    assert_eq!(CidrBlock::parse("2001:DB8::/32"), Some(block("2001:db8::", 32)));
    assert_eq!(CidrBlock::parse("::/0"), Some(block("::", 0)));
    assert_eq!(CidrBlock::parse("::1/128"), Some(block("::1", 128)));
    for ip_range in [("10.0.0.1", "10.0.0.14"), ("2001:db8::1", "2001:db8::ffff"), ("0.0.0.1", "255.255.255.255")] {
        for b in range_to_blocks(ip(ip_range.0), ip(ip_range.1)) {
            assert_eq!(CidrBlock::parse(&b.to_text()), Some(b));
        }
    }
}

#[test]
fn malformed_blocks_are_not_read() {
    for text in [
        "", "/", "10.0.0.0", "10.0.0.0/", "/24", "10.0.0.0/33", "10.0.0.0/024", "10.0.0.0/+24",
        "10.0.0.0/24/1", "10.0.0.1/24", "10.0.0.0/6", "1.0.0.0/0", "::/129", "::1/127",
        "2001:db8::/31x", "10.0.0.0 /24", "10.0.0.0/ 24", "10.0.0.0/256",
    ] {
        assert_eq!(CidrBlock::parse(text), None, "text {:?}", text);
    }
}

#[test]
fn no_list_of_blocks_with_the_same_union_is_shorter() {
    let base: u32 = 0x0a00_0000;
    let first = IpAddress::V4(base + 1);
    let last = IpAddress::V4(base + 6);
    let greedy = range_to_blocks(first, last);
    assert_eq!(
        greedy,
        vec![
            block("10.0.0.1", 32),
            block("10.0.0.2", 31),
            block("10.0.0.4", 31),
            block("10.0.0.6", 32)
        ]
    );
    // Every well-formed block that lies within the range, by its first
    // offset and its size.
    let candidates: Vec<(u32, u32)> =
        vec![(1, 1), (2, 1), (3, 1), (4, 1), (5, 1), (6, 1), (2, 2), (4, 2)];
    let mut lists_with_the_union: u32 = 0;
    for chosen in 0u32..(1 << candidates.len()) {
        let mut held = [false; 8];
        let mut count: usize = 0;
        for (k, (lo, size)) in candidates.iter().enumerate() {
            if chosen & (1 << k) != 0 {
                count += 1;
                for v in *lo..(*lo + *size) {
                    held[v as usize] = true;
                }
            }
        }
        if (1..=6).all(|v: usize| held[v]) {
            lists_with_the_union += 1;
            assert!(greedy.len() <= count);
        }
    }
    assert!(lists_with_the_union > 1);
}

#[test]
fn overlapping_blocks_do_not_beat_the_greedy_tiling() {
    let greedy = range_to_blocks(ip("10.0.0.0"), ip("10.0.1.255"));
    assert_eq!(greedy, vec![block("10.0.0.0", 23)]);
    let overlapping =
        vec![block("10.0.1.0", 24), block("10.0.0.0", 24), block("10.0.0.128", 25)];
    assert!(overlapping.iter().all(|b| ip("10.0.0.0").le(&b.first_address())
        && b.last_address().le(&ip("10.0.1.255"))));
    assert!(greedy.len() <= overlapping.len());
}

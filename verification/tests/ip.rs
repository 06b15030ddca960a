use china_operator_ip::failure::{FailureKind, LineSource, ReadError};
use china_operator_ip::dual::IpRanges;
use china_operator_ip::fallback::{load_prefixes, parse_prefix};
use china_operator_ip::net::{Cidr, Family};
use china_operator_ip::prefixes::PrefixTable;
use china_operator_ip::subnets::interval_to_cidrs;
use china_operator_ip::table::FamilyTable;
use std::collections::HashSet;

fn prefix(text: &str) -> Cidr {
    parse_prefix(text).unwrap()
}

fn addr(text: &str) -> u128 {
    prefix(&format!("{text}/32")).addr
}

fn net(text: &str) -> (u128, u8) {
    let c = prefix(text);
    (c.addr, c.len)
}

#[test]
fn converts_ipv4_interval_to_one_cidr() {
    let cidrs = interval_to_cidrs(Family::V4, addr("192.168.0.0"), addr("192.168.1.0"));
    assert_eq!(cidrs, [net("192.168.0.0/24")]);
}

#[test]
fn converts_complex_ipv4_interval() {
    let cidrs = interval_to_cidrs(Family::V4, addr("10.0.0.0"), addr("10.0.2.0"));
    assert_eq!(cidrs, [net("10.0.0.0/23")]);
}

#[test]
fn converts_unaligned_ipv4_interval() {
    let cidrs = interval_to_cidrs(Family::V4, addr("10.0.1.0"), addr("10.0.2.0"));
    assert_eq!(cidrs, [net("10.0.1.0/24")]);
}

#[test]
fn converts_ipv4_interval_to_multiple_cidrs() {
    let cidrs = interval_to_cidrs(Family::V4, addr("10.0.1.0"), addr("10.0.3.0"));
    assert_eq!(cidrs, [net("10.0.1.0/24"), net("10.0.2.0/24")]);
}

#[test]
fn converts_empty_and_full_intervals() {
    assert!(interval_to_cidrs(Family::V4, addr("10.0.1.0"), addr("10.0.1.0")).is_empty());
    assert!(interval_to_cidrs(Family::V4, addr("10.0.2.0"), addr("10.0.1.0")).is_empty());
    assert_eq!(
        interval_to_cidrs(Family::V4, 0, 0xffff_ffff),
        vec![
            (0, 1), (0x8000_0000, 2), (0xc000_0000, 3), (0xe000_0000, 4), (0xf000_0000, 5),
            (0xf800_0000, 6), (0xfc00_0000, 7), (0xfe00_0000, 8), (0xff00_0000, 9), (0xff80_0000, 10),
            (0xffc0_0000, 11), (0xffe0_0000, 12), (0xfff0_0000, 13), (0xfff8_0000, 14), (0xfffc_0000, 15),
            (0xfffe_0000, 16), (0xffff_0000, 17), (0xffff_8000, 18), (0xffff_c000, 19), (0xffff_e000, 20),
            (0xffff_f000, 21), (0xffff_f800, 22), (0xffff_fc00, 23), (0xffff_fe00, 24), (0xffff_ff00, 25),
            (0xffff_ff80, 26), (0xffff_ffc0, 27), (0xffff_ffe0, 28), (0xffff_fff0, 29), (0xffff_fff8, 30),
            (0xffff_fffc, 31), (0xffff_fffe, 32),
        ]
    );
}

#[test]
fn empty_filtered_prefix_blocks_aggregate_fallback() {
    let mut table = PrefixTable::new(Family::V4);
    let (a, l) = net("10.0.0.0/8");
    table.extend(a, l, &[4134]);
    let (a, l) = net("10.1.2.0/24");
    table.extend(a, l, &[]);

    let origins = table.longest_match(addr("10.1.2.1")).unwrap();
    assert!(origins.is_empty());
}

#[test]
fn longest_match_prefers_the_longest_prefix() {
    let mut table = PrefixTable::new(Family::V4);
    let (a, l) = net("10.0.0.0/8");
    table.extend(a, l, &[4134]);
    let (a, l) = net("10.1.0.0/16");
    table.extend(a, l, &[4538, 4538]);
    assert_eq!(table.longest_match(addr("10.1.2.3")), Some(vec![4538]));
    assert_eq!(table.longest_match(addr("10.2.0.0")), Some(vec![4134]));
    assert_eq!(table.longest_match(addr("11.0.0.0")), None);
}

fn fallback_result(announced: &[&str], fallbacks: &[&str]) -> IpRanges {
    let mut announced_ranges = IpRanges::new();
    for text in announced {
        announced_ranges.add_prefix(prefix(text));
    }
    let fallback_prefixes: Vec<Cidr> = fallbacks.iter().map(|text| prefix(text)).collect();
    let mut result = IpRanges::new();
    result.add_unannounced(&announced_ranges, &fallback_prefixes);
    result.simplify();
    result
}

#[test]
fn fallback_completes_an_unannounced_half() {
    let mut result = fallback_result(&["121.46.0.0/19"], &["121.46.0.0/18"]);
    result.add_prefix(prefix("121.46.0.0/19"));
    result.simplify();
    assert_eq!(result.lines(), ["121.46.0.0/18"]);
}

#[test]
fn fallback_preserves_a_more_specific_announced_hole() {
    let result = fallback_result(&["10.0.0.64/26"], &["10.0.0.0/24"]);
    assert_eq!(result.lines(), ["10.0.0.0/26", "10.0.0.128/25"]);
}

#[test]
fn fallback_adds_nothing_when_fully_announced() {
    let result = fallback_result(&["10.0.0.0/24"], &["10.0.0.0/24"]);
    assert!(result.lines().is_empty());
}

#[test]
fn fallback_supports_ipv6() {
    let mut result = fallback_result(&["2001:db8::/33"], &["2001:db8::/32"]);
    result.add_prefix(prefix("2001:db8::/33"));
    result.simplify();
    assert_eq!(result.lines(), ["2001:db8::/32"]);
}

#[test]
fn lines_list_ipv4_before_ipv6_in_order() {
    let mut ranges = IpRanges::new();
    ranges.add_prefix(prefix("2001:db8::/32"));
    ranges.add_prefix(prefix("10.0.1.0/24"));
    ranges.add_prefix(prefix("10.0.0.0/24"));
    ranges.add_prefix(prefix("1.2.3.4/32"));
    ranges.simplify();
    assert_eq!(ranges.lines(), ["1.2.3.4/32", "10.0.0.0/23", "2001:db8::/32"]);
}

#[test]
fn prefixes_are_read_trimmed_with_host_bits_kept() {
    let c = prefix("  10.0.0.1/24\n");
    assert_eq!((c.family, c.addr, c.len), (Family::V4, 0x0a00_0001, 24));
    assert_eq!(parse_prefix("10.0.0.0/33"), Err("invalid IP address syntax".to_string()));
    assert_eq!(parse_prefix("banana"), Err("invalid IP address syntax".to_string()));
    let mut ranges = IpRanges::new();
    ranges.add_prefix(c);
    assert_eq!(ranges.lines(), ["10.0.0.0/24"]);
}

#[test]
fn prefix_lists_report_the_first_bad_line() {
    let good: LineSource = vec![Ok("10.0.0.0/8".to_string()), Ok(" 2001:db8::/32 ".to_string())];
    assert_eq!(load_prefixes(&good).unwrap().len(), 2);
    let denied = || ReadError {
        kind: FailureKind::Io(std::io::ErrorKind::PermissionDenied),
        message: "Permission denied (os error 13)".to_string(),
    };
    let bad: LineSource = vec![Ok("10.0.0.0/8".to_string()), Ok("x".to_string()), Err(denied())];
    assert_eq!(
        load_prefixes(&bad),
        Err(ReadError { kind: FailureKind::InvalidData, message: "invalid IP address syntax".to_string() })
    );
    let blank: LineSource = vec![Ok("".to_string())];
    assert_eq!(load_prefixes(&blank).err().unwrap().kind, FailureKind::InvalidData);
    let unreadable: LineSource = vec![Err(denied()), Ok("x".to_string())];
    assert_eq!(load_prefixes(&unreadable), Err(denied()));
}

#[test]
fn default_route_is_not_announced_space() {
    let mut table = FamilyTable::new(Family::V4);
    let (a, l) = net("0.0.0.0/0");
    table.announce(a, l);
    let (a, l) = net("10.0.0.0/8");
    table.announce(a, l);
    let (_, announced) = table.into_ranges();
    assert_eq!(announced.nets(), vec![net("10.0.0.0/8")]);
}

#[test]
fn family_table_gives_intervals_by_longest_prefix() {
    let mut table = FamilyTable::new(Family::V4);
    let (a, l) = net("10.0.0.0/8");
    table.classify(a, l, &HashSet::from([1]), None);
    let (a, l) = net("10.1.0.0/16");
    table.classify(a, l, &HashSet::from([2]), None);
    let (ranges, _) = table.into_ranges();
    let mut one = ranges.get(&1).unwrap().nets();
    one.sort();
    assert_eq!(
        one,
        vec![
            net("10.0.0.0/16"), net("10.2.0.0/15"), net("10.4.0.0/14"), net("10.8.0.0/13"),
            net("10.16.0.0/12"), net("10.32.0.0/11"), net("10.64.0.0/10"), net("10.128.0.0/9"),
        ]
    );
    assert_eq!(ranges.get(&2).unwrap().nets(), vec![net("10.1.0.0/16")]);
}

#[test]
fn lines_list_the_stored_networks_until_merged() {
    let mut ranges = IpRanges::new();
    ranges.add_prefix(prefix("10.0.0.128/25"));
    ranges.add_prefix(prefix("2001:db8::/32"));
    ranges.add_prefix(prefix("10.0.0.0/25"));
    assert_eq!(ranges.lines(), ["10.0.0.0/25", "10.0.0.128/25", "2001:db8::/32"]);
    ranges.simplify();
    assert_eq!(ranges.lines(), ["10.0.0.0/24", "2001:db8::/32"]);
}

use china_operator_ip::asn::{
    Asn, DomesticPolicy, foreign_upstream_only, load_asn_set, load_countries, parse_country,
};
use china_operator_ip::failure::{FailureKind, LineSource, ReadError};
use std::io::ErrorKind;
use china_operator_ip::path::{AsPath, longest_common_suffix, normalize_path, shared_upstreams};
use china_operator_ip::text::IntParseError;
use std::collections::{BTreeSet, HashMap, HashSet};

fn path_of(asns: &[u32]) -> AsPath {
    let v: Vec<Asn> = asns.iter().map(|a| Asn::from(*a)).collect();
    AsPath::from_asns(&v)
}

fn lines(texts: &[&str]) -> LineSource {
    texts.iter().map(|t| Ok(t.to_string())).collect()
}

fn io_error(kind: ErrorKind, message: &str) -> ReadError {
    ReadError { kind: FailureKind::Io(kind), message: message.to_string() }
}

fn invalid_data(message: &str) -> ReadError {
    ReadError { kind: FailureKind::InvalidData, message: message.to_string() }
}

#[test]
fn detects_private_asn_ranges() {
    assert!(Asn::from(64512).is_private());
    assert!(Asn::from(65534).is_private());
    assert!(Asn::from(4_200_000_000).is_private());
    assert!(Asn::from(4_294_967_294).is_private());
    assert!(!Asn::from(64511).is_private());
    assert!(!Asn::from(13335).is_private());
}

#[test]
fn computes_longest_common_suffix() {
    let paths = vec![
        path_of(&[1, 64512, 13335, 15169]),
        path_of(&[64500, 64512, 13335, 15169]),
        path_of(&[64501, 9999, 13335, 15169]),
    ];
    assert_eq!(
        longest_common_suffix(&paths).to_vec(),
        &[Asn::from(13335), Asn::from(15169)]
    );

    let long_paths = vec![path_of(&[10, 20, 30, 40, 50, 60])];
    assert_eq!(
        longest_common_suffix(&long_paths).to_vec(),
        &[Asn::from(30), Asn::from(40), Asn::from(50), Asn::from(60),]
    );
}

#[test]
fn normalizes_as_path_before_upstream_detection() {
    assert_eq!(
        normalize_path(&[2914.into(), 20473.into(), 139589.into(), 139589.into()]).to_vec(),
        &[2914.into(), 20473.into(), 139589.into()]
    );
    assert_eq!(
        normalize_path(&[1.into(), 2.into(), 3.into(), 4.into(), 5.into(), 5.into()]).to_vec(),
        &[2.into(), 3.into(), 4.into(), 5.into()]
    );
}

#[test]
fn preserves_policy_input_error_context() {
    let missing = || -> LineSource {
        vec![Err(io_error(ErrorKind::NotFound, "No such file or directory (os error 2)"))]
    };
    let empty: LineSource = Vec::new();
    let trusted_error = DomesticPolicy::from_files(&missing(), "/dev/null", &empty).err().unwrap();
    assert_eq!(trusted_error.kind, FailureKind::Io(ErrorKind::NotFound));
    assert!(trusted_error.message.starts_with("failed to load trusted CN transit ASNs:"));

    let country_error = DomesticPolicy::from_files(
        &empty,
        "/nonexistent/china-operator-ip-asn-countries",
        &missing(),
    )
    .err()
    .unwrap();
    assert_eq!(country_error.kind, FailureKind::Io(ErrorKind::NotFound));
    assert!(country_error.message.starts_with(
        "failed to load ASN country data from /nonexistent/china-operator-ip-asn-countries:"
    ));
}

#[test]
fn detects_trusted_transit_in_contiguous_cn_suffix() {
    let policy = DomesticPolicy::new(
        HashSet::from([4538, 7497]),
        HashMap::from([
            (24489, "CN".to_string()),
            (23911, "CN".to_string()),
            (4538, "CN".to_string()),
            (38345, "CN".to_string()),
            (7497, "CN".to_string()),
            (6939, "US".to_string()),
        ]),
    );

    assert!(policy.has_domestic_suffix(&[6939.into(), 4538.into(), 23911.into(), 24489.into()]));
    assert!(policy.has_domestic_suffix(&[6939.into(), 7497.into(), 38345.into()]));
    assert!(!policy.has_domestic_suffix(&[4538.into(), 6939.into(), 24489.into()]));
    assert!(!policy.has_domestic_suffix(&[4538.into(), 64500.into(), 24489.into()]));
}

#[test]
fn parses_asn_country_lines() {
    assert_eq!(
        parse_country("AS4134 CHINANET-BACKBONE, CN"),
        Some((4134.into(), "CN"))
    );
    assert_eq!(parse_country("AS15169 GOOGLE, US"), Some((15169.into(), "US")));
    assert_eq!(parse_country("invalid"), None);
}

#[test]
fn detects_foreign_upstream_only_asns() {
    let targets = HashSet::from([1, 2, 3, 4]);
    let direct_upstreams = HashMap::from([
        (1, BTreeSet::from([100, 101])),
        (2, BTreeSet::from([100, 102])),
        (3, BTreeSet::from([200])),
        (4, BTreeSet::new()),
    ]);
    let countries = HashMap::from([
        (100, "US".to_string()),
        (101, "JP".to_string()),
        (102, "CN".to_string()),
    ]);

    assert_eq!(
        foreign_upstream_only(&targets, &direct_upstreams, &countries, "CN"),
        vec![Asn::from(1)]
    );
}

#[test]
fn foreign_upstream_country_is_compared_upper_cased() {
    let targets = HashSet::from([1, 2]);
    let direct_upstreams = HashMap::from([(1, BTreeSet::from([100])), (2, BTreeSet::from([102]))]);
    let countries = HashMap::from([(100, "US".to_string()), (102, "CN".to_string())]);
    assert_eq!(
        foreign_upstream_only(&targets, &direct_upstreams, &countries, "cn"),
        vec![Asn::from(1)]
    );
}

#[test]
fn reads_asn_numbers_like_std() {
    assert_eq!(Asn::parse("4134"), Ok(Asn::from(4134)));
    assert_eq!(Asn::parse("4294967295"), Ok(Asn::from(4294967295)));
    assert_eq!(Asn::parse(""), Err(IntParseError::Empty));
    assert_eq!(Asn::parse("41a"), Err(IntParseError::InvalidDigit));
    assert_eq!(Asn::parse("4294967296"), Err(IntParseError::PosOverflow));
    assert_eq!(Asn::parse("+7"), Ok(Asn::from(7)));
    assert_eq!(IntParseError::InvalidDigit.message(), "invalid digit found in string");
}

#[test]
fn country_table_keeps_last_line_and_upper_cases() {
    let table = load_countries(&lines(&[
        "AS4134 CHINANET-BACKBONE, cn",
        "garbage",
        "AS15169 GOOGLE, US",
        "AS4134 SOMETHING ELSE, JP",
        "AS1 TOO LONG, USA",
    ]))
    .unwrap();
    assert_eq!(table.len(), 2);
    assert_eq!(table.get(&4134).map(String::as_str), Some("JP"));
    assert_eq!(table.get(&15169).map(String::as_str), Some("US"));
}

#[test]
fn country_table_reports_read_error() {
    let source: LineSource = vec![
        Ok("AS4134 CHINANET-BACKBONE, CN".to_string()),
        Err(io_error(ErrorKind::InvalidData, "stream did not contain valid UTF-8")),
    ];
    assert_eq!(
        load_countries(&source),
        Err(io_error(ErrorKind::InvalidData, "stream did not contain valid UTF-8"))
    );
}

#[test]
fn asn_list_reads_trimmed_numbers_and_reports_bad_lines() {
    let set = load_asn_set(&lines(&[" 4538 ", "7497"])).unwrap();
    assert_eq!(set, HashSet::from([4538, 7497]));
    assert_eq!(
        load_asn_set(&lines(&["4538", "AS7497"])),
        Err(invalid_data("invalid digit found in string"))
    );
    assert_eq!(
        load_asn_set(&lines(&[""])),
        Err(invalid_data("cannot parse integer from empty string"))
    );
}

#[test]
fn policy_from_lines_reads_both_files() {
    let policy = DomesticPolicy::from_files(
        &lines(&["4538"]),
        "countries.txt",
        &lines(&["AS4538 CERNET, CN", "AS6939 HURRICANE, US"]),
    )
    .unwrap();
    assert!(policy.has_domestic_suffix(&[6939.into(), 4538.into()]));
    assert!(!policy.has_domestic_suffix(&[4538.into(), 6939.into()]));
    let (trusted, countries) = policy.fingerprint_input();
    assert_eq!(trusted, vec![4538]);
    assert_eq!(
        countries,
        vec![(4538, "CN".to_string()), (6939, "US".to_string())]
    );
}

#[test]
fn policy_fingerprint_depends_on_contents() {
    let a = DomesticPolicy::new(HashSet::from([1, 2]), HashMap::from([(1, "CN".to_string())]));
    let b = DomesticPolicy::new(HashSet::from([2, 1]), HashMap::from([(1, "CN".to_string())]));
    let c = DomesticPolicy::new(HashSet::from([1]), HashMap::from([(1, "CN".to_string())]));
    assert_eq!(a.fingerprint(), b.fingerprint());
    assert_ne!(a.fingerprint(), c.fingerprint());
}

#[test]
fn attribution_stops_after_the_first_operator() {
    let suffix = path_of(&[4134, 4538, 24489]);
    let operators = HashSet::from([4134, 4538]);
    assert_eq!(shared_upstreams(&suffix, &operators), vec![24489, 4538]);
    assert_eq!(shared_upstreams(&suffix, &HashSet::new()), vec![24489, 4538, 4134]);
    assert_eq!(shared_upstreams(&path_of(&[]), &operators), Vec::<u32>::new());
}

#[test]
fn common_suffix_of_no_paths_is_empty() {
    let none: Vec<AsPath> = Vec::new();
    assert!(longest_common_suffix(&none).to_vec().is_empty());
    let diverging = vec![path_of(&[1, 2]), path_of(&[1, 3])];
    assert!(longest_common_suffix(&diverging).to_vec().is_empty());
}

#[test]
fn country_codes_are_upper_cased() {
    let table = load_countries(&lines(&["AS4134 CHINANET-BACKBONE, cn", "AS2 X , us "])).unwrap();
    assert_eq!(table.get(&4134).map(String::as_str), Some("CN"));
    assert_eq!(table.get(&2).map(String::as_str), Some("US"));
}

#[test]
fn fingerprint_input_lists_countries_by_asn() {
    let policy = DomesticPolicy::new(
        HashSet::from([9, 3, 7, 1]),
        HashMap::from([
            (50, "US".to_string()),
            (10, "CN".to_string()),
            (40, "JP".to_string()),
            (20, "CN".to_string()),
            (30, "DE".to_string()),
        ]),
    );
    let (trusted, countries) = policy.fingerprint_input();
    assert_eq!(trusted, vec![1, 3, 7, 9]);
    let asns: Vec<u32> = countries.iter().map(|(asn, _)| *asn).collect();
    assert_eq!(asns, vec![10, 20, 30, 40, 50]);
    assert_eq!(countries[2].1, "DE");
}

#[test]
fn suffixes_of_groups_compose() {
    let a = vec![path_of(&[1, 2, 3, 4, 5, 6]), path_of(&[9, 2, 3, 4, 5, 6])];
    let b = vec![path_of(&[7, 8, 4, 5, 6])];
    let mut all: Vec<AsPath> = a.iter().map(AsPath::copy).collect();
    all.extend(b.iter().map(AsPath::copy));
    let of_groups = [longest_common_suffix(&a), longest_common_suffix(&b)];
    assert_eq!(longest_common_suffix(&of_groups).to_vec(), longest_common_suffix(&all).to_vec());
    assert_eq!(
        longest_common_suffix(&all).to_vec(),
        vec![Asn::from(4), Asn::from(5), Asn::from(6)]
    );
}

#[test]
fn suffix_ignores_path_order() {
    let p = vec![path_of(&[1, 5, 6]), path_of(&[2, 5, 6]), path_of(&[6])];
    let q = vec![path_of(&[6]), path_of(&[1, 5, 6]), path_of(&[2, 5, 6])];
    assert_eq!(longest_common_suffix(&p).to_vec(), longest_common_suffix(&q).to_vec());
    assert_eq!(longest_common_suffix(&p).to_vec(), vec![Asn::from(6)]);
}

use china_operator_ip::asn::{Asn, DomesticPolicy};
use china_operator_ip::classifier::{
    Classification, ClassifierConfig, ParsedMrtData, RibEntry, build, process_mrt_file,
};
use china_operator_ip::fallback::parse_prefix;
use china_operator_ip::net::Cidr;
use std::collections::{BTreeSet, HashMap, HashSet};

fn prefix(text: &str) -> Cidr {
    parse_prefix(text).unwrap()
}

/// An announcement as a RIB gives it: the origin is the last hop of the path.
fn route(text: &str, path: &[u32]) -> RibEntry {
    RibEntry {
        announce: true,
        prefix: prefix(text),
        origins: Some(vec![Asn::from(*path.last().unwrap())]),
        path: Some(path.iter().map(|a| Asn::from(*a)).collect()),
    }
}

fn rib(entries: Vec<RibEntry>, config: ClassifierConfig, policy: Option<&DomesticPolicy>) -> ParsedMrtData {
    process_mrt_file(&entries, config, policy)
}

fn lines_of(classification: &Classification, targets: &[u32]) -> Vec<String> {
    let targets: HashSet<u32> = targets.iter().copied().collect();
    classification.result(&targets, &HashSet::new(), &[]).lines()
}

#[test]
fn rib_classification_stops_at_the_nearest_operator() {
    let origin = 64496;
    let nearest_operator = 64497;
    let transit = 64498;
    let peer = 64499;
    let entry = || route("198.51.100.0/24", &[peer, transit, nearest_operator, origin, origin]);
    let config = ClassifierConfig {
        ignore_private_asn: true,
        origin_only: false,
    };
    let classification = build(
        vec![rib(vec![entry()], config, None)],
        config,
        None,
        &HashSet::from([transit, nearest_operator]),
    );
    let origin_only_config = ClassifierConfig {
        origin_only: true,
        ..config
    };
    let origin_only = build(
        vec![rib(vec![entry()], origin_only_config, None)],
        origin_only_config,
        None,
        &HashSet::new(),
    );

    for asn in [origin, nearest_operator] {
        assert_eq!(lines_of(&classification, &[asn]), ["198.51.100.0/24"]);
    }
    assert!(lines_of(&classification, &[transit]).is_empty());
    assert_eq!(lines_of(&origin_only, &[origin]), ["198.51.100.0/24"]);
    assert!(lines_of(&origin_only, &[nearest_operator]).is_empty());
}

#[test]
fn divergent_operators_across_ribs_are_not_shared_upstreams() {
    let origin = 64496;
    let operators = [64497, 64498];
    let config = ClassifierConfig {
        ignore_private_asn: true,
        origin_only: false,
    };
    let mut parsed = Vec::new();
    // The second RIB removes the common operator; the third must not restore it.
    for observed_operators in [&operators[..1], operators.as_slice(), &operators[..1]] {
        let entries = observed_operators
            .iter()
            .map(|&operator| route("198.51.100.0/24", &[operator, origin]))
            .collect();
        parsed.push(rib(entries, config, None));
    }
    let operator_asns: HashSet<u32> = operators.into_iter().collect();
    let classification = build(parsed, config, None, &operator_asns);
    assert_eq!(lines_of(&classification, &[origin]), ["198.51.100.0/24"]);
    assert!(
        classification
            .result(&operator_asns, &HashSet::new(), &[])
            .lines()
            .is_empty()
    );
}

#[test]
fn shared_upstreams_receive_customer_space_up_to_an_operator() {
    let config = ClassifierConfig {
        ignore_private_asn: false,
        origin_only: false,
    };
    let parsed = vec![rib(vec![route("203.0.113.0/24", &[3356, 4134, 4538, 24489])], config, None)];
    let classification = build(parsed, config, None, &HashSet::from([4134, 4538]));
    assert_eq!(lines_of(&classification, &[24489]), ["203.0.113.0/24"]);
    assert_eq!(lines_of(&classification, &[4538]), ["203.0.113.0/24"]);
    assert!(lines_of(&classification, &[4134]).is_empty());
    assert!(lines_of(&classification, &[3356]).is_empty());
}

#[test]
fn private_origins_are_skipped_when_asked() {
    let entries = || vec![route("198.51.100.0/24", &[64499, 64512]), route("203.0.113.0/24", &[64499, 13335])];
    let ignore = ClassifierConfig {
        ignore_private_asn: true,
        origin_only: true,
    };
    let keep = ClassifierConfig {
        ignore_private_asn: false,
        origin_only: true,
    };
    let ignored = build(vec![rib(entries(), ignore, None)], ignore, None, &HashSet::new());
    let kept = build(vec![rib(entries(), keep, None)], keep, None, &HashSet::new());
    assert!(lines_of(&ignored, &[64512]).is_empty());
    assert_eq!(lines_of(&kept, &[64512]), ["198.51.100.0/24"]);
    assert_eq!(lines_of(&ignored, &[13335]), ["203.0.113.0/24"]);
    // The announcement still blocks fallback space.
    let fallback = [prefix("198.51.100.0/23")];
    assert_eq!(
        ignored.result(&HashSet::new(), &HashSet::new(), &fallback).lines(),
        ["198.51.101.0/24"]
    );
}

#[test]
fn withdrawals_and_entries_without_origins_add_nothing() {
    let config = ClassifierConfig {
        ignore_private_asn: false,
        origin_only: true,
    };
    let mut withdrawn = route("198.51.100.0/24", &[64499, 13335]);
    withdrawn.announce = false;
    let mut unknown = route("203.0.113.0/24", &[64499, 13335]);
    unknown.origins = None;
    let classification = build(vec![rib(vec![withdrawn, unknown], config, None)], config, None, &HashSet::new());
    assert!(lines_of(&classification, &[13335]).is_empty());
    let fallback = [prefix("198.51.100.0/24"), prefix("203.0.113.0/24")];
    assert_eq!(
        classification.result(&HashSet::new(), &HashSet::new(), &fallback).lines(),
        ["198.51.100.0/24"]
    );
}

#[test]
fn trusted_domestic_transit_keeps_only_domestic_origins() {
    let policy = DomesticPolicy::new(
        HashSet::from([4538]),
        HashMap::from([
            (4538, "CN".to_string()),
            (24489, "CN".to_string()),
            (6939, "US".to_string()),
            (64500, "CN".to_string()),
        ]),
    );
    let config = ClassifierConfig {
        ignore_private_asn: false,
        origin_only: true,
    };
    let parsed = vec![
        rib(vec![route("198.51.100.0/24", &[6939, 4538, 24489])], config, Some(&policy)),
        rib(vec![route("203.0.113.0/24", &[4538, 6939, 64500])], config, Some(&policy)),
    ];
    let classification = build(parsed, config, Some(&policy), &HashSet::new());
    assert_eq!(lines_of(&classification, &[24489]), ["198.51.100.0/24"]);
    assert!(lines_of(&classification, &[64500]).is_empty());
    assert_eq!(
        classification.seen(&HashSet::from([24489, 64500, 1])),
        vec![Asn::from(24489)]
    );
}

#[test]
fn direct_upstreams_skip_prepending_and_private_hops() {
    let config = ClassifierConfig {
        ignore_private_asn: false,
        origin_only: true,
    };
    let parsed = vec![
        rib(vec![route("198.51.100.0/24", &[3356, 4134, 24489, 24489])], config, None),
        rib(vec![route("203.0.113.0/24", &[3356, 64512, 24489]), route("192.0.2.0/24", &[24489])], config, None),
    ];
    let classification = build(parsed, config, None, &HashSet::new());
    let expected: HashMap<u32, BTreeSet<u32>> = HashMap::from([(24489, BTreeSet::from([4134]))]);
    assert_eq!(classification.direct_upstreams(), &expected);
}

#[test]
fn classification_survives_its_plain_form() {
    let config = ClassifierConfig {
        ignore_private_asn: false,
        origin_only: false,
    };
    let parsed = vec![rib(
        vec![
            route("198.51.100.0/24", &[3356, 4134, 24489]),
            route("2001:db8::/32", &[3356, 4538]),
            route("10.0.0.0/8", &[3356, 4134]),
        ],
        config,
        None,
    )];
    let original = build(parsed, config, None, &HashSet::from([4134]));
    let restored = Classification::from_parts(&original.to_parts()).unwrap();
    let fallback = [prefix("10.0.0.0/7"), prefix("2001:db8::/31")];
    for targets in [vec![24489], vec![4134], vec![4538], vec![3356], vec![24489, 4538]] {
        let targets: HashSet<u32> = targets.into_iter().collect();
        assert_eq!(
            original.result(&targets, &HashSet::new(), &fallback).lines(),
            restored.result(&targets, &HashSet::new(), &fallback).lines()
        );
    }
    assert_eq!(original.direct_upstreams(), restored.direct_upstreams());
    assert_eq!(lines_of(&restored, &[4134]), ["10.0.0.0/8", "198.51.100.0/24"]);
}

#[test]
fn excluded_asns_contribute_nothing() {
    let config = ClassifierConfig {
        ignore_private_asn: false,
        origin_only: true,
    };
    let parsed = vec![rib(vec![route("198.51.100.0/24", &[3356, 1]), route("203.0.113.0/24", &[3356, 2])], config, None)];
    let classification = build(parsed, config, None, &HashSet::new());
    let result = classification.result(&HashSet::from([1, 2]), &HashSet::from([2]), &[]);
    assert_eq!(result.lines(), ["198.51.100.0/24"]);
}

#[test]
fn spreading_routes_over_files_gives_the_same_classification() {
    let config = ClassifierConfig {
        ignore_private_asn: false,
        origin_only: false,
    };
    let routes = || {
        vec![
            route("198.51.100.0/24", &[3356, 4134, 24489]),
            route("198.51.100.0/24", &[174, 4134, 24489]),
            route("203.0.113.0/24", &[3356, 4538, 64500]),
            route("2001:db8::/32", &[6939, 4538, 64501]),
        ]
    };
    let operators = HashSet::from([4538]);
    let together = build(vec![rib(routes(), config, None)], config, None, &operators);
    let mut first = routes();
    let second = first.split_off(2);
    let split = build(
        vec![rib(first, config, None), rib(second, config, None)],
        config,
        None,
        &operators,
    );
    for target in [24489, 4134, 3356, 174, 4538, 64500, 64501, 6939] {
        assert_eq!(lines_of(&together, &[target]), lines_of(&split, &[target]));
    }
    assert_eq!(together.direct_upstreams(), split.direct_upstreams());
    assert_eq!(lines_of(&together, &[4134]), ["198.51.100.0/24"]);
    assert!(lines_of(&together, &[3356]).is_empty());
}

#[test]
fn invalid_stored_parts_are_refused() {
    let config = ClassifierConfig {
        ignore_private_asn: false,
        origin_only: true,
    };
    let classification = build(vec![rib(vec![route("198.51.100.0/24", &[3356, 1])], config, None)], config, None, &HashSet::new());
    let mut parts = classification.to_parts();
    assert!(Classification::from_parts(&parts).is_some());
    parts.announced_v4.push((0, 33));
    assert!(Classification::from_parts(&parts).is_none());
    let mut parts = classification.to_parts();
    parts.ranges_v6.push((1, vec![(0, 129)]));
    assert!(Classification::from_parts(&parts).is_none());
}

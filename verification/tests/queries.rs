use protover::boundary::{
    collapse,
    collapse_all_supported,
    protocol_list_supports_protocol,
    protocol_list_supports_protocol_or_later,
    protover_all_supported,
    protover_compute_for_old_tor,
    protover_compute_vote,
    protover_get_supported_protocols,
    protover_is_supported_here,
    translate_to_rust,
};
use protover::entry::UnvalidatedProtoEntry;
use protover::errors::ProtoverError;
use protover::legacy::{compute_for_old_tor, era, Era};
use protover::protocol::{Protocol, UnknownProtocol};
use protover::protoset::{ProtoSet, VersionRange};
use protover::supported::{is_supported_here, ProtoEntry};
use protover::vote::ProtoverVote;

fn parse(s: &str) -> UnvalidatedProtoEntry {
    match UnvalidatedProtoEntry::from_str(s) {
        Ok(e) => e,
        Err(e) => panic!("{:?} refused: {:?}", s, e),
    }
}

fn vote(texts: &[&str], threshold: usize) -> String {
    let entries: Vec<UnvalidatedProtoEntry> = texts.iter().map(|t| parse(t)).collect();
    ProtoverVote::compute(&entries, &threshold).to_string()
}

#[test]
fn query_correctness() {
    let e = parse("Link=1,3-5");
    let link = UnknownProtocol::from_protocol(Protocol::Link);
    assert!(!e.supports_protocol(&link, &2));
    assert!(e.supports_protocol(&link, &4));
    assert!(e.supports_protocol_or_later(&link, &2));
    assert!(!e.supports_protocol_or_later(&link, &6));
}

#[test]
fn query_at_the_edges_of_ranges() {
    let e = parse("Link=1,3-5");
    let link = UnknownProtocol::new("Link");
    assert!(!e.supports_protocol(&link, &0));
    assert!(e.supports_protocol(&link, &1));
    assert!(e.supports_protocol(&link, &3));
    assert!(e.supports_protocol(&link, &5));
    assert!(!e.supports_protocol(&link, &6));
    assert!(e.supports_protocol_or_later(&link, &0));
    assert!(e.supports_protocol_or_later(&link, &5));
}

#[test]
fn query_for_a_protocol_not_named() {
    let e = parse("Link=1,3-5");
    let relay = UnknownProtocol::new("Relay");
    assert!(!e.supports_protocol(&relay, &1));
    assert!(!e.supports_protocol_or_later(&relay, &0));
    assert!(e.get(&relay).is_none());
}

#[test]
fn queries_by_number() {
    assert_eq!(protocol_list_supports_protocol("Link=1,3-5", 0, 4), Ok(true));
    assert_eq!(protocol_list_supports_protocol("Link=1,3-5", 0, 2), Ok(false));
    assert_eq!(protocol_list_supports_protocol("Link=1,3-5", 2, 1), Ok(false));
    assert_eq!(protocol_list_supports_protocol_or_later("Link=1,3-5", 0, 2), Ok(true));
    assert_eq!(protocol_list_supports_protocol_or_later("Link=1,3-5", 0, 6), Ok(false));
    assert_eq!(protocol_list_supports_protocol_or_later("Link=1,3-5", 9, 1), Ok(false));
}

#[test]
fn queries_by_number_report_faults() {
    assert_eq!(protocol_list_supports_protocol("Link=1,3-5", 10, 4), Err(ProtoverError::UnknownProtocol));
    assert_eq!(protocol_list_supports_protocol("Link=5-1", 0, 4), Err(ProtoverError::LowGreaterThanHigh));
    assert_eq!(protocol_list_supports_protocol("Link=5-1", 10, 4), Err(ProtoverError::LowGreaterThanHigh));
    assert_eq!(protocol_list_supports_protocol_or_later("Link=1", 77, 1), Err(ProtoverError::UnknownProtocol));
    assert_eq!(protocol_list_supports_protocol_or_later("Link", 0, 1), Err(ProtoverError::Unparseable));
    assert_eq!(protocol_list_supports_protocol_or_later("Link", 10, 1), Err(ProtoverError::UnknownProtocol));
}

#[test]
fn numbers_of_the_known_protocols() {
    assert_eq!(translate_to_rust(0), Ok(Protocol::Link));
    assert_eq!(translate_to_rust(1), Ok(Protocol::LinkAuth));
    assert_eq!(translate_to_rust(2), Ok(Protocol::Relay));
    assert_eq!(translate_to_rust(3), Ok(Protocol::DirCache));
    assert_eq!(translate_to_rust(4), Ok(Protocol::HSDir));
    assert_eq!(translate_to_rust(5), Ok(Protocol::HSIntro));
    assert_eq!(translate_to_rust(6), Ok(Protocol::HSRend));
    assert_eq!(translate_to_rust(7), Ok(Protocol::Desc));
    assert_eq!(translate_to_rust(8), Ok(Protocol::Microdesc));
    assert_eq!(translate_to_rust(9), Ok(Protocol::Cons));
    assert_eq!(translate_to_rust(10), Err(ProtoverError::UnknownProtocol));
    assert_eq!(translate_to_rust(u32::MAX), Err(ProtoverError::UnknownProtocol));
}

#[test]
fn names_of_the_known_protocols() {
    assert_eq!(Protocol::Cons.to_string(), "Cons");
    assert_eq!(Protocol::Desc.to_string(), "Desc");
    assert_eq!(Protocol::DirCache.to_string(), "DirCache");
    assert_eq!(Protocol::HSDir.to_string(), "HSDir");
    assert_eq!(Protocol::HSIntro.to_string(), "HSIntro");
    assert_eq!(Protocol::HSRend.to_string(), "HSRend");
    assert_eq!(Protocol::Link.to_string(), "Link");
    assert_eq!(Protocol::LinkAuth.to_string(), "LinkAuth");
    assert_eq!(Protocol::Microdesc.to_string(), "Microdesc");
    assert_eq!(Protocol::Relay.to_string(), "Relay");
    assert_eq!(Protocol::from_str("HSRend"), Ok(Protocol::HSRend));
    assert_eq!(Protocol::from_str("hsrend"), Err(ProtoverError::UnknownProtocol));
    assert_eq!(Protocol::from_str("HSRend "), Err(ProtoverError::UnknownProtocol));
    assert_eq!(UnknownProtocol::new("Link").as_protocol(), Ok(Protocol::Link));
    assert_eq!(UnknownProtocol::new("Lin").as_protocol(), Err(ProtoverError::UnknownProtocol));
}

#[test]
fn supported_here() {
    assert!(is_supported_here(&Protocol::Cons, &1));
    assert!(is_supported_here(&Protocol::Cons, &2));
    assert!(!is_supported_here(&Protocol::Cons, &0));
    assert!(!is_supported_here(&Protocol::Cons, &3));
    assert!(is_supported_here(&Protocol::HSIntro, &3));
    assert!(is_supported_here(&Protocol::HSIntro, &4));
    assert!(!is_supported_here(&Protocol::HSIntro, &2));
    assert!(is_supported_here(&Protocol::Link, &5));
    assert!(!is_supported_here(&Protocol::Link, &6));
    assert!(is_supported_here(&Protocol::LinkAuth, &1));
    assert!(!is_supported_here(&Protocol::LinkAuth, &2));
    assert!(is_supported_here(&Protocol::LinkAuth, &3));
    assert_eq!(protover_is_supported_here(1, 3), Ok(true));
    assert_eq!(protover_is_supported_here(1, 2), Ok(false));
    assert_eq!(protover_is_supported_here(12, 1), Err(ProtoverError::UnknownProtocol));
}

#[test]
fn supported_table_as_text() {
    let text = "Cons=1-2,Desc=1-2,DirCache=1-2,HSDir=1-2,HSIntro=3-4,HSRend=1-2,Link=1-5,LinkAuth=1,3,Microdesc=1-2,Relay=1-2";
    assert_eq!(protover_get_supported_protocols(), text);
    assert_eq!(ProtoEntry::supported().to_string(), text);
    assert!(!protover_get_supported_protocols().contains('\0'));
}

#[test]
fn supported_table_agrees_with_the_query() {
    let table = ProtoEntry::supported();
    for n in 0..10u32 {
        let p = translate_to_rust(n).unwrap();
        for v in 0..8u32 {
            assert_eq!(table.supports_protocol(&p, &v), is_supported_here(&p, &v));
        }
    }
}

#[test]
fn all_supported_remainder() {
    let rest = parse("Cons=1-3").all_supported();
    assert_eq!(rest.map(|u| u.to_string()), Some("Cons=3".to_string()));
    assert!(parse("Cons=1-2").all_supported().is_none());
}

#[test]
fn all_supported_with_unknown_protocol() {
    let rest = parse("Wombat=1-2,Link=1-5").all_supported();
    assert_eq!(rest.map(|u| u.to_string()), Some("Wombat=1-2".to_string()));
}

#[test]
fn all_supported_remainder_in_pieces() {
    let rest = parse("LinkAuth=1-4,Link=0-7,Relay=2").all_supported();
    assert_eq!(rest.map(|u| u.to_string()), Some("Link=0,6-7,LinkAuth=2,4".to_string()));
}

#[test]
fn all_supported_through_the_boundary() {
    assert_eq!(protover_all_supported("Cons=1-3"), Ok(Some("Cons=3".to_string())));
    assert_eq!(protover_all_supported("Cons=1-2"), Ok(None));
    assert_eq!(protover_all_supported(&protover_get_supported_protocols()), Ok(None));
    assert_eq!(protover_all_supported("Cons=3-1"), Err(ProtoverError::LowGreaterThanHigh));
}

#[test]
fn voting() {
    assert_eq!(vote(&["Relay=1-2", "Relay=2-3", "Relay=2"], 2), "Relay=2");
}

#[test]
fn voting_threshold_zero_is_the_union() {
    assert_eq!(vote(&["Relay=1-2", "Relay=2-3", "Link=7"], 0), "Link=7,Relay=1-3");
    assert_eq!(vote(&["Relay=1-2", "Relay=2-3", "Link=7"], 1), "Link=7,Relay=1-3");
}

#[test]
fn voting_threshold_above_the_number_of_entries() {
    assert_eq!(vote(&["Relay=1-2", "Relay=2-3", "Relay=2"], 4), "");
    assert_eq!(vote(&[], 0), "");
    assert_eq!(vote(&[], 1), "");
}

#[test]
fn voting_counts_inside_ranges() {
    assert_eq!(vote(&["Link=1-10", "Link=4-6", "Link=5-20"], 3), "Link=5-6");
    assert_eq!(vote(&["Link=1-10", "Link=4-6", "Link=5-20"], 2), "Link=4-10");
    assert_eq!(vote(&["Link=1-3,7-9", "Link=2-8"], 2), "Link=2-3,7-8");
}

#[test]
fn voting_over_wide_ranges() {
    assert_eq!(vote(&["Link=0-4294967294", "Link=5-4294967294"], 2), "Link=5-4294967294");
    assert_eq!(vote(&["Link=0-4294967294", "Link=4294967294"], 2), "Link=4294967294");
}

#[test]
fn voting_on_unknown_names() {
    assert_eq!(vote(&["Wombat=3", "Wombat=3-4,Link=1", "wombat=3"], 2), "Wombat=3");
}

#[test]
fn voting_is_monotone_in_the_threshold() {
    let texts = ["Link=1-10,Relay=1", "Link=4-6,Relay=1-2", "Link=5-20", "Cons=1"];
    let entries: Vec<UnvalidatedProtoEntry> = texts.iter().map(|t| parse(t)).collect();
    for t in 0..5usize {
        let low = ProtoverVote::compute(&entries, &t);
        let high = ProtoverVote::compute(&entries, &(t + 1));
        for name in ["Link", "Relay", "Cons", "Desc"] {
            let p = UnknownProtocol::new(name);
            for v in 0..25u32 {
                if high.supports_protocol(&p, &v) {
                    assert!(low.supports_protocol(&p, &v));
                }
            }
        }
    }
}

#[test]
fn voting_through_the_boundary() {
    let list = vec!["Relay=1-2".to_string(), "Relay=2-3".to_string(), "Relay=2".to_string()];
    assert_eq!(protover_compute_vote(&list, 2), "Relay=2");
    assert_eq!(protover_compute_vote(&list, 0), "Relay=1-3");
    assert_eq!(protover_compute_vote(&list, 4), "");
    assert_eq!(protover_compute_vote(&list, -1), "");
}

#[test]
fn voting_passes_over_what_cannot_be_read() {
    let list = vec!["Relay=1-2".to_string(), "Relay=9-1".to_string(), "garbage".to_string(), "Relay=2".to_string()];
    assert_eq!(protover_compute_vote(&list, 2), "Relay=2");
    assert_eq!(protover_compute_vote(&list, 3), "");
}

#[test]
fn tally_of_one_protocol() {
    let entries = vec![parse("Link=1-3"), parse("Link=2-5,Relay=1"), parse("Relay=1-2")];
    let link = ProtoverVote::tally(&entries, &UnknownProtocol::new("Link"), 2);
    assert_eq!(link.to_string(), "2-3");
    let relay = ProtoverVote::tally(&entries, &UnknownProtocol::new("Relay"), 1);
    assert_eq!(relay.to_string(), "1-2");
    let none = ProtoverVote::tally(&entries, &UnknownProtocol::new("Cons"), 0);
    assert_eq!(none.to_string(), "");
}

#[test]
fn legacy_eras() {
    assert_eq!(era("0.2.9.3-alpha"), Era::Advertising);
    assert_eq!(era("0.3.1.7"), Era::Advertising);
    assert_eq!(era("1.0.0"), Era::Advertising);
    assert_eq!(era("0.2.9.2-alpha"), Era::Since0_2_9_1);
    assert_eq!(era("0.2.9.1-alpha"), Era::Since0_2_9_1);
    assert_eq!(era("0.2.9"), Era::Since0_2_7_5);
    assert_eq!(era("0.2.8.12"), Era::Since0_2_7_5);
    assert_eq!(era("0.2.7.5"), Era::Since0_2_7_5);
    assert_eq!(era("0.2.7.4-rc"), Era::Since0_2_4_19);
    assert_eq!(era("0.2.4.19"), Era::Since0_2_4_19);
    assert_eq!(era("Tor 0.2.4.19"), Era::Since0_2_4_19);
    assert_eq!(era("Tor 0.2.5.10 (git-abcdef)"), Era::Since0_2_4_19);
    assert_eq!(era("0.2.4.18-rc"), Era::Unknown);
    assert_eq!(era("0.1.2.3"), Era::Unknown);
    assert_eq!(era(""), Era::Unknown);
    assert_eq!(era("0.2"), Era::Unknown);
    assert_eq!(era("0.2.7.5.1"), Era::Unknown);
    assert_eq!(era("0..7.5"), Era::Unknown);
    assert_eq!(era("banana"), Era::Unknown);
    assert_eq!(era("tor 0.2.7.5"), Era::Unknown);
    assert_eq!(era("0.2.99999999999.5"), Era::Unknown);
}

#[test]
fn legacy_entries() {
    assert_eq!(
        protover_compute_for_old_tor("0.2.9.1-alpha"),
        "Cons=1-2,Desc=1-2,DirCache=1,HSDir=1,HSIntro=3,HSRend=1-2,Link=1-4,LinkAuth=1,Microdesc=1-2,Relay=1-2"
    );
    assert_eq!(
        protover_compute_for_old_tor("0.2.7.5"),
        "Cons=1-2,Desc=1-2,DirCache=1,HSDir=1,HSIntro=3,HSRend=1,Link=1-4,LinkAuth=1,Microdesc=1-2,Relay=1-2"
    );
    assert_eq!(
        protover_compute_for_old_tor("0.2.4.19"),
        "Cons=1,Desc=1,DirCache=1,HSDir=1,HSIntro=3,HSRend=1,Link=1-4,LinkAuth=1,Microdesc=1,Relay=1-2"
    );
    assert_eq!(protover_compute_for_old_tor("0.2.9.3-alpha"), "");
    assert_eq!(protover_compute_for_old_tor("0.2.3.25"), "");
    assert_eq!(protover_compute_for_old_tor("no version at all"), "");
}

#[test]
fn legacy_lookup_is_repeatable() {
    for text in ["0.2.9.1-alpha", "0.2.7.5", "0.2.4.19", "0.2.9.3", "nonsense", ""] {
        assert_eq!(compute_for_old_tor(text).to_string(), compute_for_old_tor(text).to_string());
        assert_eq!(protover_compute_for_old_tor(text), protover_compute_for_old_tor(text));
    }
}

#[test]
fn legacy_entries_can_be_read_back() {
    for text in ["0.2.9.1-alpha", "0.2.7.5", "0.2.4.19"] {
        let written = protover_compute_for_old_tor(text);
        assert_eq!(parse(&written).to_string(), written);
    }
}

#[test]
fn set_from_pairs() {
    let s = ProtoSet::from_slice(&[(4, 5), (1, 2), (3, 3), (9, 12)]).unwrap();
    assert_eq!(s.to_string(), "1-5,9-12");
    assert!(s.contains(1) && s.contains(5) && s.contains(10));
    assert!(!s.contains(0) && !s.contains(6) && !s.contains(13));
    assert_eq!(s.max(), Some(12));
    assert_eq!(s.range_count(), 2);
    assert_eq!(s.range_at(1), VersionRange { low: 9, high: 12 });
    assert!(!s.is_empty());
}

#[test]
fn set_from_pairs_faults() {
    assert_eq!(ProtoSet::from_slice(&[(1, 3), (3, 4)]).err(), Some(ProtoverError::Overlap));
    assert_eq!(ProtoSet::from_slice(&[(3, 1)]).err(), Some(ProtoverError::LowGreaterThanHigh));
    assert_eq!(ProtoSet::from_slice(&[(1, u32::MAX)]).err(), Some(ProtoverError::ExceedsMax));
    assert_eq!(ProtoSet::from_slice(&[(u32::MAX, 1)]).err(), Some(ProtoverError::ExceedsMax));
    assert_eq!(ProtoSet::from_slice(&[(1, 1), (5, 2), (1, 1)]).err(), Some(ProtoverError::LowGreaterThanHigh));
}

#[test]
fn range_checks() {
    assert_eq!(VersionRange::new(1, 3), Ok(VersionRange { low: 1, high: 3 }));
    assert_eq!(VersionRange::new(3, 3), Ok(VersionRange { low: 3, high: 3 }));
    assert_eq!(VersionRange::new(3, 1), Err(ProtoverError::LowGreaterThanHigh));
    assert_eq!(VersionRange::new(3, u32::MAX), Err(ProtoverError::ExceedsMax));
}

#[test]
fn empty_set() {
    let s = ProtoSet::new();
    assert!(s.is_empty());
    assert_eq!(s.max(), None);
    assert_eq!(s.to_string(), "");
    assert!(!s.contains(0));
    assert!(!s.overlaps(0, u32::MAX));
    assert_eq!(s.duplicate(), s);
}

#[test]
fn insert_range_merges_neighbours() {
    let mut s = ProtoSet::new();
    assert_eq!(s.insert_range(5, 6), Ok(()));
    assert_eq!(s.insert_range(1, 2), Ok(()));
    assert_eq!(s.to_string(), "1-2,5-6");
    assert_eq!(s.insert_range(3, 4), Ok(()));
    assert_eq!(s.to_string(), "1-6");
    assert_eq!(s.insert_range(6, 9), Err(ProtoverError::Overlap));
    assert_eq!(s.insert_range(0, 1), Err(ProtoverError::Overlap));
    assert_eq!(s.to_string(), "1-6");
    assert_eq!(s.insert_range(8, 9), Ok(()));
    assert_eq!(s.insert_range(0, 0), Ok(()));
    assert_eq!(s.to_string(), "0-6,8-9");
}

#[test]
fn difference_of_sets() {
    let a = ProtoSet::from_slice(&[(1, 10), (20, 30)]).unwrap();
    let b = ProtoSet::from_slice(&[(0, 2), (5, 5), (9, 25), (30, 40)]).unwrap();
    assert_eq!(a.difference(&b).to_string(), "3-4,6-8,26-29");
    assert_eq!(b.difference(&a).to_string(), "0,11-19,31-40");
    assert_eq!(a.difference(&a).to_string(), "");
    assert_eq!(a.difference(&ProtoSet::new()).to_string(), "1-10,20-30");
}

#[test]
fn overlaps_of_a_set() {
    let s = ProtoSet::from_slice(&[(3, 5), (9, 9)]).unwrap();
    assert!(s.overlaps(0, 3));
    assert!(s.overlaps(5, 8));
    assert!(s.overlaps(4, 4));
    assert!(!s.overlaps(6, 8));
    assert!(!s.overlaps(10, 4294967294));
    assert!(!s.overlaps(5, 3));
}

#[test]
fn equal_sets_are_kept_alike() {
    let a = ProtoSet::from_slice(&[(1, 2), (3, 4), (8, 8)]).unwrap();
    let b = ProtoSet::from_slice(&[(8, 8), (4, 4), (1, 3)]).unwrap();
    assert_eq!(a, b);
    assert_eq!(a.duplicate(), b);
    assert_eq!(parse("Relay=1,2,3"), parse("Relay=1-3"));
    assert_eq!(parse("Relay=1,Link=4"), parse("Link=4,Relay=1"));
    assert_ne!(parse("Relay=1,Link=4"), parse("Link=4,Relay=2"));
    assert_eq!(parse("Relay=1,Link=4").duplicate(), parse("Link=4,Relay=1"));
    assert_eq!(ProtoEntry::supported().duplicate(), ProtoEntry::supported());
}

#[test]
fn building_an_entry_by_hand() {
    let mut e = UnvalidatedProtoEntry::new();
    assert!(e.is_empty());
    assert_eq!(e.to_string(), "");
    e.insert(UnknownProtocol::new("Relay"), ProtoSet::from_slice(&[(1, 2)]).unwrap());
    e.insert(UnknownProtocol::new("Cons"), ProtoSet::from_slice(&[(1, 1), (3, 3)]).unwrap());
    assert_eq!(e.to_string(), "Cons=1,3,Relay=1-2");
    e.insert(UnknownProtocol::new("Relay"), ProtoSet::from_slice(&[(7, 8)]).unwrap());
    assert_eq!(e.to_string(), "Cons=1,3,Relay=7-8");
    assert_eq!(e.len(), 2);
    assert_eq!(e.name_at(0).to_string(), "Cons");
    assert_eq!(e.set_at(1).to_string(), "7-8");
    e.insert(UnknownProtocol::new("Empty"), ProtoSet::new());
    assert_eq!(e.to_string(), "Cons=1,3,Empty=,Relay=7-8");
    assert!(!e.supports_protocol_or_later(&UnknownProtocol::new("Empty"), &0));
}

#[test]
fn validated_entry_by_hand() {
    let mut e = ProtoEntry::new();
    assert!(e.is_empty());
    e.insert(Protocol::Link, ProtoSet::from_slice(&[(1, 4)]).unwrap());
    e.insert(Protocol::Cons, ProtoSet::from_slice(&[(2, 2)]).unwrap());
    assert_eq!(e.to_string(), "Cons=2,Link=1-4");
    assert!(e.supports_protocol(&Protocol::Link, &4));
    assert!(!e.supports_protocol(&Protocol::Relay, &1));
    assert_eq!(e.get(&Protocol::Cons).map(|s| s.to_string()), Some("2".to_string()));
    assert_eq!(e.as_unvalidated().to_string(), "Cons=2,Link=1-4");
    let same = ProtoEntry::from_unvalidated(parse("Cons=2,Link=1-4")).unwrap();
    assert_eq!(same.to_string(), e.to_string());
    assert!(ProtoEntry::from_unvalidated(parse("Cons=2,Other=1")).is_err());
}

#[test]
fn known_part_of_an_entry() {
    let e = ProtoEntry::from_known(&parse("Wombat=1,Link=1-4,link=2,Cons=2"));
    assert_eq!(e.to_string(), "Cons=2,Link=1-4");
    assert_eq!(e.protocols(), vec![Protocol::Cons, Protocol::Link]);
    assert!(ProtoEntry::from_known(&parse("Wombat=1")).is_empty());
    assert_eq!(ProtoEntry::new().protocols(), vec![]);
}

#[test]
fn protocols_of_the_supported_table() {
    assert_eq!(
        ProtoEntry::supported().protocols(),
        vec![
            Protocol::Cons,
            Protocol::Desc,
            Protocol::DirCache,
            Protocol::HSDir,
            Protocol::HSIntro,
            Protocol::HSRend,
            Protocol::Link,
            Protocol::LinkAuth,
            Protocol::Microdesc,
            Protocol::Relay,
        ]
    );
}

#[test]
fn answers_as_integers() {
    assert_eq!(collapse(Ok(true)), 1);
    assert_eq!(collapse(Ok(false)), 0);
    assert_eq!(collapse(Err(ProtoverError::Unparseable)), 0);
    assert_eq!(collapse(Err(ProtoverError::UnknownProtocol)), 0);
    assert_eq!(collapse(protocol_list_supports_protocol_or_later("Link=1,3-5", 0, 2)), 1);
    assert_eq!(collapse(protocol_list_supports_protocol_or_later("Link", 0, 2)), 0);
    assert_eq!(collapse(protover_is_supported_here(0, 5)), 1);
    assert_eq!(collapse(protover_is_supported_here(0, 6)), 0);
    assert_eq!(collapse(protover_is_supported_here(10, 1)), 0);
}

#[test]
fn all_supported_as_integer_and_text() {
    assert_eq!(collapse_all_supported(protover_all_supported("Cons=1-3")), (0, Some("Cons=3".to_string())));
    assert_eq!(collapse_all_supported(protover_all_supported("Cons=1-2")), (1, None));
    assert_eq!(collapse_all_supported(protover_all_supported("Cons=2-1")), (0, None));
    assert_eq!(collapse_all_supported(protover_all_supported("Relay=1-3,2-4")), (0, None));
    assert_eq!(collapse_all_supported(protover_all_supported("")), (0, None));
    assert_eq!(collapse_all_supported(Err(ProtoverError::Overlap)), (0, None));
    assert_eq!(collapse_all_supported(Ok(None)), (1, None));
    assert_eq!(collapse_all_supported(Ok(Some("Link=9".to_string()))), (0, Some("Link=9".to_string())));
}

#[test]
fn texts_given_out_are_read_back() {
    let supported = protover_get_supported_protocols();
    assert_eq!(parse(&supported), *ProtoEntry::supported().as_unvalidated());
    let missing = protover_all_supported("HSIntro=1-6,Wombat=2").unwrap().unwrap();
    assert_eq!(missing, "HSIntro=1-2,5-6,Wombat=2");
    assert_eq!(parse(&missing).to_string(), missing);
    let list = vec!["Relay=1-2,Link=4".to_string(), "Relay=2-3,Link=4".to_string()];
    let vote = protover_compute_vote(&list, 2);
    assert_eq!(vote, "Link=4,Relay=2");
    assert_eq!(parse(&vote).to_string(), vote);
    let old = protover_compute_for_old_tor("0.2.7.5");
    assert_eq!(parse(&old), *compute_for_old_tor("0.2.7.5").as_unvalidated());
}

#[test]
fn number_and_order_of_the_protocols() {
    let e = ProtoEntry::from_str("Relay=1,Cons=2,LinkAuth=1,Link=3").unwrap();
    assert_eq!(e.len(), 4);
    assert_eq!(e.protocols(), vec![Protocol::Cons, Protocol::Link, Protocol::LinkAuth, Protocol::Relay]);
    assert_eq!(ProtoEntry::supported().len(), 10);
    assert_eq!(ProtoEntry::new().len(), 0);
}

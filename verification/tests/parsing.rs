use protover::entry::UnvalidatedProtoEntry;
use protover::errors::ProtoverError;
use protover::protocol::UnknownProtocol;
use protover::supported::ProtoEntry;

fn parse(s: &str) -> UnvalidatedProtoEntry {
    match UnvalidatedProtoEntry::from_str(s) {
        Ok(e) => e,
        Err(e) => panic!("{:?} refused: {:?}", s, e),
    }
}

fn refusal(s: &str) -> ProtoverError {
    match UnvalidatedProtoEntry::from_str(s) {
        Ok(e) => panic!("{:?} accepted as {:?}", s, e.to_string()),
        Err(e) => e,
    }
}

#[test]
fn single_protocol_single_version() {
    assert_eq!(parse("Relay=1").to_string(), "Relay=1");
}

#[test]
fn single_protocol_range() {
    assert_eq!(parse("Relay=1-3").to_string(), "Relay=1-3");
}

#[test]
fn coalescing_of_touching_versions() {
    assert_eq!(parse("Relay=1,2,3").to_string(), "Relay=1-3");
    assert_eq!(parse("Relay=1,2,3").to_string(), parse("Relay=1-3").to_string());
}

#[test]
fn coalescing_out_of_order() {
    assert_eq!(parse("Relay=3,1,2").to_string(), "Relay=1-3");
    assert_eq!(parse("Relay=5-6,1-2,3-4").to_string(), "Relay=1-6");
}

#[test]
fn gaps_are_kept() {
    assert_eq!(parse("Link=3-5,1").to_string(), "Link=1,3-5");
}

#[test]
fn protocols_come_out_in_name_order() {
    assert_eq!(parse("Relay=1,Cons=2,Link=1-4,Desc=1").to_string(), "Cons=2,Desc=1,Link=1-4,Relay=1");
}

#[test]
fn shorter_name_comes_first() {
    assert_eq!(parse("LinkAuth=1,Link=2").to_string(), "Link=2,LinkAuth=1");
}

#[test]
fn several_ranges_per_protocol() {
    assert_eq!(parse("LinkAuth=1,3,Link=1-5").to_string(), "Link=1-5,LinkAuth=1,3");
}

#[test]
fn unknown_names_are_kept_as_given() {
    let e = parse("Wombat=9,link=1");
    assert_eq!(e.to_string(), "Wombat=9,link=1");
    assert!(e.supports_protocol(&UnknownProtocol::new("Wombat"), &9));
    assert!(e.supports_protocol(&UnknownProtocol::new("link"), &1));
    assert!(!e.supports_protocol(&UnknownProtocol::new("Link"), &1));
}

#[test]
fn leading_zeros_are_read_by_value() {
    assert_eq!(parse("Relay=007").to_string(), "Relay=7");
    assert_eq!(parse("Relay=000000000000000000001-02").to_string(), "Relay=1-2");
}

#[test]
fn version_zero_is_a_version() {
    assert_eq!(parse("Relay=0-1").to_string(), "Relay=0-1");
}

#[test]
fn largest_version_is_accepted() {
    assert_eq!(parse("Relay=4294967294").to_string(), "Relay=4294967294");
    assert_eq!(parse("Relay=4294967293,4294967294").to_string(), "Relay=4294967293-4294967294");
}

#[test]
fn version_above_the_limit_is_refused() {
    assert_eq!(refusal("Relay=4294967295"), ProtoverError::ExceedsMax);
    assert_eq!(refusal("Relay=4294967296"), ProtoverError::ExceedsMax);
    assert_eq!(refusal("Relay=1-99999999999999999999999999"), ProtoverError::ExceedsMax);
    assert_eq!(refusal("Relay=99999999999999999999999999-1"), ProtoverError::ExceedsMax);
}

#[test]
fn malformed_wins_over_too_large() {
    assert_eq!(refusal("Relay=99999999999999999999-x"), ProtoverError::Unparseable);
    assert_eq!(refusal("Relay=x-99999999999999999999"), ProtoverError::Unparseable);
}

#[test]
fn bounds_out_of_order_are_refused() {
    assert_eq!(refusal("Relay=3-1"), ProtoverError::LowGreaterThanHigh);
    assert_eq!(refusal("Relay=1,5-4"), ProtoverError::LowGreaterThanHigh);
}

#[test]
fn overlap_rejection() {
    assert_eq!(refusal("Relay=1-3,Relay=2-4"), ProtoverError::Overlap);
    assert_eq!(refusal("Relay=1-3,2-4"), ProtoverError::Overlap);
}

#[test]
fn overlap_of_a_single_version() {
    assert_eq!(refusal("Relay=1,1"), ProtoverError::Overlap);
    assert_eq!(refusal("Relay=1-5,3"), ProtoverError::Overlap);
    assert_eq!(refusal("Relay=3,1-5"), ProtoverError::Overlap);
}

#[test]
fn protocol_opened_twice_is_refused() {
    assert_eq!(refusal("Relay=1-3,Relay=5"), ProtoverError::Duplicate);
    assert_eq!(refusal("Relay=1,Link=1,Relay=3"), ProtoverError::Duplicate);
}

#[test]
fn malformed_texts_are_refused() {
    assert_eq!(refusal(""), ProtoverError::Unparseable);
    assert_eq!(refusal("Relay"), ProtoverError::Unparseable);
    assert_eq!(refusal("1-3"), ProtoverError::Unparseable);
    assert_eq!(refusal("=1"), ProtoverError::Unparseable);
    assert_eq!(refusal("Relay="), ProtoverError::Unparseable);
    assert_eq!(refusal("Relay=1-"), ProtoverError::Unparseable);
    assert_eq!(refusal("Relay=-1"), ProtoverError::Unparseable);
    assert_eq!(refusal("Relay=1-2-3"), ProtoverError::Unparseable);
    assert_eq!(refusal("Relay=a"), ProtoverError::Unparseable);
    assert_eq!(refusal("Relay=1,,2"), ProtoverError::Unparseable);
    assert_eq!(refusal("Relay=1,"), ProtoverError::Unparseable);
    assert_eq!(refusal(",Relay=1"), ProtoverError::Unparseable);
    assert_eq!(refusal("Relay=1 "), ProtoverError::Unparseable);
    assert_eq!(refusal("Relay=+1"), ProtoverError::Unparseable);
    assert_eq!(refusal("Relay=1=2"), ProtoverError::Unparseable);
}

#[test]
fn first_fault_decides() {
    assert_eq!(refusal("Relay=3-1,Link=x"), ProtoverError::LowGreaterThanHigh);
    assert_eq!(refusal("Relay=x,Link=3-1"), ProtoverError::Unparseable);
    assert_eq!(refusal("Relay=1,Relay=x"), ProtoverError::Unparseable);
    assert_eq!(refusal("Relay=1,Relay=3-2"), ProtoverError::LowGreaterThanHigh);
}

#[test]
fn name_of_a_hundred_characters_is_accepted() {
    let name = "a".repeat(100);
    let text = format!("{}=1", name);
    assert_eq!(parse(&text).to_string(), text);
}

#[test]
fn longer_name_is_refused() {
    let name = "a".repeat(101);
    assert_eq!(refusal(&format!("{}=1", name)), ProtoverError::Unparseable);
}

#[test]
fn name_beyond_ascii() {
    let e = parse("Ünïcode=1-2");
    assert_eq!(e.to_string(), "Ünïcode=1-2");
    assert!(e.supports_protocol(&UnknownProtocol::new("Ünïcode"), &2));
}

#[test]
fn round_trip_keeps_the_entry() {
    for text in [
        "Relay=1",
        "Link=1,3-5",
        "Cons=1-2,Desc=1-2,DirCache=1-2,HSDir=1-2,HSIntro=3-4,HSRend=1-2,Link=1-5,LinkAuth=1,3,Microdesc=1-2,Relay=1-2",
        "Relay=3,1,2,Foo=7-9,Foo2=0",
        "Z=4294967294,A=0",
    ] {
        let first = parse(text);
        let again = parse(&first.to_string());
        assert_eq!(again.len(), first.len());
        for i in 0..first.len() {
            let name = first.name_at(i);
            assert_eq!(again.name_at(i).to_string(), name.to_string());
            for v in [0u32, 1, 2, 3, 4, 5, 6, 7, 8, 9, 10, 4294967293, 4294967294] {
                assert_eq!(again.supports_protocol(&name, &v), first.supports_protocol(&name, &v));
            }
        }
    }
}

#[test]
fn canonical_text_is_a_fixed_point() {
    for text in ["Relay=1,2,3", "Link=5,1,3-4", "B=2,A=1,C=3,A2=9"] {
        let once = parse(text).to_string();
        let twice = parse(&once).to_string();
        assert_eq!(once, twice);
    }
}

#[test]
fn validated_entry_takes_known_names() {
    let e = match ProtoEntry::from_str("Link=1-4,Cons=1") {
        Ok(e) => e,
        Err(e) => panic!("refused: {:?}", e),
    };
    assert_eq!(e.to_string(), "Cons=1,Link=1-4");
    assert_eq!(e.len(), 2);
    assert!(!e.is_empty());
}

#[test]
fn validated_entry_refuses_unknown_names() {
    assert_eq!(ProtoEntry::from_str("Link=1-4,Wombat=1").err(), Some(ProtoverError::UnknownProtocol));
    assert_eq!(ProtoEntry::from_str("link=1").err(), Some(ProtoverError::UnknownProtocol));
    assert_eq!(ProtoEntry::from_str("Link=4-1").err(), Some(ProtoverError::LowGreaterThanHigh));
}

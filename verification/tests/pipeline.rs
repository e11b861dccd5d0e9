use mint_discovery::cashu::{get_most_common_string, parse_event_as_cashu_mint_announcement, CashuAnnouncement};
use mint_discovery::discovery::{
    build_announcement_filter, process_events, NIP87_MINT_ANNOUNCEMENT_CASHU_KIND,
    NIP87_MINT_ANNOUNCEMENT_FEDIMINT_KIND, NIP87_MINT_RECOMMENDATION_KIND,
};
use mint_discovery::events::{EventTag, RelayEvent};
use mint_discovery::fedimint::{
    invite_code_candidates, parse_event_as_fedimint_mint_announcement, FederationId,
    FedimintAnnouncement,
};
use mint_discovery::network::{network_tag_values, DiscoveryError, NetworkSelector};
use mint_discovery::text::parse_u16;

fn tag(items: &[&str]) -> EventTag {
    EventTag { items: items.iter().map(|s| s.to_string()).collect() }
}

fn cashu_event(tags: Vec<EventTag>) -> RelayEvent {
    RelayEvent { kind: NIP87_MINT_ANNOUNCEMENT_CASHU_KIND, tags }
}

fn fedimint_event(tags: Vec<EventTag>) -> RelayEvent {
    RelayEvent { kind: NIP87_MINT_ANNOUNCEMENT_FEDIMINT_KIND, tags }
}

const FED_ID_A: &str = "0000000000000000000000000000000000000000000000000000000000000001";
const FED_ID_B: &str = "00000000000000000000000000000000000000000000000000000000000000ff";

fn strings(items: &[&str]) -> Vec<String> {
    items.iter().map(|s| s.to_string()).collect()
}

#[test]
fn network_values_bitcoin_accepts_both_conventions() {
    let values = network_tag_values(NetworkSelector::Bitcoin).unwrap();
    assert_eq!(values, strings(&["mainnet", "bitcoin"]));
}

#[test]
fn network_values_other_supported_networks() {
    assert_eq!(network_tag_values(NetworkSelector::Testnet).unwrap(), strings(&["testnet"]));
    assert_eq!(network_tag_values(NetworkSelector::Testnet4).unwrap(), strings(&["testnet"]));
    assert_eq!(network_tag_values(NetworkSelector::Signet).unwrap(), strings(&["signet"]));
    assert_eq!(network_tag_values(NetworkSelector::Regtest).unwrap(), strings(&["regtest"]));
}

#[test]
fn unsupported_network_is_a_typed_error_not_an_empty_result() {
    assert_eq!(
        network_tag_values(NetworkSelector::Unsupported),
        Err(DiscoveryError::UnsupportedNetwork)
    );
    assert!(build_announcement_filter(NetworkSelector::Unsupported).is_err());
}

#[test]
fn filter_requests_both_announcement_kinds() {
    let filter = build_announcement_filter(NetworkSelector::Bitcoin).unwrap();
    assert_eq!(filter.kinds, vec![38172u16, 38173u16]);
    assert_eq!(filter.tag_letter, 'n');
    assert_eq!(filter.tag_values, strings(&["mainnet", "bitcoin"]));
}

#[test]
fn feature_numbers_parse_like_std_u16() {
    assert_eq!(parse_u16("0"), Some(0));
    assert_eq!(parse_u16("17"), Some(17));
    assert_eq!(parse_u16("+7"), Some(7));
    assert_eq!(parse_u16("007"), Some(7));
    assert_eq!(parse_u16("65535"), Some(65535));
    assert_eq!(parse_u16("65536"), None);
    assert_eq!(parse_u16(""), None);
    assert_eq!(parse_u16("+"), None);
    assert_eq!(parse_u16("x"), None);
    assert_eq!(parse_u16("1 "), None);
    assert_eq!(parse_u16("-1"), None);
}

#[test]
fn cashu_event_parses_with_all_three_tags() {
    let event = cashu_event(vec![
        tag(&["d", "mintpk"]),
        tag(&["u", "https://mint.example"]),
        tag(&["nuts", "4,7,1"]),
    ]);
    let a = parse_event_as_cashu_mint_announcement(&event).unwrap();
    assert_eq!(a.mint_pubkey, "mintpk");
    assert_eq!(a.url, "https://mint.example");
    assert_eq!(a.nuts, vec![1, 4, 7]);
}

#[test]
fn cashu_event_without_feature_tag_is_discarded() {
    let event = cashu_event(vec![tag(&["d", "mintpk"]), tag(&["u", "https://mint.example"])]);
    assert_eq!(parse_event_as_cashu_mint_announcement(&event), None);
}

#[test]
fn cashu_event_keeps_parseable_feature_entries() {
    let event = cashu_event(vec![
        tag(&["d", "mintpk"]),
        tag(&["u", "https://mint.example"]),
        tag(&["nuts", "1,x,3"]),
    ]);
    let a = parse_event_as_cashu_mint_announcement(&event).unwrap();
    assert_eq!(a.nuts, vec![1, 3]);
}

#[test]
fn cashu_event_first_tag_wins_and_last_list_value_counts() {
    let event = cashu_event(vec![
        tag(&["d", "first"]),
        tag(&["d", "second"]),
        tag(&["u", "https://a.example"]),
        tag(&["nuts", "ignored", "2,3"]),
    ]);
    let a = parse_event_as_cashu_mint_announcement(&event).unwrap();
    assert_eq!(a.mint_pubkey, "first");
    assert_eq!(a.nuts, vec![2, 3]);
}

#[test]
fn cashu_event_with_bare_tags_is_discarded() {
    // a `d` tag with no value at all
    let event = cashu_event(vec![
        tag(&["d"]),
        tag(&["u", "https://a.example"]),
        tag(&["nuts", "1"]),
    ]);
    assert_eq!(parse_event_as_cashu_mint_announcement(&event), None);
    // a `nuts` tag with no value at all
    let event = cashu_event(vec![
        tag(&["d", "pk"]),
        tag(&["u", "https://a.example"]),
        tag(&["nuts"]),
    ]);
    assert_eq!(parse_event_as_cashu_mint_announcement(&event), None);
}

#[test]
fn most_common_string_breaks_ties_by_first_to_reach_the_count() {
    assert_eq!(
        get_most_common_string(&strings(&["a", "b", "a"])),
        Some("a".to_string())
    );
    assert_eq!(get_most_common_string(&strings(&["a", "b"])), Some("a".to_string()));
    assert_eq!(
        get_most_common_string(&strings(&["b", "a", "a", "b"])),
        Some("a".to_string())
    );
    assert_eq!(get_most_common_string(&strings(&[])), None);
}

fn raw_cashu(pk: &str, url: &str, nuts: &[u16]) -> CashuAnnouncement {
    CashuAnnouncement { mint_pubkey: pk.to_string(), url: url.to_string(), nuts: nuts.to_vec() }
}

#[test]
fn cashu_aggregate_keeps_one_record_per_identity_with_feature_union() {
    let raw = vec![
        raw_cashu("id1", "https://a.example", &[1, 2]),
        raw_cashu("id2", "https://c.example", &[9]),
        raw_cashu("id1", "https://b.example", &[2, 3]),
        raw_cashu("id1", "https://a.example", &[4]),
    ];
    let merged = CashuAnnouncement::aggregate(raw);
    assert_eq!(merged.len(), 2);
    // records come in ascending identity order
    assert_eq!(merged[0].mint_pubkey, "id1");
    assert_eq!(merged[1].mint_pubkey, "id2");
    let id1 = merged.iter().find(|a| a.mint_pubkey == "id1").unwrap();
    assert_eq!(id1.url, "https://a.example");
    assert_eq!(id1.nuts, vec![1, 2, 3, 4]);
    let id2 = merged.iter().find(|a| a.mint_pubkey == "id2").unwrap();
    assert_eq!(id2.url, "https://c.example");
    assert_eq!(id2.nuts, vec![9]);
}

#[test]
fn cashu_aggregate_url_tie_goes_to_the_first_seen() {
    let raw = vec![
        raw_cashu("id1", "a", &[]),
        raw_cashu("id1", "b", &[]),
    ];
    let merged = CashuAnnouncement::aggregate(raw);
    assert_eq!(merged.len(), 1);
    assert_eq!(merged[0].url, "a");
}

#[test]
fn aggregating_nothing_yields_nothing() {
    assert_eq!(CashuAnnouncement::aggregate(Vec::new()).len(), 0);
    assert_eq!(FedimintAnnouncement::aggregate(Vec::new()).len(), 0);
}

#[test]
fn federation_id_parses_sixty_four_hex_digits() {
    let id = FederationId::parse(FED_ID_A).unwrap();
    assert_eq!(id, FederationId { w0: 0, w1: 0, w2: 0, w3: 1 });
    let id_b = FederationId::parse(FED_ID_B).unwrap();
    assert_eq!(id_b, FederationId { w0: 0, w1: 0, w2: 0, w3: 255 });
    assert_eq!(
        FederationId::parse("ABCDEF0000000000000000000000000000000000000000000000000000000000")
            .unwrap()
            .w0,
        0xabcdef0000000000,
    );
}

#[test]
fn federation_id_rejects_malformed_strings() {
    assert_eq!(FederationId::parse(""), None);
    assert_eq!(FederationId::parse(&FED_ID_A[1..]), None);
    assert_eq!(
        FederationId::parse("000000000000000000000000000000000000000000000000000000000000000g"),
        None
    );
}

#[test]
fn fedimint_event_keeps_only_parseable_invite_codes() {
    let event = fedimint_event(vec![
        tag(&["d", FED_ID_A]),
        tag(&["u", "fed1good"]),
        tag(&["u", "not-a-code"]),
        tag(&["modules", "mint,ln"]),
    ]);
    let candidates = invite_code_candidates(&event);
    assert_eq!(candidates, strings(&["fed1good", "not-a-code"]));
    // the external structured parser accepted the first and rejected the second
    let verdicts = vec![Some("fed1good".to_string()), None];
    let a = parse_event_as_fedimint_mint_announcement(&event, &verdicts).unwrap();
    assert_eq!(a.federation_id, FederationId { w0: 0, w1: 0, w2: 0, w3: 1 });
    assert_eq!(a.invite_codes, strings(&["fed1good"]));
    // module names come back in ascending order
    assert_eq!(a.modules, strings(&["ln", "mint"]));
}

#[test]
fn fedimint_event_without_modules_tag_is_discarded() {
    let event = fedimint_event(vec![tag(&["d", FED_ID_A]), tag(&["u", "fed1good"])]);
    let verdicts = vec![Some("fed1good".to_string())];
    assert_eq!(parse_event_as_fedimint_mint_announcement(&event, &verdicts), None);
}

#[test]
fn fedimint_event_with_bad_identifier_is_discarded() {
    let event = fedimint_event(vec![tag(&["d", "not-hex"]), tag(&["modules", "mint"])]);
    let verdicts: Vec<Option<String>> = Vec::new();
    assert_eq!(parse_event_as_fedimint_mint_announcement(&event, &verdicts), None);
}

#[test]
fn fedimint_event_module_names_are_verbatim_and_deduplicated() {
    let event = fedimint_event(vec![
        tag(&["d", FED_ID_A]),
        tag(&["modules", "mint, ln,mint,"]),
    ]);
    let verdicts: Vec<Option<String>> = Vec::new();
    let a = parse_event_as_fedimint_mint_announcement(&event, &verdicts).unwrap();
    // deduplicated and in ascending order: the empty piece sorts first
    assert_eq!(a.modules, strings(&["", " ln", "mint"]));
}

fn raw_fedimint(id: &str, codes: &[&str], modules: &[&str]) -> FedimintAnnouncement {
    FedimintAnnouncement {
        federation_id: FederationId::parse(id).unwrap(),
        invite_codes: strings(codes),
        modules: strings(modules),
    }
}

#[test]
fn fedimint_aggregate_unions_codes_and_modules_per_federation() {
    let raw = vec![
        raw_fedimint(FED_ID_A, &["fed1x"], &["mint"]),
        raw_fedimint(FED_ID_B, &["fed1z"], &["ln"]),
        raw_fedimint(FED_ID_A, &["fed1y", "fed1x"], &["ln", "mint"]),
    ];
    let merged = FedimintAnnouncement::aggregate(raw);
    assert_eq!(merged.len(), 2);
    // records come in ascending identifier order
    assert_eq!(merged[0].federation_id, FederationId::parse(FED_ID_A).unwrap());
    assert_eq!(merged[1].federation_id, FederationId::parse(FED_ID_B).unwrap());
    let a = merged
        .iter()
        .find(|m| m.federation_id == FederationId::parse(FED_ID_A).unwrap())
        .unwrap();
    assert_eq!(a.invite_codes, strings(&["fed1x", "fed1y"]));
    assert_eq!(a.modules, strings(&["ln", "mint"]));
    let b = merged
        .iter()
        .find(|m| m.federation_id == FederationId::parse(FED_ID_B).unwrap())
        .unwrap();
    assert_eq!(b.invite_codes, strings(&["fed1z"]));
    assert_eq!(b.modules, strings(&["ln"]));
}

#[test]
fn process_events_classifies_by_kind_and_drops_the_rest() {
    let events = vec![
        cashu_event(vec![
            tag(&["d", "pk1"]),
            tag(&["u", "https://a.example"]),
            tag(&["nuts", "1"]),
        ]),
        RelayEvent { kind: NIP87_MINT_RECOMMENDATION_KIND, tags: vec![tag(&["d", "pk1"])] },
        fedimint_event(vec![tag(&["d", FED_ID_A]), tag(&["modules", "mint"])]),
        // a Cashu event the parser discards
        cashu_event(vec![tag(&["d", "pk2"])]),
    ];
    let verdicts: Vec<Vec<Option<String>>> = vec![vec![], vec![], vec![], vec![]];
    let (cashu, fedimint) = process_events(&events, &verdicts);
    assert_eq!(cashu.len(), 1);
    assert_eq!(cashu[0].mint_pubkey, "pk1");
    assert_eq!(fedimint.len(), 1);
    assert_eq!(fedimint[0].federation_id, FederationId::parse(FED_ID_A).unwrap());
}

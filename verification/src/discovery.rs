//! Building the relay query and classifying fetched events.
//!
//! Discovery asks the relays for the two announcement kinds, scoped by the
//! single-letter network tag, then classifies each fetched event by kind and
//! parses it; events of other kinds, and events either parser discards, are
//! dropped. Fetching itself is the relay provider's job, outside this crate.

use vstd::prelude::*;

use crate::cashu::{
    cashu_event_accepted, parse_event_as_cashu_mint_announcement, spec_cashu_identity,
    spec_cashu_nuts_text, spec_cashu_url, spec_feature_set, CashuAnnouncement,
};
use crate::events::RelayEvent;
use crate::fedimint::{
    fedimint_event_accepted, parse_event_as_fedimint_mint_announcement, spec_accepted_codes,
    spec_federation_id, spec_fedimint_identity_text, spec_fedimint_modules_text,
    spec_invite_candidates, FederationId, FedimintAnnouncement,
};
use crate::network::{
    network_supported, network_tag_values, spec_network_tag_values, DiscoveryError,
    NetworkSelector,
};
use crate::text::spec_split_commas;
use crate::uniq::{sorted_unique, sorted_unique_strings, unique_strings};

verus! {

/// Event kind of a general mint recommendation; part of the announcement
/// schema but not queried by this pipeline.
pub const NIP87_MINT_RECOMMENDATION_KIND: u16 = 38000;

/// Event kind of a token-mint (Cashu) announcement.
pub const NIP87_MINT_ANNOUNCEMENT_CASHU_KIND: u16 = 38172;

/// Event kind of a federation announcement.
pub const NIP87_MINT_ANNOUNCEMENT_FEDIMINT_KIND: u16 = 38173;

/// The query a discovery pass sends: the two announcement kinds, scoped by
/// one single-letter tag restricted to the acceptable network values.
pub struct AnnouncementFilter {
    /// The event kinds requested.
    pub kinds: Vec<u16>,
    /// The single-letter tag that scopes the query.
    pub tag_letter: char,
    /// The acceptable values of the scoping tag.
    pub tag_values: Vec<String>,
}

/// Build the announcement query for `network`: exactly the two announcement
/// kinds, scoped by the lowercase `n` tag to the network's acceptable
/// values. An unsupported selector yields the typed error, never a query.
pub fn build_announcement_filter(network: NetworkSelector) -> (r: Result<
    AnnouncementFilter,
    DiscoveryError,
>)
    ensures
        network_supported(network) ==> (r matches Ok(f) && f.kinds@ == seq![
            NIP87_MINT_ANNOUNCEMENT_CASHU_KIND,
            NIP87_MINT_ANNOUNCEMENT_FEDIMINT_KIND,
        ] && f.tag_letter == 'n' && f.tag_values@.map_values(|s: String| s@)
            == spec_network_tag_values(network)),
        !network_supported(network) ==> r == Err::<AnnouncementFilter, DiscoveryError>(
            DiscoveryError::UnsupportedNetwork,
        ),
{
    let tag_values = match network_tag_values(network) {
        Ok(v) => v,
        Err(e) => {
            return Err(e);
        },
    };
    let mut kinds: Vec<u16> = Vec::new();
    kinds.push(NIP87_MINT_ANNOUNCEMENT_CASHU_KIND);
    kinds.push(NIP87_MINT_ANNOUNCEMENT_FEDIMINT_KIND);
    proof {
        assert(kinds@ =~= seq![
            NIP87_MINT_ANNOUNCEMENT_CASHU_KIND,
            NIP87_MINT_ANNOUNCEMENT_FEDIMINT_KIND,
        ]);
    }
    Ok(AnnouncementFilter { kinds, tag_letter: 'n', tag_values })
}

/// The mathematical content of a Cashu announcement.
pub struct CashuView {
    pub mint_pubkey: Seq<char>,
    pub url: Seq<char>,
    pub nuts: Set<u16>,
}

/// The mathematical content of a federation announcement.
pub struct FedimintView {
    pub federation_id: FederationId,
    pub invite_codes: Set<Seq<char>>,
    pub modules: Set<Seq<char>>,
}

/// The content of a parsed Cashu record.
pub open spec fn cashu_record_view(a: CashuAnnouncement) -> CashuView {
    CashuView { mint_pubkey: a.mint_pubkey@, url: a.url@, nuts: a.nuts@.to_set() }
}

/// The content an accepted Cashu event announces.
pub open spec fn cashu_event_view(e: RelayEvent) -> CashuView {
    CashuView {
        mint_pubkey: spec_cashu_identity(e).unwrap(),
        url: spec_cashu_url(e).unwrap(),
        nuts: spec_feature_set(spec_cashu_nuts_text(e).unwrap()),
    }
}

/// The content of a parsed federation record.
pub open spec fn fedimint_record_view(a: FedimintAnnouncement) -> FedimintView {
    FedimintView {
        federation_id: a.federation_id,
        invite_codes: a.invite_codes.deep_view().to_set(),
        modules: a.modules.deep_view().to_set(),
    }
}

/// The content an accepted federation event announces, its invite codes
/// judged by the verdicts handed in for it.
pub open spec fn fedimint_event_view(e: RelayEvent, verdicts: Vec<Option<String>>) -> FedimintView {
    FedimintView {
        federation_id: spec_federation_id(spec_fedimint_identity_text(e).unwrap()),
        invite_codes: spec_accepted_codes(verdicts@),
        modules: spec_split_commas(spec_fedimint_modules_text(e).unwrap()).to_set(),
    }
}

/// The Cashu announcements a list of events yields, in order: one per event
/// of the Cashu kind that the parser accepts.
pub open spec fn spec_cashu_results(events: Seq<RelayEvent>) -> Seq<CashuView>
    decreases events.len(),
{
    if events.len() == 0 {
        Seq::empty()
    } else {
        spec_cashu_results(events.drop_last()) + (if events.last().kind
            == NIP87_MINT_ANNOUNCEMENT_CASHU_KIND && cashu_event_accepted(events.last()) {
            seq![cashu_event_view(events.last())]
        } else {
            Seq::empty()
        })
    }
}

/// The federation announcements a list of events yields, in order: one per
/// event of the federation kind that the parser accepts.
pub open spec fn spec_fedimint_results(
    events: Seq<RelayEvent>,
    verdicts: Seq<Vec<Option<String>>>,
) -> Seq<FedimintView>
    decreases events.len(),
{
    if events.len() == 0 || verdicts.len() != events.len() {
        Seq::empty()
    } else {
        spec_fedimint_results(events.drop_last(), verdicts.drop_last()) + (if events.last().kind
            == NIP87_MINT_ANNOUNCEMENT_FEDIMINT_KIND && fedimint_event_accepted(events.last()) {
            seq![fedimint_event_view(events.last(), verdicts.last())]
        } else {
            Seq::empty()
        })
    }
}

/// Classify and parse fetched events: events of the Cashu kind go through
/// the Cashu parser, events of the federation kind through the federation
/// parser with that event's invite-code verdicts, and every other event is
/// ignored. Discarded events leave no trace in the result.
pub fn process_events(
    events: &Vec<RelayEvent>,
    invite_verdicts: &Vec<Vec<Option<String>>>,
) -> (r: (Vec<CashuAnnouncement>, Vec<FedimintAnnouncement>))
    requires
        invite_verdicts@.len() == events@.len(),
        forall|i: int|
            0 <= i < events@.len() && events@[i].kind == NIP87_MINT_ANNOUNCEMENT_FEDIMINT_KIND
                ==> (#[trigger] invite_verdicts@[i])@.len() == spec_invite_candidates(
                events@[i],
            ).len(),
    ensures
        r.0@.map_values(|a: CashuAnnouncement| cashu_record_view(a)) == spec_cashu_results(
            events@,
        ),
        r.1@.map_values(|a: FedimintAnnouncement| fedimint_record_view(a))
            == spec_fedimint_results(events@, invite_verdicts@),
        forall|j: int| 0 <= j < r.0@.len() ==> sorted_unique((#[trigger] r.0@[j]).nuts@),
        forall|j: int|
            0 <= j < r.1@.len() ==> sorted_unique_strings((#[trigger] r.1@[j]).invite_codes@)
                && unique_strings(r.1@[j].invite_codes@) && sorted_unique_strings(
                r.1@[j].modules@,
            ) && unique_strings(r.1@[j].modules@),
{
    let ghost evs = events@;
    let ghost vds = invite_verdicts@;
    let mut cashu: Vec<CashuAnnouncement> = Vec::new();
    let mut fedimint: Vec<FedimintAnnouncement> = Vec::new();
    let mut i: usize = 0;
    while i < events.len()
        invariant
            i <= evs.len(),
            evs == events@,
            vds == invite_verdicts@,
            vds.len() == evs.len(),
            forall|k: int|
                0 <= k < evs.len() && evs[k].kind == NIP87_MINT_ANNOUNCEMENT_FEDIMINT_KIND ==> (
                #[trigger] vds[k])@.len() == spec_invite_candidates(evs[k]).len(),
            cashu@.map_values(|a: CashuAnnouncement| cashu_record_view(a)) =~~= spec_cashu_results(
                evs.take(i as int),
            ),
            fedimint@.map_values(|a: FedimintAnnouncement| fedimint_record_view(a))
                =~~= spec_fedimint_results(evs.take(i as int), vds.take(i as int)),
            forall|j: int| 0 <= j < cashu@.len() ==> sorted_unique((#[trigger] cashu@[j]).nuts@),
            forall|j: int|
                0 <= j < fedimint@.len() ==> sorted_unique_strings(
                    (#[trigger] fedimint@[j]).invite_codes@,
                ) && unique_strings(fedimint@[j].invite_codes@) && sorted_unique_strings(
                    fedimint@[j].modules@,
                ) && unique_strings(fedimint@[j].modules@),
        decreases evs.len() - i,
    {
        proof {
            assert(evs.take(i + 1).drop_last() =~= evs.take(i as int));
            assert(vds.take(i + 1).drop_last() =~= vds.take(i as int));
            assert(evs.take(i + 1).last() == evs[i as int]);
            assert(vds.take(i + 1).last() == vds[i as int]);
        }
        let e = &events[i];
        if e.kind == NIP87_MINT_ANNOUNCEMENT_CASHU_KIND {
            let ghost old_map = cashu@.map_values(|a: CashuAnnouncement| cashu_record_view(a));
            match parse_event_as_cashu_mint_announcement(e) {
                Some(a) => {
                    cashu.push(a);
                    proof {
                        assert(cashu@.map_values(|a2: CashuAnnouncement| cashu_record_view(a2))
                            =~~= old_map + seq![cashu_record_view(a)]);
                        assert(cashu_record_view(a).nuts =~= cashu_event_view(evs[i as int]).nuts);
                    }
                },
                None => {},
            }
        } else if e.kind == NIP87_MINT_ANNOUNCEMENT_FEDIMINT_KIND {
            let ghost old_map = fedimint@.map_values(
                |a: FedimintAnnouncement| fedimint_record_view(a),
            );
            match parse_event_as_fedimint_mint_announcement(e, &invite_verdicts[i]) {
                Some(a) => {
                    fedimint.push(a);
                    proof {
                        assert(fedimint@.map_values(
                            |a2: FedimintAnnouncement| fedimint_record_view(a2),
                        ) =~~= old_map + seq![fedimint_record_view(a)]);
                        assert(fedimint_record_view(a).invite_codes =~= fedimint_event_view(
                            evs[i as int],
                            vds[i as int],
                        ).invite_codes);
                        assert(fedimint_record_view(a).modules =~= fedimint_event_view(
                            evs[i as int],
                            vds[i as int],
                        ).modules);
                    }
                },
                None => {},
            }
        }
        i = i + 1;
    }
    proof {
        assert(evs.take(evs.len() as int) =~= evs);
        assert(vds.take(vds.len() as int) =~= vds);
    }
    (cashu, fedimint)
}

} // verus!

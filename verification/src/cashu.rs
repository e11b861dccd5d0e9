//! Token-mint (Cashu) announcements: parsing and aggregation.
//!
//! A Cashu announcement event must carry a `d` tag with the mint's public
//! key, a `u` tag with its URL, and a `nuts` tag whose last value is a
//! comma-separated list of feature numbers. Aggregation keeps one record per
//! mint identity: the most commonly seen URL and the union of all features.

use vstd::pervasive::unreached;
use vstd::prelude::*;

use crate::events::{find_tag, spec_find_tag, spec_tag_content, spec_tag_last_value, RelayEvent};
use crate::text::{
    is_u16_string, lemma_lex_total, lemma_lex_trans, lex_less, parse_u16, spec_split_commas,
    split_commas, str_lex_less, u16_string_value,
};
use crate::uniq::{insert_sorted, lemma_take_step_to_set, sorted_unique};

verus! {

/// One token-mint announcement, raw or aggregated.
#[derive(Clone, Debug, PartialEq, Eq)]
pub struct CashuAnnouncement {
    /// Opaque public-key string identifying the mint.
    pub mint_pubkey: String,
    /// Reachable service endpoint for the mint.
    pub url: String,
    /// Supported feature numbers, strictly sorted.
    pub nuts: Vec<u16>,
}

/// The mint identity an event announces: content of its first `d` tag.
pub open spec fn spec_cashu_identity(e: RelayEvent) -> Option<Seq<char>> {
    match spec_find_tag(e.tags@, "d"@) {
        Some(t) => spec_tag_content(t),
        None => None,
    }
}

/// The mint URL an event announces: content of its first `u` tag.
pub open spec fn spec_cashu_url(e: RelayEvent) -> Option<Seq<char>> {
    match spec_find_tag(e.tags@, "u"@) {
        Some(t) => spec_tag_content(t),
        None => None,
    }
}

/// The feature list text of an event: last value of its first `nuts` tag.
pub open spec fn spec_cashu_nuts_text(e: RelayEvent) -> Option<Seq<char>> {
    match spec_find_tag(e.tags@, "nuts"@) {
        Some(t) => spec_tag_last_value(t),
        None => None,
    }
}

/// Whether an event carries all three mandatory Cashu fields.
pub open spec fn cashu_event_accepted(e: RelayEvent) -> bool {
    &&& spec_cashu_identity(e) is Some
    &&& spec_cashu_url(e) is Some
    &&& spec_cashu_nuts_text(e) is Some
}

/// The feature numbers named by a comma-separated list: the values of the
/// entries that parse; entries that do not parse are dropped.
pub open spec fn spec_feature_set(text: Seq<char>) -> Set<u16> {
    Set::new(
        |v: u16|
            exists|i: int|
                0 <= i < spec_split_commas(text).len() && is_u16_string(
                    #[trigger] spec_split_commas(text)[i],
                ) && u16_string_value(spec_split_commas(text)[i]) == v as int,
    )
}

/// The feature numbers among the first `n` pieces.
spec fn feature_set_prefix(pieces: Seq<Seq<char>>, n: int) -> Set<u16> {
    Set::new(
        |v: u16|
            exists|i: int|
                0 <= i < n && i < pieces.len() && is_u16_string(#[trigger] pieces[i])
                    && u16_string_value(pieces[i]) == v as int,
    )
}

/// Parse a comma-separated feature list into a strictly sorted vector of the
/// entries that are valid feature numbers.
fn parse_feature_list(text: &str) -> (r: Vec<u16>)
    ensures
        sorted_unique(r@),
        r@.to_set() == spec_feature_set(text@),
{
    let pieces = split_commas(text);
    let mut nuts: Vec<u16> = Vec::new();
    let mut i: usize = 0;
    while i < pieces.len()
        invariant
            i <= pieces@.len(),
            pieces.deep_view() == spec_split_commas(text@),
            sorted_unique(nuts@),
            nuts@.to_set() == feature_set_prefix(pieces.deep_view(), i as int),
        decreases pieces@.len() - i,
    {
        let ghost dv = pieces.deep_view();
        let ghost prev = nuts@.to_set();
        proof {
            assert(dv[i as int] == pieces@[i as int]@);
        }
        match parse_u16(pieces[i].as_str()) {
            Some(v) => {
                insert_sorted(&mut nuts, v);
                proof {
                    assert forall|e: u16| feature_set_prefix(dv, i + 1).contains(e) implies prev
                        .insert(v).contains(e) by {
                        let k = choose|k: int|
                            0 <= k < i + 1 && k < dv.len() && is_u16_string(#[trigger] dv[k])
                                && u16_string_value(dv[k]) == e as int;
                        if k < i {
                            assert(feature_set_prefix(dv, i as int).contains(e));
                        } else {
                            assert(e == v);
                        }
                    }
                    assert forall|e: u16| prev.insert(v).contains(e) implies feature_set_prefix(
                        dv,
                        i + 1,
                    ).contains(e) by {
                        if e == v {
                            assert(is_u16_string(dv[i as int]));
                            assert(u16_string_value(dv[i as int]) == e as int);
                        } else {
                            let k = choose|k: int|
                                0 <= k < i && k < dv.len() && is_u16_string(#[trigger] dv[k])
                                    && u16_string_value(dv[k]) == e as int;
                            assert(0 <= k < i + 1);
                        }
                    }
                    assert(nuts@.to_set() =~= feature_set_prefix(dv, i + 1));
                }
            },
            None => {
                proof {
                    assert forall|e: u16| feature_set_prefix(dv, i + 1).contains(e) implies prev
                        .contains(e) by {
                        let k = choose|k: int|
                            0 <= k < i + 1 && k < dv.len() && is_u16_string(#[trigger] dv[k])
                                && u16_string_value(dv[k]) == e as int;
                        assert(k != i);
                        assert(feature_set_prefix(dv, i as int).contains(e));
                    }
                    assert forall|e: u16| prev.contains(e) implies feature_set_prefix(
                        dv,
                        i + 1,
                    ).contains(e) by {
                        let k = choose|k: int|
                            0 <= k < i && k < dv.len() && is_u16_string(#[trigger] dv[k])
                                && u16_string_value(dv[k]) == e as int;
                        assert(0 <= k < i + 1);
                    }
                    assert(nuts@.to_set() =~= feature_set_prefix(dv, i + 1));
                }
            },
        }
        i = i + 1;
    }
    proof {
        assert(nuts@.to_set() =~= spec_feature_set(text@));
    }
    nuts
}

/// Extract a Cashu announcement from one event's tags, or signal with `None`
/// that the event is to be discarded.
pub fn parse_event_as_cashu_mint_announcement(event: &RelayEvent) -> (r: Option<
    CashuAnnouncement,
>)
    ensures
        match r {
            Some(a) => {
                &&& cashu_event_accepted(*event)
                &&& Some(a.mint_pubkey@) == spec_cashu_identity(*event)
                &&& Some(a.url@) == spec_cashu_url(*event)
                &&& sorted_unique(a.nuts@)
                &&& a.nuts@.to_set() == spec_feature_set(spec_cashu_nuts_text(*event).unwrap())
            },
            None => !cashu_event_accepted(*event),
        },
{
    let name_d = String::from_str("d");
    let name_u = String::from_str("u");
    let name_nuts = String::from_str("nuts");
    let mint_pubkey = match find_tag(&event.tags, &name_d) {
        Some(t) => match t.content() {
            Some(s) => s.clone(),
            None => {
                return None;
            },
        },
        None => {
            return None;
        },
    };
    let url = match find_tag(&event.tags, &name_u) {
        Some(t) => match t.content() {
            Some(s) => s.clone(),
            None => {
                return None;
            },
        },
        None => {
            return None;
        },
    };
    let nuts_text = match find_tag(&event.tags, &name_nuts) {
        Some(t) => match t.last_value() {
            Some(s) => s.clone(),
            None => {
                return None;
            },
        },
        None => {
            return None;
        },
    };
    let nuts = parse_feature_list(nuts_text.as_str());
    Some(CashuAnnouncement { mint_pubkey, url, nuts })
}

/// The number of occurrences of `x` among the first `n` strings of `s`.
pub open spec fn count_in_prefix(s: Seq<Seq<char>>, x: Seq<char>, n: int) -> int
    decreases n,
{
    if n <= 0 {
        0
    } else {
        count_in_prefix(s, x, n - 1) + if s[n - 1] == x {
            1int
        } else {
            0int
        }
    }
}

/// The (count, choice) pair after scanning the first `n` strings: the choice
/// changes only when a string's running count strictly exceeds the maximum
/// seen so far, so ties keep whichever string reached that count first.
pub open spec fn spec_mode_state(s: Seq<Seq<char>>, n: int) -> (int, Option<Seq<char>>)
    decreases n,
{
    if n <= 0 {
        (0, None::<Seq<char>>)
    } else {
        let prev = spec_mode_state(s, n - 1);
        let c = count_in_prefix(s, s[n - 1], n);
        if c > prev.0 {
            (c, Some(s[n - 1]))
        } else {
            prev
        }
    }
}

/// The most commonly seen string of `s`; on a tie, the one that reached the
/// winning count first.
pub open spec fn spec_most_common(s: Seq<Seq<char>>) -> Option<Seq<char>> {
    spec_mode_state(s, s.len() as int).1
}

/// Running counts are never negative.
proof fn lemma_count_in_prefix_nonneg(s: Seq<Seq<char>>, x: Seq<char>, n: int)
    ensures
        count_in_prefix(s, x, n) >= 0,
    decreases n,
{
    if n > 0 {
        lemma_count_in_prefix_nonneg(s, x, n - 1);
    }
}

/// Scanning at least one string always yields a choice.
pub proof fn lemma_most_common_nonempty(s: Seq<Seq<char>>, n: int)
    requires
        0 <= n,
    ensures
        spec_mode_state(s, n).0 >= 0,
        n > 0 ==> spec_mode_state(s, n).0 >= 1 && spec_mode_state(s, n).1 is Some,
    decreases n,
{
    if n > 0 {
        lemma_most_common_nonempty(s, n - 1);
        lemma_count_in_prefix_nonneg(s, s[n - 1], n - 1);
    }
}

/// The scan's running maximum is the true maximum: no string's count in the
/// first `n` exceeds it, and the current choice's count equals it.
proof fn lemma_mode_state_max(s: Seq<Seq<char>>, n: int, x: Seq<char>)
    requires
        0 <= n <= s.len(),
    ensures
        count_in_prefix(s, x, n) <= spec_mode_state(s, n).0,
        spec_mode_state(s, n).1 matches Some(m) ==> count_in_prefix(s, m, n) == spec_mode_state(
            s,
            n,
        ).0,
    decreases n,
{
    if n > 0 {
        lemma_mode_state_max(s, n - 1, x);
        lemma_mode_state_max(s, n - 1, s[n - 1]);
        let prev = spec_mode_state(s, n - 1);
        if prev.1 is Some {
            lemma_mode_state_max(s, n - 1, prev.1.unwrap());
        }
    }
}

/// The chosen string is a most frequently occurring one: no string of `s`
/// occurs more often than the string `spec_most_common` picks.
pub proof fn lemma_most_common_is_most_frequent(s: Seq<Seq<char>>, x: Seq<char>)
    requires
        s.len() > 0,
    ensures
        spec_most_common(s) is Some,
        count_in_prefix(s, x, s.len() as int) <= count_in_prefix(
            s,
            spec_most_common(s).unwrap(),
            s.len() as int,
        ),
{
    lemma_most_common_nonempty(s, s.len() as int);
    lemma_mode_state_max(s, s.len() as int, x);
}

/// The most commonly seen string of `strings`; ties go to the string whose
/// count reached the winning value first. `None` only for an empty input.
pub fn get_most_common_string(strings: &Vec<String>) -> (r: Option<String>)
    ensures
        match r {
            Some(u) => spec_most_common(strings.deep_view()) == Some(u@),
            None => strings@.len() == 0,
        },
{
    let ghost dv = strings.deep_view();
    let mut max_count: usize = 0;
    let mut most_common: Option<String> = None;
    let mut i: usize = 0;
    while i < strings.len()
        invariant
            i <= strings@.len(),
            dv == strings.deep_view(),
            max_count as int == spec_mode_state(dv, i as int).0,
            match most_common {
                Some(u) => spec_mode_state(dv, i as int).1 == Some(u@),
                None => spec_mode_state(dv, i as int).1 is None,
            },
        decreases strings@.len() - i,
    {
        let c = count_string_in_prefix(strings, i);
        proof {
            assert(dv[i as int] == strings@[i as int]@);
            lemma_most_common_nonempty(dv, i as int);
        }
        if c > max_count {
            max_count = c;
            most_common = Some(strings[i].clone());
        }
        i = i + 1;
    }
    proof {
        if strings@.len() > 0 {
            lemma_most_common_nonempty(dv, strings@.len() as int);
        }
    }
    most_common
}

/// Occurrences of `strings[i]` among the first `i + 1` strings.
fn count_string_in_prefix(strings: &Vec<String>, i: usize) -> (r: usize)
    requires
        i < strings@.len(),
    ensures
        r as int == count_in_prefix(strings.deep_view(), strings@[i as int]@, i + 1),
{
    let ghost dv = strings.deep_view();
    let n = strings.len();
    let mut count: usize = 0;
    let mut k: usize = 0;
    while k < i + 1
        invariant
            k <= i + 1,
            i < n == strings@.len(),
            dv == strings.deep_view(),
            count <= k,
            count as int == count_in_prefix(dv, strings@[i as int]@, k as int),
        decreases i + 1 - k,
    {
        proof {
            assert(dv[k as int] == strings@[k as int]@);
        }
        if strings[k] == strings[i] {
            count = count + 1;
        }
        k = k + 1;
    }
    count
}

/// The URLs of the announcements for identity `id`, in encounter order.
pub open spec fn spec_urls_for(list: Seq<CashuAnnouncement>, id: Seq<char>) -> Seq<Seq<char>>
    decreases list.len(),
{
    if list.len() == 0 {
        Seq::empty()
    } else {
        spec_urls_for(list.drop_last(), id) + (if list.last().mint_pubkey@ == id {
            seq![list.last().url@]
        } else {
            Seq::empty()
        })
    }
}

/// The union of the feature sets of the announcements for identity `id`.
pub open spec fn spec_nuts_for(list: Seq<CashuAnnouncement>, id: Seq<char>) -> Set<u16> {
    Set::new(
        |v: u16|
            exists|i: int|
                0 <= i < list.len() && (#[trigger] list[i]).mint_pubkey@ == id
                    && list[i].nuts@.contains(v),
    )
}

/// Whether some announcement of `list` is for identity `id`.
pub open spec fn spec_has_identity(list: Seq<CashuAnnouncement>, id: Seq<char>) -> bool {
    exists|i: int| 0 <= i < list.len() && (#[trigger] list[i]).mint_pubkey@ == id
}

/// An announcement for `id` contributes a URL, so the group is never empty.
proof fn lemma_urls_for_at(list: Seq<CashuAnnouncement>, id: Seq<char>, i: int)
    requires
        0 <= i < list.len(),
        list[i].mint_pubkey@ == id,
    ensures
        spec_urls_for(list, id).len() >= 1,
    decreases list.len(),
{
    if i < list.len() - 1 {
        assert(list.drop_last()[i] == list[i]);
        lemma_urls_for_at(list.drop_last(), id, i);
    }
}

/// Position of the first collected record whose identity is not below `id`,
/// in a sorted result.
fn cashu_insert_pos(r: &Vec<CashuAnnouncement>, id: &String) -> (pos: usize)
    ensures
        pos <= r@.len(),
        forall|k: int| 0 <= k < pos ==> lex_less((#[trigger] r@[k]).mint_pubkey@, id@),
        pos < r@.len() ==> !lex_less(r@[pos as int].mint_pubkey@, id@),
{
    let mut i: usize = 0;
    while i < r.len()
        invariant
            i <= r@.len(),
            forall|k: int| 0 <= k < i ==> lex_less((#[trigger] r@[k]).mint_pubkey@, id@),
        decreases r@.len() - i,
    {
        if !str_lex_less(r[i].mint_pubkey.as_str(), id.as_str()) {
            return i;
        }
        i = i + 1;
    }
    i
}

/// Whether some collected record is already for identity `id`.
fn result_contains_identity(r: &Vec<CashuAnnouncement>, id: &String) -> (b: bool)
    ensures
        b == spec_has_identity(r@, id@),
{
    let mut j: usize = 0;
    while j < r.len()
        invariant
            j <= r@.len(),
            forall|k: int| 0 <= k < j ==> (#[trigger] r@[k]).mint_pubkey@ != id@,
        decreases r@.len() - j,
    {
        if r[j].mint_pubkey == *id {
            return true;
        }
        j = j + 1;
    }
    false
}

impl CashuAnnouncement {
    /// Merge and deduplicate announcements so that exactly one record remains
    /// per mint pubkey, holding the most commonly seen URL and every feature
    /// number seen in any announcement for that mint.
    pub fn aggregate(announcements: Vec<CashuAnnouncement>) -> (r: Vec<CashuAnnouncement>)
        ensures
            forall|j: int, k: int|
                0 <= j < k < r@.len() ==> lex_less(
                    (#[trigger] r@[j]).mint_pubkey@,
                    (#[trigger] r@[k]).mint_pubkey@,
                ),
            forall|j: int, k: int|
                0 <= j < k < r@.len() ==> (#[trigger] r@[j]).mint_pubkey@ != (
                #[trigger] r@[k]).mint_pubkey@,
            forall|id: Seq<char>|
                #![trigger spec_has_identity(r@, id)]
                #![trigger spec_has_identity(announcements@, id)]
                spec_has_identity(r@, id) <==> spec_has_identity(announcements@, id),
            forall|j: int|
                0 <= j < r@.len() ==> Some((#[trigger] r@[j]).url@) == spec_most_common(
                    spec_urls_for(announcements@, r@[j].mint_pubkey@),
                ),
            forall|j: int|
                0 <= j < r@.len() ==> sorted_unique((#[trigger] r@[j]).nuts@) && r@[j].nuts@.to_set()
                    == spec_nuts_for(announcements@, r@[j].mint_pubkey@),
            announcements@.len() == 0 ==> r@.len() == 0,
    {
        let ghost all = announcements@;
        let mut result: Vec<CashuAnnouncement> = Vec::new();
        let mut i: usize = 0;
        while i < announcements.len()
            invariant
                i <= all.len(),
                all == announcements@,
                forall|j: int, k: int|
                    0 <= j < k < result@.len() ==> lex_less(
                        (#[trigger] result@[j]).mint_pubkey@,
                        (#[trigger] result@[k]).mint_pubkey@,
                    ),
                forall|j: int, k: int|
                    0 <= j < k < result@.len() ==> (#[trigger] result@[j]).mint_pubkey@ != (
                    #[trigger] result@[k]).mint_pubkey@,
                forall|j: int|
                    0 <= j < result@.len() ==> spec_has_identity(
                        all,
                        (#[trigger] result@[j]).mint_pubkey@,
                    ),
                forall|id: Seq<char>|
                    #![trigger spec_has_identity(all.take(i as int), id)]
                    spec_has_identity(all.take(i as int), id) ==> spec_has_identity(result@, id),
                forall|j: int|
                    0 <= j < result@.len() ==> Some((#[trigger] result@[j]).url@)
                        == spec_most_common(spec_urls_for(all, result@[j].mint_pubkey@)),
                forall|j: int|
                    0 <= j < result@.len() ==> sorted_unique((#[trigger] result@[j]).nuts@)
                        && result@[j].nuts@.to_set() == spec_nuts_for(
                        all,
                        result@[j].mint_pubkey@,
                    ),
            decreases all.len() - i,
        {
            let id = announcements[i].mint_pubkey.clone();
            let seen = result_contains_identity(&result, &id);
            if !seen {
                // URLs of this identity's group, in encounter order
                let mut urls: Vec<String> = Vec::new();
                let mut k: usize = 0;
                while k < announcements.len()
                    invariant
                        k <= all.len(),
                        i < all.len(),
                        all == announcements@,
                        id@ == all[i as int].mint_pubkey@,
                        urls.deep_view() =~~= spec_urls_for(all.take(k as int), id@),
                    decreases all.len() - k,
                {
                    proof {
                        assert(all.take(k + 1).drop_last() =~= all.take(k as int));
                        assert(all.take(k + 1).last() == all[k as int]);
                    }
                    if announcements[k].mint_pubkey == id {
                        let ghost old_dv = urls.deep_view();
                        urls.push(announcements[k].url.clone());
                        proof {
                            assert(urls.deep_view() =~~= old_dv + seq![all[k as int].url@]);
                        }
                    }
                    k = k + 1;
                }
                proof {
                    assert(all.take(all.len() as int) =~= all);
                    lemma_urls_for_at(all, id@, i as int);
                }
                let url = match get_most_common_string(&urls) {
                    Some(u) => u,
                    None => unreached(),
                };
                // union of the group's feature sets
                let mut nuts: Vec<u16> = Vec::new();
                let mut k2: usize = 0;
                while k2 < announcements.len()
                    invariant
                        k2 <= all.len(),
                        i < all.len(),
                        all == announcements@,
                        id@ == all[i as int].mint_pubkey@,
                        sorted_unique(nuts@),
                        nuts@.to_set() == spec_nuts_for(all.take(k2 as int), id@),
                    decreases all.len() - k2,
                {
                    let ghost before = nuts@.to_set();
                    if announcements[k2].mint_pubkey == id {
                        let mut m: usize = 0;
                        while m < announcements[k2].nuts.len()
                            invariant
                                k2 < all.len(),
                                all == announcements@,
                                m <= all[k2 as int].nuts@.len(),
                                sorted_unique(nuts@),
                                nuts@.to_set() == before.union(
                                    all[k2 as int].nuts@.take(m as int).to_set(),
                                ),
                                before == spec_nuts_for(all.take(k2 as int), id@),
                            decreases all[k2 as int].nuts@.len() - m,
                        {
                            let v = announcements[k2].nuts[m];
                            insert_sorted(&mut nuts, v);
                            proof {
                                lemma_take_step_to_set(all[k2 as int].nuts@, m as int);
                                assert(nuts@.to_set() =~= before.union(
                                    all[k2 as int].nuts@.take(m + 1).to_set(),
                                ));
                            }
                            m = m + 1;
                        }
                        proof {
                            assert(all[k2 as int].nuts@.take(all[k2 as int].nuts@.len() as int)
                                =~= all[k2 as int].nuts@);
                            assert forall|e: u16| spec_nuts_for(all.take(k2 + 1), id@).contains(
                                e,
                            ) implies nuts@.to_set().contains(e) by {
                                let x = choose|x: int|
                                    0 <= x < all.take(k2 + 1).len() && (#[trigger] all.take(
                                        k2 + 1,
                                    )[x]).mint_pubkey@ == id@ && all.take(k2 + 1)[x].nuts@.contains(
                                        e,
                                    );
                                if x < k2 {
                                    assert(all.take(k2 as int)[x] == all[x]);
                                    assert(spec_nuts_for(all.take(k2 as int), id@).contains(e));
                                } else {
                                    assert(all[k2 as int].nuts@.to_set().contains(e));
                                }
                            }
                            assert forall|e: u16| nuts@.to_set().contains(e) implies spec_nuts_for(
                                all.take(k2 + 1),
                                id@,
                            ).contains(e) by {
                                if before.contains(e) {
                                    let x = choose|x: int|
                                        0 <= x < all.take(k2 as int).len() && (#[trigger] all.take(
                                            k2 as int,
                                        )[x]).mint_pubkey@ == id@ && all.take(
                                            k2 as int,
                                        )[x].nuts@.contains(e);
                                    assert(all.take(k2 + 1)[x] == all[x]);
                                } else {
                                    assert(all.take(k2 + 1)[k2 as int] == all[k2 as int]);
                                }
                            }
                            assert(nuts@.to_set() =~= spec_nuts_for(all.take(k2 + 1), id@));
                        }
                    } else {
                        proof {
                            assert forall|e: u16| spec_nuts_for(all.take(k2 + 1), id@).contains(
                                e,
                            ) implies before.contains(e) by {
                                let x = choose|x: int|
                                    0 <= x < all.take(k2 + 1).len() && (#[trigger] all.take(
                                        k2 + 1,
                                    )[x]).mint_pubkey@ == id@ && all.take(k2 + 1)[x].nuts@.contains(
                                        e,
                                    );
                                assert(x != k2);
                                assert(all.take(k2 as int)[x] == all[x]);
                                assert(spec_nuts_for(all.take(k2 as int), id@).contains(e));
                            }
                            assert forall|e: u16| before.contains(e) implies spec_nuts_for(
                                all.take(k2 + 1),
                                id@,
                            ).contains(e) by {
                                let x = choose|x: int|
                                    0 <= x < all.take(k2 as int).len() && (#[trigger] all.take(
                                        k2 as int,
                                    )[x]).mint_pubkey@ == id@ && all.take(
                                        k2 as int,
                                    )[x].nuts@.contains(e);
                                assert(all.take(k2 + 1)[x] == all[x]);
                            }
                            assert(nuts@.to_set() =~= spec_nuts_for(all.take(k2 + 1), id@));
                        }
                    }
                    k2 = k2 + 1;
                }
                proof {
                    assert(all.take(all.len() as int) =~= all);
                }
                let pos = cashu_insert_pos(&result, &id);
                let merged = CashuAnnouncement { mint_pubkey: id, url, nuts };
                let ghost old_res = result@;
                result.insert(pos, merged);
                proof {
                    assert forall|k: int| 0 <= k < result@.len() implies result@[k] == (if k
                        < pos {
                        old_res[k]
                    } else if k == pos {
                        merged
                    } else {
                        old_res[k - 1]
                    }) by {}
                    assert forall|y: int| 0 <= y < old_res.len() implies (
                    #[trigger] old_res[y]).mint_pubkey@ != id@ by {
                        if old_res[y].mint_pubkey@ == id@ {
                            assert(spec_has_identity(old_res, id@));
                        }
                    }
                    assert forall|j2: int, k2: int| 0 <= j2 < k2 < result@.len() implies lex_less(
                        (#[trigger] result@[j2]).mint_pubkey@,
                        (#[trigger] result@[k2]).mint_pubkey@,
                    ) by {
                        if j2 == pos && k2 > pos {
                            assert(!lex_less(old_res[pos as int].mint_pubkey@, id@));
                            assert(old_res[pos as int].mint_pubkey@ != id@);
                            lemma_lex_total(old_res[pos as int].mint_pubkey@, id@);
                            assert(lex_less(id@, old_res[pos as int].mint_pubkey@));
                            if k2 - 1 > pos {
                                assert(lex_less(
                                    old_res[pos as int].mint_pubkey@,
                                    old_res[k2 - 1].mint_pubkey@,
                                ));
                                lemma_lex_trans(
                                    id@,
                                    old_res[pos as int].mint_pubkey@,
                                    old_res[k2 - 1].mint_pubkey@,
                                );
                            }
                        }
                    }
                    assert forall|j2: int, k2: int| 0 <= j2 < k2 < result@.len() implies (
                    #[trigger] result@[j2]).mint_pubkey@ != (
                    #[trigger] result@[k2]).mint_pubkey@ by {
                        assert(lex_less(result@[j2].mint_pubkey@, result@[k2].mint_pubkey@));
                        lemma_lex_total(result@[j2].mint_pubkey@, result@[k2].mint_pubkey@);
                    }
                    assert(all.take(i + 1).drop_last() =~= all.take(i as int));
                    assert(all.take(i + 1).last() == all[i as int]);
                    assert forall|id2: Seq<char>| spec_has_identity(
                        all.take(i + 1),
                        id2,
                    ) implies spec_has_identity(result@, id2) by {
                        let x = choose|x: int|
                            0 <= x < all.take(i + 1).len() && (#[trigger] all.take(
                                i + 1,
                            )[x]).mint_pubkey@ == id2;
                        if x < i {
                            assert(all.take(i as int)[x] == all[x]);
                            assert(spec_has_identity(all.take(i as int), id2));
                            let y = choose|y: int|
                                0 <= y < old_res.len() && (#[trigger] old_res[y]).mint_pubkey@
                                    == id2;
                            if y < pos {
                                assert(result@[y] == old_res[y]);
                                assert(result@[y].mint_pubkey@ == id2);
                            } else {
                                assert(result@[y + 1] == old_res[y]);
                                assert(result@[y + 1].mint_pubkey@ == id2);
                            }
                        } else {
                            assert(result@[pos as int].mint_pubkey@ == id2);
                        }
                    }
                    assert forall|j2: int| 0 <= j2 < result@.len() implies spec_has_identity(
                        all,
                        (#[trigger] result@[j2]).mint_pubkey@,
                    ) by {
                        if j2 < pos {
                            assert(result@[j2] == old_res[j2]);
                        } else if j2 == pos {
                            assert(all[i as int].mint_pubkey@ == id@);
                            assert(spec_has_identity(all, id@));
                        } else {
                            assert(result@[j2] == old_res[j2 - 1]);
                        }
                    }
                    assert forall|j2: int| 0 <= j2 < result@.len() implies Some(
                        (#[trigger] result@[j2]).url@,
                    ) == spec_most_common(spec_urls_for(all, result@[j2].mint_pubkey@)) by {
                        if j2 < pos {
                            assert(result@[j2] == old_res[j2]);
                        } else if j2 > pos {
                            assert(result@[j2] == old_res[j2 - 1]);
                        }
                    }
                    assert forall|j2: int| 0 <= j2 < result@.len() implies sorted_unique(
                        (#[trigger] result@[j2]).nuts@,
                    ) && result@[j2].nuts@.to_set() == spec_nuts_for(
                        all,
                        result@[j2].mint_pubkey@,
                    ) by {
                        if j2 < pos {
                            assert(result@[j2] == old_res[j2]);
                        } else if j2 > pos {
                            assert(result@[j2] == old_res[j2 - 1]);
                        }
                    }
                }
            } else {
                proof {
                    assert forall|id2: Seq<char>| spec_has_identity(
                        all.take(i + 1),
                        id2,
                    ) implies spec_has_identity(result@, id2) by {
                        let x = choose|x: int|
                            0 <= x < all.take(i + 1).len() && (#[trigger] all.take(
                                i + 1,
                            )[x]).mint_pubkey@ == id2;
                        if x < i {
                            assert(all.take(i as int)[x] == all[x]);
                            assert(spec_has_identity(all.take(i as int), id2));
                        } else {
                            assert(id2 == id@);
                        }
                    }
                }
            }
            i = i + 1;
        }
        proof {
            assert(all.take(all.len() as int) =~= all);
            assert forall|id2: Seq<char>| spec_has_identity(result@, id2) implies spec_has_identity(
                all,
                id2,
            ) by {
                let y = choose|y: int|
                    0 <= y < result@.len() && (#[trigger] result@[y]).mint_pubkey@ == id2;
            }
            if all.len() == 0 && result@.len() > 0 {
                assert(spec_has_identity(all, result@[0].mint_pubkey@));
                assert(false);
            }
        }
        result
    }
}

} // verus!

//! Federation announcements: identifiers, parsing and aggregation.
//!
//! A federation announcement event must carry a `d` tag whose content parses
//! as a federation identifier (64 hexadecimal digits) and a `modules` tag
//! whose last value is a comma-separated list of module names taken verbatim.
//! Each `u` tag offers one invite-code candidate; candidates are judged by an
//! external structured parser, and the caller hands its verdicts in — `None`
//! drops the single candidate, never the event.

use vstd::prelude::*;

use crate::events::{find_tag, spec_find_tag, spec_tag_content, spec_tag_last_value, spec_tag_values, tag_values, RelayEvent};
use crate::text::{spec_split_commas, split_commas};
use crate::uniq::{insert_sorted_string, lemma_take_step_to_set, sorted_unique_strings, unique_strings};

verus! {

/// A federation identifier: a fixed 256-bit value, held as four words,
/// written as 64 hexadecimal digits.
#[derive(Clone, Copy, Debug, PartialEq, Eq, Structural, PartialOrd, Ord, Hash)]
pub struct FederationId {
    pub w0: u64,
    pub w1: u64,
    pub w2: u64,
    pub w3: u64,
}

/// Whether `c` is a hexadecimal digit, either case.
pub open spec fn is_hex_digit(c: char) -> bool {
    ('0' <= c && c <= '9') || ('a' <= c && c <= 'f') || ('A' <= c && c <= 'F')
}

/// The numeric value of a hexadecimal digit.
pub open spec fn hex_digit_value(c: char) -> int {
    if '0' <= c && c <= '9' {
        c as int - '0' as int
    } else if 'a' <= c && c <= 'f' {
        c as int - 'a' as int + 10
    } else {
        c as int - 'A' as int + 10
    }
}

/// The numeric value of a sequence of hexadecimal digits.
pub open spec fn hex_value(s: Seq<char>) -> int
    decreases s.len(),
{
    if s.len() == 0 {
        0
    } else {
        hex_value(s.drop_last()) * 16 + hex_digit_value(s.last())
    }
}

/// Whether `s` is a well-formed federation identifier string.
pub open spec fn is_federation_id_string(s: Seq<char>) -> bool {
    s.len() == 64 && forall|i: int| 0 <= i < 64 ==> is_hex_digit(#[trigger] s[i])
}

/// The identifier a well-formed string denotes, word by word.
pub open spec fn spec_federation_id(s: Seq<char>) -> FederationId {
    FederationId {
        w0: hex_value(s.subrange(0, 16)) as u64,
        w1: hex_value(s.subrange(16, 32)) as u64,
        w2: hex_value(s.subrange(32, 48)) as u64,
        w3: hex_value(s.subrange(48, 64)) as u64,
    }
}

/// Sixteen to the `n`th power.
spec fn pow16(n: nat) -> int
    decreases n,
{
    if n == 0 {
        1
    } else {
        16 * pow16((n - 1) as nat)
    }
}

/// Powers of sixteen are positive.
proof fn lemma_pow16_pos(n: nat)
    ensures
        pow16(n) >= 1,
    decreases n,
{
    if n > 0 {
        lemma_pow16_pos((n - 1) as nat);
    }
}

/// Powers of sixteen grow with the exponent.
proof fn lemma_pow16_mono(a: nat, b: nat)
    requires
        a <= b,
    ensures
        pow16(a) <= pow16(b),
    decreases b,
{
    if a < b {
        lemma_pow16_mono(a, (b - 1) as nat);
        lemma_pow16_pos((b - 1) as nat);
    }
}

/// Sixteen hex digits fill one 64-bit word exactly.
proof fn lemma_pow16_sixteen()
    ensures
        pow16(15) == 0x1000000000000000,
        pow16(16) == 0x10000000000000000,
{
    assert(pow16(0) == 1);
    assert(pow16(1) == 16);
    assert(pow16(2) == 0x100);
    assert(pow16(3) == 0x1000);
    assert(pow16(4) == 0x10000);
    assert(pow16(5) == 0x100000);
    assert(pow16(6) == 0x1000000);
    assert(pow16(7) == 0x10000000);
    assert(pow16(8) == 0x100000000);
    assert(pow16(9) == 0x1000000000);
    assert(pow16(10) == 0x10000000000);
    assert(pow16(11) == 0x100000000000);
    assert(pow16(12) == 0x1000000000000);
    assert(pow16(13) == 0x10000000000000);
    assert(pow16(14) == 0x100000000000000);
    assert(pow16(15) == 0x1000000000000000);
}

/// The value of a hexadecimal digit character, or `None`.
fn hex_digit_of(c: char) -> (r: Option<u8>)
    ensures
        match r {
            Some(v) => is_hex_digit(c) && v < 16 && v as int == hex_digit_value(c),
            None => !is_hex_digit(c),
        },
{
    if '0' <= c && c <= '9' {
        Some(((c as u32) - 48) as u8)
    } else if 'a' <= c && c <= 'f' {
        Some(((c as u32) - 97 + 10) as u8)
    } else if 'A' <= c && c <= 'F' {
        Some(((c as u32) - 65 + 10) as u8)
    } else {
        None
    }
}

/// One 64-bit word read from sixteen hex digits of `s` at `start`.
fn parse_hex_word(s: &str, start: usize) -> (r: Option<u64>)
    requires
        s@.len() == 64,
        start + 16 <= 64,
    ensures
        match r {
            Some(v) => (forall|i: int|
                start <= i < start + 16 ==> is_hex_digit(#[trigger] s@[i])) && v as int
                == hex_value(s@.subrange(start as int, start as int + 16)),
            None => !(forall|i: int| start <= i < start + 16 ==> is_hex_digit(#[trigger] s@[i])),
        },
{
    let ghost digits = s@.subrange(start as int, start as int + 16);
    let mut value: u64 = 0;
    let mut j: usize = 0;
    while j < 16
        invariant
            j <= 16,
            s@.len() == 64,
            start + 16 <= 64,
            digits == s@.subrange(start as int, start as int + 16),
            forall|i: int| start <= i < start + j ==> is_hex_digit(#[trigger] s@[i]),
            value as int == hex_value(s@.subrange(start as int, start as int + j)),
            (value as int) < pow16(j as nat),
        decreases 16 - j,
    {
        let c = s.get_char(start + j);
        match hex_digit_of(c) {
            Some(d) => {
                proof {
                    let prefix = s@.subrange(start as int, start as int + j);
                    let next = s@.subrange(start as int, start as int + j + 1);
                    assert(next.drop_last() =~= prefix);
                    assert(next.last() == s@[start as int + j]);
                    lemma_pow16_sixteen();
                    lemma_pow16_mono(j as nat, 15);
                    assert(pow16((j + 1) as nat) == 16 * pow16(j as nat));
                }
                value = value * 16 + (d as u64);
            },
            None => {
                return None;
            },
        }
        j = j + 1;
    }
    proof {
        assert(s@.subrange(start as int, start as int + 16) =~= digits);
    }
    Some(value)
}

impl FederationId {
    /// Parse a federation identifier: exactly 64 hexadecimal digits, either
    /// case; anything else yields `None`.
    pub fn parse(s: &str) -> (r: Option<FederationId>)
        ensures
            match r {
                Some(f) => is_federation_id_string(s@) && f == spec_federation_id(s@),
                None => !is_federation_id_string(s@),
            },
    {
        if s.unicode_len() != 64 {
            return None;
        }
        let w0 = match parse_hex_word(s, 0) {
            Some(v) => v,
            None => {
                return None;
            },
        };
        let w1 = match parse_hex_word(s, 16) {
            Some(v) => v,
            None => {
                return None;
            },
        };
        let w2 = match parse_hex_word(s, 32) {
            Some(v) => v,
            None => {
                return None;
            },
        };
        let w3 = match parse_hex_word(s, 48) {
            Some(v) => v,
            None => {
                return None;
            },
        };
        Some(FederationId { w0, w1, w2, w3 })
    }
}

/// One federation announcement, raw or aggregated.
#[derive(Clone, Debug, PartialEq, Eq)]
pub struct FedimintAnnouncement {
    /// The federation the event announces.
    pub federation_id: FederationId,
    /// Accepted invite codes, pairwise distinct, in first-seen order.
    pub invite_codes: Vec<String>,
    /// Module names, pairwise distinct, in first-seen order.
    pub modules: Vec<String>,
}

/// The identifier text an event announces: content of its first `d` tag.
pub open spec fn spec_fedimint_identity_text(e: RelayEvent) -> Option<Seq<char>> {
    match spec_find_tag(e.tags@, "d"@) {
        Some(t) => spec_tag_content(t),
        None => None,
    }
}

/// The module list text of an event: last value of its first `modules` tag.
pub open spec fn spec_fedimint_modules_text(e: RelayEvent) -> Option<Seq<char>> {
    match spec_find_tag(e.tags@, "modules"@) {
        Some(t) => spec_tag_last_value(t),
        None => None,
    }
}

/// Whether an event carries a parseable federation identifier and a module
/// list. Invite codes never decide acceptance.
pub open spec fn fedimint_event_accepted(e: RelayEvent) -> bool {
    &&& spec_fedimint_identity_text(e) is Some
    &&& is_federation_id_string(spec_fedimint_identity_text(e).unwrap())
    &&& spec_fedimint_modules_text(e) is Some
}

/// The invite-code candidates of an event: the last values of its `u` tags.
pub open spec fn spec_invite_candidates(e: RelayEvent) -> Seq<Seq<char>> {
    spec_tag_values(e.tags@, "u"@)
}

/// The invite-code candidates of an event, for the caller to judge with the
/// external structured parser.
pub fn invite_code_candidates(event: &RelayEvent) -> (r: Vec<String>)
    ensures
        r.deep_view() == spec_invite_candidates(*event),
{
    let name_u = String::from_str("u");
    tag_values(&event.tags, &name_u)
}

/// The canonical codes among the verdicts: every `Some` value.
pub open spec fn spec_accepted_codes(verdicts: Seq<Option<String>>) -> Set<Seq<char>> {
    Set::new(
        |c: Seq<char>|
            exists|i: int|
                0 <= i < verdicts.len() && ((#[trigger] verdicts[i]) matches Some(s) && s@
                    == c),
    )
}

/// The accepted codes among the first `n` verdicts.
spec fn accepted_codes_prefix(verdicts: Seq<Option<String>>, n: int) -> Set<Seq<char>> {
    Set::new(
        |c: Seq<char>|
            exists|i: int|
                0 <= i < n && i < verdicts.len() && ((#[trigger] verdicts[i]) matches Some(s)
                    && s@ == c),
    )
}

/// Extract a federation announcement from one event's tags, or signal with
/// `None` that the event is to be discarded. `invite_verdicts[i]` is the
/// external invite-code parser's verdict on the event's `i`th candidate: the
/// canonical code if it parsed, `None` if not.
pub fn parse_event_as_fedimint_mint_announcement(
    event: &RelayEvent,
    invite_verdicts: &Vec<Option<String>>,
) -> (r: Option<FedimintAnnouncement>)
    requires
        invite_verdicts@.len() == spec_invite_candidates(*event).len(),
    ensures
        match r {
            Some(a) => {
                &&& fedimint_event_accepted(*event)
                &&& a.federation_id == spec_federation_id(
                    spec_fedimint_identity_text(*event).unwrap(),
                )
                &&& sorted_unique_strings(a.invite_codes@)
                &&& unique_strings(a.invite_codes@)
                &&& a.invite_codes.deep_view().to_set() == spec_accepted_codes(invite_verdicts@)
                &&& sorted_unique_strings(a.modules@)
                &&& unique_strings(a.modules@)
                &&& a.modules.deep_view().to_set() == spec_split_commas(
                    spec_fedimint_modules_text(*event).unwrap(),
                ).to_set()
            },
            None => !fedimint_event_accepted(*event),
        },
{
    let name_d = String::from_str("d");
    let name_modules = String::from_str("modules");
    let id_text = match find_tag(&event.tags, &name_d) {
        Some(t) => match t.content() {
            Some(s) => s.clone(),
            None => {
                return None;
            },
        },
        None => {
            return None;
        },
    };
    let federation_id = match FederationId::parse(id_text.as_str()) {
        Some(f) => f,
        None => {
            return None;
        },
    };
    let mut invite_codes: Vec<String> = Vec::new();
    let mut i: usize = 0;
    while i < invite_verdicts.len()
        invariant
            i <= invite_verdicts@.len(),
            sorted_unique_strings(invite_codes@),
            unique_strings(invite_codes@),
            invite_codes.deep_view().to_set() == accepted_codes_prefix(
                invite_verdicts@,
                i as int,
            ),
        decreases invite_verdicts@.len() - i,
    {
        let ghost before = invite_codes.deep_view().to_set();
        match &invite_verdicts[i] {
            Some(code) => {
                insert_sorted_string(&mut invite_codes, code);
                proof {
                    assert forall|c: Seq<char>| accepted_codes_prefix(
                        invite_verdicts@,
                        i + 1,
                    ).contains(c) implies before.insert(code@).contains(c) by {
                        let k = choose|k: int|
                            0 <= k < i + 1 && k < invite_verdicts@.len() && ((
                            #[trigger] invite_verdicts@[k]) matches Some(s) && s@ == c);
                        if k < i {
                            assert(accepted_codes_prefix(invite_verdicts@, i as int).contains(c));
                        }
                    }
                    assert forall|c: Seq<char>| before.insert(code@).contains(
                        c,
                    ) implies accepted_codes_prefix(invite_verdicts@, i + 1).contains(c) by {
                        if c == code@ {
                            assert((#[trigger] invite_verdicts@[i as int]) matches Some(s) && s@
                                == c);
                        } else {
                            let k = choose|k: int|
                                0 <= k < i && k < invite_verdicts@.len() && ((
                                #[trigger] invite_verdicts@[k]) matches Some(s) && s@ == c);
                        }
                    }
                    assert(invite_codes.deep_view().to_set() =~= accepted_codes_prefix(
                        invite_verdicts@,
                        i + 1,
                    ));
                }
            },
            None => {
                proof {
                    assert forall|c: Seq<char>| accepted_codes_prefix(
                        invite_verdicts@,
                        i + 1,
                    ).contains(c) implies before.contains(c) by {
                        let k = choose|k: int|
                            0 <= k < i + 1 && k < invite_verdicts@.len() && ((
                            #[trigger] invite_verdicts@[k]) matches Some(s) && s@ == c);
                        assert(k != i);
                        assert(accepted_codes_prefix(invite_verdicts@, i as int).contains(c));
                    }
                    assert forall|c: Seq<char>| before.contains(c) implies accepted_codes_prefix(
                        invite_verdicts@,
                        i + 1,
                    ).contains(c) by {
                        let k = choose|k: int|
                            0 <= k < i && k < invite_verdicts@.len() && ((
                            #[trigger] invite_verdicts@[k]) matches Some(s) && s@ == c);
                    }
                    assert(invite_codes.deep_view().to_set() =~= accepted_codes_prefix(
                        invite_verdicts@,
                        i + 1,
                    ));
                }
            },
        }
        i = i + 1;
    }
    proof {
        assert(invite_codes.deep_view().to_set() =~= spec_accepted_codes(invite_verdicts@));
    }
    let modules_text = match find_tag(&event.tags, &name_modules) {
        Some(t) => match t.last_value() {
            Some(s) => s.clone(),
            None => {
                return None;
            },
        },
        None => {
            return None;
        },
    };
    let pieces = split_commas(modules_text.as_str());
    let mut modules: Vec<String> = Vec::new();
    let mut j: usize = 0;
    while j < pieces.len()
        invariant
            j <= pieces@.len(),
            pieces.deep_view() == spec_split_commas(modules_text@),
            sorted_unique_strings(modules@),
            unique_strings(modules@),
            modules.deep_view().to_set() == pieces.deep_view().take(j as int).to_set(),
        decreases pieces@.len() - j,
    {
        let ghost before = modules.deep_view().to_set();
        let ghost dv = pieces.deep_view();
        insert_sorted_string(&mut modules, &pieces[j]);
        proof {
            assert(dv[j as int] == pieces@[j as int]@);
            lemma_take_step_to_set(dv, j as int);
            assert(modules.deep_view().to_set() =~= dv.take(j + 1).to_set());
        }
        j = j + 1;
    }
    proof {
        assert(pieces.deep_view().take(pieces.deep_view().len() as int) =~= pieces.deep_view());
    }
    Some(FedimintAnnouncement { federation_id, invite_codes, modules })
}

/// Whether some announcement of `list` is for federation `fid`.
pub open spec fn spec_has_federation(list: Seq<FedimintAnnouncement>, fid: FederationId) -> bool {
    exists|i: int| 0 <= i < list.len() && (#[trigger] list[i]).federation_id == fid
}

/// The union of the invite-code sets of the announcements for `fid`.
pub open spec fn spec_invites_for(list: Seq<FedimintAnnouncement>, fid: FederationId) -> Set<
    Seq<char>,
> {
    Set::new(
        |c: Seq<char>|
            exists|i: int|
                0 <= i < list.len() && (#[trigger] list[i]).federation_id == fid
                    && list[i].invite_codes.deep_view().contains(c),
    )
}

/// The union of the module-name sets of the announcements for `fid`.
pub open spec fn spec_modules_for(list: Seq<FedimintAnnouncement>, fid: FederationId) -> Set<
    Seq<char>,
> {
    Set::new(
        |c: Seq<char>|
            exists|i: int|
                0 <= i < list.len() && (#[trigger] list[i]).federation_id == fid
                    && list[i].modules.deep_view().contains(c),
    )
}

/// Strict order on federation identifiers: by words, most significant
/// first — the order of their 64-digit hexadecimal form.
pub open spec fn fed_id_less(a: FederationId, b: FederationId) -> bool {
    if a.w0 != b.w0 {
        a.w0 < b.w0
    } else if a.w1 != b.w1 {
        a.w1 < b.w1
    } else if a.w2 != b.w2 {
        a.w2 < b.w2
    } else {
        a.w3 < b.w3
    }
}

/// Whether `a` comes strictly before `b` in identifier order.
fn federation_id_less(a: FederationId, b: FederationId) -> (r: bool)
    ensures
        r == fed_id_less(a, b),
{
    if a.w0 != b.w0 {
        a.w0 < b.w0
    } else if a.w1 != b.w1 {
        a.w1 < b.w1
    } else if a.w2 != b.w2 {
        a.w2 < b.w2
    } else {
        a.w3 < b.w3
    }
}

/// Position of the first collected record whose federation is not below
/// `fid`, in a sorted result.
fn fed_insert_pos(r: &Vec<FedimintAnnouncement>, fid: FederationId) -> (pos: usize)
    ensures
        pos <= r@.len(),
        forall|k: int| 0 <= k < pos ==> fed_id_less((#[trigger] r@[k]).federation_id, fid),
        pos < r@.len() ==> !fed_id_less(r@[pos as int].federation_id, fid),
{
    let mut i: usize = 0;
    while i < r.len()
        invariant
            i <= r@.len(),
            forall|k: int| 0 <= k < i ==> fed_id_less((#[trigger] r@[k]).federation_id, fid),
        decreases r@.len() - i,
    {
        if !federation_id_less(r[i].federation_id, fid) {
            return i;
        }
        i = i + 1;
    }
    i
}

/// The federation merge is blind to announcement order: lists that hold the
/// same announcements, however arranged, describe the same federations with
/// the same invite codes and the same modules — so, with the merged records
/// in identifier order and their fields in lexicographic order, aggregation
/// gives permuted inputs identical results.
pub proof fn lemma_fedimint_merge_order_blind(
    xs: Seq<FedimintAnnouncement>,
    ys: Seq<FedimintAnnouncement>,
)
    requires
        xs.to_multiset() == ys.to_multiset(),
    ensures
        forall|fid: FederationId| #[trigger]
            spec_has_federation(xs, fid) <==> #[trigger] spec_has_federation(ys, fid),
        forall|fid: FederationId| #[trigger]
            spec_invites_for(xs, fid) == #[trigger] spec_invites_for(ys, fid),
        forall|fid: FederationId| #[trigger]
            spec_modules_for(xs, fid) == #[trigger] spec_modules_for(ys, fid),
{
    broadcast use vstd::seq_lib::to_multiset_contains;

    assert forall|fid: FederationId| spec_has_federation(xs, fid) == spec_has_federation(
        ys,
        fid,
    ) by {
        if spec_has_federation(xs, fid) {
            let i = choose|i: int| 0 <= i < xs.len() && (#[trigger] xs[i]).federation_id == fid;
            assert(xs.contains(xs[i]));
            assert(xs.to_multiset().count(xs[i]) > 0);
            assert(ys.to_multiset().count(xs[i]) > 0);
            assert(ys.contains(xs[i]));
            let j = choose|j: int| 0 <= j < ys.len() && ys[j] == xs[i];
            assert(spec_has_federation(ys, fid));
        }
        if spec_has_federation(ys, fid) {
            let i = choose|i: int| 0 <= i < ys.len() && (#[trigger] ys[i]).federation_id == fid;
            assert(ys.contains(ys[i]));
            assert(ys.to_multiset().count(ys[i]) > 0);
            assert(xs.to_multiset().count(ys[i]) > 0);
            assert(xs.contains(ys[i]));
            let j = choose|j: int| 0 <= j < xs.len() && xs[j] == ys[i];
            assert(spec_has_federation(xs, fid));
        }
    }
    assert forall|fid: FederationId| spec_invites_for(xs, fid) == spec_invites_for(ys, fid) by {
        assert forall|c: Seq<char>| spec_invites_for(xs, fid).contains(c) implies spec_invites_for(
            ys,
            fid,
        ).contains(c) by {
            let i = choose|i: int|
                0 <= i < xs.len() && (#[trigger] xs[i]).federation_id == fid
                    && xs[i].invite_codes.deep_view().contains(c);
            assert(xs.contains(xs[i]));
            assert(xs.to_multiset().count(xs[i]) > 0);
            assert(ys.to_multiset().count(xs[i]) > 0);
            assert(ys.contains(xs[i]));
            let j = choose|j: int| 0 <= j < ys.len() && ys[j] == xs[i];
        }
        assert forall|c: Seq<char>| spec_invites_for(ys, fid).contains(c) implies spec_invites_for(
            xs,
            fid,
        ).contains(c) by {
            let i = choose|i: int|
                0 <= i < ys.len() && (#[trigger] ys[i]).federation_id == fid
                    && ys[i].invite_codes.deep_view().contains(c);
            assert(ys.contains(ys[i]));
            assert(ys.to_multiset().count(ys[i]) > 0);
            assert(xs.to_multiset().count(ys[i]) > 0);
            assert(xs.contains(ys[i]));
            let j = choose|j: int| 0 <= j < xs.len() && xs[j] == ys[i];
        }
        assert(spec_invites_for(xs, fid) =~= spec_invites_for(ys, fid));
    }
    assert forall|fid: FederationId| spec_modules_for(xs, fid) == spec_modules_for(ys, fid) by {
        assert forall|c: Seq<char>| spec_modules_for(xs, fid).contains(c) implies spec_modules_for(
            ys,
            fid,
        ).contains(c) by {
            let i = choose|i: int|
                0 <= i < xs.len() && (#[trigger] xs[i]).federation_id == fid
                    && xs[i].modules.deep_view().contains(c);
            assert(xs.contains(xs[i]));
            assert(xs.to_multiset().count(xs[i]) > 0);
            assert(ys.to_multiset().count(xs[i]) > 0);
            assert(ys.contains(xs[i]));
            let j = choose|j: int| 0 <= j < ys.len() && ys[j] == xs[i];
        }
        assert forall|c: Seq<char>| spec_modules_for(ys, fid).contains(c) implies spec_modules_for(
            xs,
            fid,
        ).contains(c) by {
            let i = choose|i: int|
                0 <= i < ys.len() && (#[trigger] ys[i]).federation_id == fid
                    && ys[i].modules.deep_view().contains(c);
            assert(ys.contains(ys[i]));
            assert(ys.to_multiset().count(ys[i]) > 0);
            assert(xs.to_multiset().count(ys[i]) > 0);
            assert(xs.contains(ys[i]));
            let j = choose|j: int| 0 <= j < xs.len() && xs[j] == ys[i];
        }
        assert(spec_modules_for(xs, fid) =~= spec_modules_for(ys, fid));
    }
}

/// Whether some collected record is already for federation `fid`.
fn result_contains_federation(r: &Vec<FedimintAnnouncement>, fid: FederationId) -> (b: bool)
    ensures
        b == spec_has_federation(r@, fid),
{
    let mut j: usize = 0;
    while j < r.len()
        invariant
            j <= r@.len(),
            forall|k: int| 0 <= k < j ==> (#[trigger] r@[k]).federation_id != fid,
        decreases r@.len() - j,
    {
        if r[j].federation_id == fid {
            return true;
        }
        j = j + 1;
    }
    false
}

/// Merge the string vectors of every announcement for `fid` found among the
/// first announcements, one field at a time.
fn collect_strings_for(
    announcements: &Vec<FedimintAnnouncement>,
    fid: FederationId,
    want_modules: bool,
) -> (r: Vec<String>)
    ensures
        sorted_unique_strings(r@),
        unique_strings(r@),
        !want_modules ==> r.deep_view().to_set() == spec_invites_for(announcements@, fid),
        want_modules ==> r.deep_view().to_set() == spec_modules_for(announcements@, fid),
{
    let ghost all = announcements@;
    let mut out: Vec<String> = Vec::new();
    let mut k: usize = 0;
    while k < announcements.len()
        invariant
            k <= all.len(),
            all == announcements@,
            sorted_unique_strings(out@),
            unique_strings(out@),
            !want_modules ==> out.deep_view().to_set() == spec_invites_for(
                all.take(k as int),
                fid,
            ),
            want_modules ==> out.deep_view().to_set() == spec_modules_for(all.take(k as int), fid),
        decreases all.len() - k,
    {
        let ghost before = out.deep_view().to_set();
        if announcements[k].federation_id == fid {
            let source_len = if want_modules {
                announcements[k].modules.len()
            } else {
                announcements[k].invite_codes.len()
            };
            let ghost src = if want_modules {
                all[k as int].modules.deep_view()
            } else {
                all[k as int].invite_codes.deep_view()
            };
            let mut m: usize = 0;
            while m < source_len
                invariant
                    k < all.len(),
                    all == announcements@,
                    all[k as int].federation_id == fid,
                    source_len == src.len(),
                    src == if want_modules {
                        all[k as int].modules.deep_view()
                    } else {
                        all[k as int].invite_codes.deep_view()
                    },
                    m <= src.len(),
                    sorted_unique_strings(out@),
                    unique_strings(out@),
                    out.deep_view().to_set() == before.union(src.take(m as int).to_set()),
                decreases src.len() - m,
            {
                if want_modules {
                    insert_sorted_string(&mut out, &announcements[k].modules[m]);
                } else {
                    insert_sorted_string(&mut out, &announcements[k].invite_codes[m]);
                }
                proof {
                    lemma_take_step_to_set(src, m as int);
                    assert(out.deep_view().to_set() =~= before.union(src.take(m + 1).to_set()));
                }
                m = m + 1;
            }
            proof {
                assert(src.take(src.len() as int) =~= src);
                if want_modules {
                    assert forall|c: Seq<char>| spec_modules_for(all.take(k + 1), fid).contains(
                        c,
                    ) implies out.deep_view().to_set().contains(c) by {
                        let x = choose|x: int|
                            0 <= x < all.take(k + 1).len() && (#[trigger] all.take(
                                k + 1,
                            )[x]).federation_id == fid && all.take(
                                k + 1,
                            )[x].modules.deep_view().contains(c);
                        if x < k {
                            assert(all.take(k as int)[x] == all[x]);
                            assert(spec_modules_for(all.take(k as int), fid).contains(c));
                        } else {
                            assert(src.to_set().contains(c));
                        }
                    }
                    assert forall|c: Seq<char>| out.deep_view().to_set().contains(
                        c,
                    ) implies spec_modules_for(all.take(k + 1), fid).contains(c) by {
                        if before.contains(c) {
                            let x = choose|x: int|
                                0 <= x < all.take(k as int).len() && (#[trigger] all.take(
                                    k as int,
                                )[x]).federation_id == fid && all.take(
                                    k as int,
                                )[x].modules.deep_view().contains(c);
                            assert(all.take(k + 1)[x] == all[x]);
                        } else {
                            assert(all.take(k + 1)[k as int] == all[k as int]);
                        }
                    }
                    assert(out.deep_view().to_set() =~= spec_modules_for(all.take(k + 1), fid));
                } else {
                    assert forall|c: Seq<char>| spec_invites_for(all.take(k + 1), fid).contains(
                        c,
                    ) implies out.deep_view().to_set().contains(c) by {
                        let x = choose|x: int|
                            0 <= x < all.take(k + 1).len() && (#[trigger] all.take(
                                k + 1,
                            )[x]).federation_id == fid && all.take(
                                k + 1,
                            )[x].invite_codes.deep_view().contains(c);
                        if x < k {
                            assert(all.take(k as int)[x] == all[x]);
                            assert(spec_invites_for(all.take(k as int), fid).contains(c));
                        } else {
                            assert(src.to_set().contains(c));
                        }
                    }
                    assert forall|c: Seq<char>| out.deep_view().to_set().contains(
                        c,
                    ) implies spec_invites_for(all.take(k + 1), fid).contains(c) by {
                        if before.contains(c) {
                            let x = choose|x: int|
                                0 <= x < all.take(k as int).len() && (#[trigger] all.take(
                                    k as int,
                                )[x]).federation_id == fid && all.take(
                                    k as int,
                                )[x].invite_codes.deep_view().contains(c);
                            assert(all.take(k + 1)[x] == all[x]);
                        } else {
                            assert(all.take(k + 1)[k as int] == all[k as int]);
                        }
                    }
                    assert(out.deep_view().to_set() =~= spec_invites_for(all.take(k + 1), fid));
                }
            }
        } else {
            proof {
                if want_modules {
                    assert forall|c: Seq<char>| spec_modules_for(all.take(k + 1), fid).contains(
                        c,
                    ) implies before.contains(c) by {
                        let x = choose|x: int|
                            0 <= x < all.take(k + 1).len() && (#[trigger] all.take(
                                k + 1,
                            )[x]).federation_id == fid && all.take(
                                k + 1,
                            )[x].modules.deep_view().contains(c);
                        assert(x != k);
                        assert(all.take(k as int)[x] == all[x]);
                        assert(spec_modules_for(all.take(k as int), fid).contains(c));
                    }
                    assert forall|c: Seq<char>| before.contains(c) implies spec_modules_for(
                        all.take(k + 1),
                        fid,
                    ).contains(c) by {
                        let x = choose|x: int|
                            0 <= x < all.take(k as int).len() && (#[trigger] all.take(
                                k as int,
                            )[x]).federation_id == fid && all.take(
                                k as int,
                            )[x].modules.deep_view().contains(c);
                        assert(all.take(k + 1)[x] == all[x]);
                    }
                    assert(out.deep_view().to_set() =~= spec_modules_for(all.take(k + 1), fid));
                } else {
                    assert forall|c: Seq<char>| spec_invites_for(all.take(k + 1), fid).contains(
                        c,
                    ) implies before.contains(c) by {
                        let x = choose|x: int|
                            0 <= x < all.take(k + 1).len() && (#[trigger] all.take(
                                k + 1,
                            )[x]).federation_id == fid && all.take(
                                k + 1,
                            )[x].invite_codes.deep_view().contains(c);
                        assert(x != k);
                        assert(all.take(k as int)[x] == all[x]);
                        assert(spec_invites_for(all.take(k as int), fid).contains(c));
                    }
                    assert forall|c: Seq<char>| before.contains(c) implies spec_invites_for(
                        all.take(k + 1),
                        fid,
                    ).contains(c) by {
                        let x = choose|x: int|
                            0 <= x < all.take(k as int).len() && (#[trigger] all.take(
                                k as int,
                            )[x]).federation_id == fid && all.take(
                                k as int,
                            )[x].invite_codes.deep_view().contains(c);
                        assert(all.take(k + 1)[x] == all[x]);
                    }
                    assert(out.deep_view().to_set() =~= spec_invites_for(all.take(k + 1), fid));
                }
            }
        }
        k = k + 1;
    }
    proof {
        assert(all.take(all.len() as int) =~= all);
    }
    out
}

impl FedimintAnnouncement {
    /// Merge and deduplicate announcements so that exactly one record remains
    /// per federation identifier, holding every invite code and every module
    /// name seen in any announcement for that federation.
    pub fn aggregate(announcements: Vec<FedimintAnnouncement>) -> (r: Vec<FedimintAnnouncement>)
        ensures
            forall|j: int, k: int|
                0 <= j < k < r@.len() ==> fed_id_less(
                    (#[trigger] r@[j]).federation_id,
                    (#[trigger] r@[k]).federation_id,
                ),
            forall|j: int, k: int|
                0 <= j < k < r@.len() ==> (#[trigger] r@[j]).federation_id != (
                #[trigger] r@[k]).federation_id,
            forall|fid: FederationId|
                #![trigger spec_has_federation(r@, fid)]
                #![trigger spec_has_federation(announcements@, fid)]
                spec_has_federation(r@, fid) <==> spec_has_federation(announcements@, fid),
            forall|j: int|
                0 <= j < r@.len() ==> sorted_unique_strings((#[trigger] r@[j]).invite_codes@)
                    && unique_strings(r@[j].invite_codes@)
                    && r@[j].invite_codes.deep_view().to_set() == spec_invites_for(
                    announcements@,
                    r@[j].federation_id,
                ),
            forall|j: int|
                0 <= j < r@.len() ==> sorted_unique_strings((#[trigger] r@[j]).modules@)
                    && unique_strings(r@[j].modules@)
                    && r@[j].modules.deep_view().to_set() == spec_modules_for(
                    announcements@,
                    r@[j].federation_id,
                ),
            announcements@.len() == 0 ==> r@.len() == 0,
    {
        let ghost all = announcements@;
        let mut result: Vec<FedimintAnnouncement> = Vec::new();
        let mut i: usize = 0;
        while i < announcements.len()
            invariant
                i <= all.len(),
                all == announcements@,
                forall|j: int, k: int|
                    0 <= j < k < result@.len() ==> fed_id_less(
                        (#[trigger] result@[j]).federation_id,
                        (#[trigger] result@[k]).federation_id,
                    ),
                forall|j: int, k: int|
                    0 <= j < k < result@.len() ==> (#[trigger] result@[j]).federation_id != (
                    #[trigger] result@[k]).federation_id,
                forall|j: int|
                    0 <= j < result@.len() ==> spec_has_federation(
                        all,
                        (#[trigger] result@[j]).federation_id,
                    ),
                forall|fid: FederationId|
                    #![trigger spec_has_federation(all.take(i as int), fid)]
                    spec_has_federation(all.take(i as int), fid) ==> spec_has_federation(
                        result@,
                        fid,
                    ),
                forall|j: int|
                    0 <= j < result@.len() ==> sorted_unique_strings(
                        (#[trigger] result@[j]).invite_codes@,
                    ) && unique_strings(result@[j].invite_codes@)
                        && result@[j].invite_codes.deep_view().to_set() == spec_invites_for(
                        all,
                        result@[j].federation_id,
                    ),
                forall|j: int|
                    0 <= j < result@.len() ==> sorted_unique_strings(
                        (#[trigger] result@[j]).modules@,
                    ) && unique_strings(result@[j].modules@)
                        && result@[j].modules.deep_view().to_set() == spec_modules_for(
                        all,
                        result@[j].federation_id,
                    ),
            decreases all.len() - i,
        {
            let fid = announcements[i].federation_id;
            let seen = result_contains_federation(&result, fid);
            if !seen {
                let invite_codes = collect_strings_for(&announcements, fid, false);
                let modules = collect_strings_for(&announcements, fid, true);
                let merged = FedimintAnnouncement { federation_id: fid, invite_codes, modules };
                let pos = fed_insert_pos(&result, fid);
                let ghost old_res = result@;
                result.insert(pos, merged);
                proof {
                    assert forall|k: int| 0 <= k < result@.len() implies result@[k] == (if k
                        < pos {
                        old_res[k]
                    } else if k == pos {
                        merged
                    } else {
                        old_res[k - 1]
                    }) by {}
                    assert forall|y: int| 0 <= y < old_res.len() implies (
                    #[trigger] old_res[y]).federation_id != fid by {
                        if old_res[y].federation_id == fid {
                            assert(spec_has_federation(old_res, fid));
                        }
                    }
                    assert forall|j2: int, k2: int|
                        0 <= j2 < k2 < result@.len() implies fed_id_less(
                        (#[trigger] result@[j2]).federation_id,
                        (#[trigger] result@[k2]).federation_id,
                    ) by {
                        if j2 == pos && k2 > pos {
                            assert(!fed_id_less(old_res[pos as int].federation_id, fid));
                            assert(old_res[pos as int].federation_id != fid);
                            assert(fed_id_less(fid, old_res[pos as int].federation_id));
                            if k2 - 1 > pos {
                                assert(fed_id_less(
                                    old_res[pos as int].federation_id,
                                    old_res[k2 - 1].federation_id,
                                ));
                            }
                        }
                    }
                    assert forall|j2: int, k2: int| 0 <= j2 < k2 < result@.len() implies (
                    #[trigger] result@[j2]).federation_id != (
                    #[trigger] result@[k2]).federation_id by {
                        assert(fed_id_less(result@[j2].federation_id, result@[k2].federation_id));
                    }
                    assert(all.take(i + 1).drop_last() =~= all.take(i as int));
                    assert(all.take(i + 1).last() == all[i as int]);
                    assert forall|fid2: FederationId| spec_has_federation(
                        all.take(i + 1),
                        fid2,
                    ) implies spec_has_federation(result@, fid2) by {
                        let x = choose|x: int|
                            0 <= x < all.take(i + 1).len() && (#[trigger] all.take(
                                i + 1,
                            )[x]).federation_id == fid2;
                        if x < i {
                            assert(all.take(i as int)[x] == all[x]);
                            assert(spec_has_federation(all.take(i as int), fid2));
                            let y = choose|y: int|
                                0 <= y < old_res.len() && (#[trigger] old_res[y]).federation_id
                                    == fid2;
                            if y < pos {
                                assert(result@[y] == old_res[y]);
                                assert(result@[y].federation_id == fid2);
                            } else {
                                assert(result@[y + 1] == old_res[y]);
                                assert(result@[y + 1].federation_id == fid2);
                            }
                        } else {
                            assert(result@[pos as int].federation_id == fid2);
                        }
                    }
                    assert forall|j2: int| 0 <= j2 < result@.len() implies spec_has_federation(
                        all,
                        (#[trigger] result@[j2]).federation_id,
                    ) by {
                        if j2 < pos {
                            assert(result@[j2] == old_res[j2]);
                        } else if j2 == pos {
                            assert(all[i as int].federation_id == fid);
                            assert(spec_has_federation(all, fid));
                        } else {
                            assert(result@[j2] == old_res[j2 - 1]);
                        }
                    }
                    assert forall|j2: int| 0 <= j2 < result@.len() implies sorted_unique_strings(
                        (#[trigger] result@[j2]).invite_codes@,
                    ) && unique_strings(result@[j2].invite_codes@)
                        && result@[j2].invite_codes.deep_view().to_set() == spec_invites_for(
                        all,
                        result@[j2].federation_id,
                    ) by {
                        if j2 < pos {
                            assert(result@[j2] == old_res[j2]);
                        } else if j2 > pos {
                            assert(result@[j2] == old_res[j2 - 1]);
                        }
                    }
                    assert forall|j2: int| 0 <= j2 < result@.len() implies sorted_unique_strings(
                        (#[trigger] result@[j2]).modules@,
                    ) && unique_strings(result@[j2].modules@)
                        && result@[j2].modules.deep_view().to_set() == spec_modules_for(
                        all,
                        result@[j2].federation_id,
                    ) by {
                        if j2 < pos {
                            assert(result@[j2] == old_res[j2]);
                        } else if j2 > pos {
                            assert(result@[j2] == old_res[j2 - 1]);
                        }
                    }
                }
            } else {
                proof {
                    assert forall|fid2: FederationId| spec_has_federation(
                        all.take(i + 1),
                        fid2,
                    ) implies spec_has_federation(result@, fid2) by {
                        let x = choose|x: int|
                            0 <= x < all.take(i + 1).len() && (#[trigger] all.take(
                                i + 1,
                            )[x]).federation_id == fid2;
                        if x < i {
                            assert(all.take(i as int)[x] == all[x]);
                            assert(spec_has_federation(all.take(i as int), fid2));
                        } else {
                            assert(fid2 == fid);
                        }
                    }
                }
            }
            i = i + 1;
        }
        proof {
            assert(all.take(all.len() as int) =~= all);
            assert forall|fid2: FederationId| spec_has_federation(
                result@,
                fid2,
            ) implies spec_has_federation(all, fid2) by {
                let y = choose|y: int|
                    0 <= y < result@.len() && (#[trigger] result@[y]).federation_id == fid2;
            }
            if all.len() == 0 && result@.len() > 0 {
                assert(spec_has_federation(all, result@[0].federation_id));
                assert(false);
            }
        }
        result
    }
}

} // verus!

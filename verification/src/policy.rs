//! The policy of rate limits: per device, per interface and for guests, some of
//! them on a weekly schedule.
use crate::limits::{
    law_rate_roundtrip, limit_of, rates_of, to_limit, to_rates, RateKbps, RateLimitValue,
};
use crate::mac;
use crate::mac::{law_mac_roundtrip, mac_text, parsed_mac, MacError};
use crate::number::{dec, decimal};
use crate::schedule::{
    days_mask_to_vec, days_to, law_slot_roundtrip, minute_to_hhmm, parse_time_slot, slot_read,
    time_text, PolicyError, SlotModel, TimeSlotApi,
};
use crate::sort::{arrange, law_arranged_is_ordered, lemma_same_mapped, ordered, Ranked};
use crate::table::Table;
use crate::text::{
    copy_text, lemma_text_less_total, lemma_text_less_transitive, less, pieces, text_less, views,
};
use crate::topology::{iface_views, InterfaceModel, TopologySnapshot};
use vstd::prelude::*;

verus! {

/// The limits that hold from the start.
#[derive(Debug)]
pub struct ParsedPolicy {
    pub device_static: Table<[u8; 6], RateLimitValue>,
}

/// A row of the policy as it is shown.
#[derive(Debug)]
pub struct PolicyItem {
    pub scope: String,
    pub iface: Option<String>,
    pub mac: Option<String>,
    pub down_v4_kbps: u64,
    pub down_v6_kbps: u64,
    pub up_v4_kbps: u64,
    pub up_v6_kbps: u64,
    pub extra: Option<String>,
}

/// A scheduled limit as it is shown.
#[derive(Debug)]
pub struct ScheduledRuleApi {
    pub id: String,
    pub mac: String,
    pub time_slot: TimeSlotApi,
    pub down_v4_kbps: u64,
    pub down_v6_kbps: u64,
    pub up_v4_kbps: u64,
    pub up_v6_kbps: u64,
}

/// A request for a new scheduled limit.
#[derive(Debug)]
pub struct CreateScheduledRuleRequest {
    pub mac: String,
    pub time_slot: TimeSlotApi,
    pub down_v4_kbps: u64,
    pub down_v6_kbps: u64,
    pub up_v4_kbps: u64,
    pub up_v6_kbps: u64,
}

/// A request to change a scheduled limit.
#[derive(Debug)]
pub struct UpdateScheduledRuleRequest {
    pub mac: String,
    pub time_slot: TimeSlotApi,
    pub down_v4_kbps: u64,
    pub down_v6_kbps: u64,
    pub up_v4_kbps: u64,
    pub up_v6_kbps: u64,
}

/// The limit of an interface as it is shown.
#[derive(Debug)]
pub struct InterfaceRateLimitApi {
    pub iface: String,
    pub down_v4_kbps: u64,
    pub down_v6_kbps: u64,
    pub up_v4_kbps: u64,
    pub up_v6_kbps: u64,
}

/// A request to limit an interface.
#[derive(Debug)]
pub struct SetInterfaceRateLimitRequest {
    pub iface: String,
    pub down_v4_kbps: u64,
    pub down_v6_kbps: u64,
    pub up_v4_kbps: u64,
    pub up_v6_kbps: u64,
}

/// A device that the limit for guests spares, as it is shown.
#[derive(Debug)]
pub struct GuestWhitelistEntryApi {
    pub iface: String,
    pub mac: String,
}

/// A request to spare a device, or to spare it no longer.
#[derive(Debug)]
pub struct GuestWhitelistEntryRequest {
    pub iface: String,
    pub mac: String,
}

/// A limit of a device that holds at some hours of some days.
#[derive(Debug)]
pub struct ScheduledRule {
    pub id: String,
    pub mac: [u8; 6],
    pub start_minute: u16,
    pub end_minute: u16,
    pub days_mask: u8,
    pub limit: RateLimitValue,
}

/// The policy in force.
#[derive(Debug)]
pub struct PolicyRuntime {
    pub base: ParsedPolicy,
    pub iface_limits: Table<String, RateLimitValue>,
    pub guest_default_limits: Table<String, RateLimitValue>,
    pub guest_whitelist: Table<(String, [u8; 6]), ()>,
    pub scheduled_rules: Vec<ScheduledRule>,
}

impl PolicyRuntime {
    /// No table names a key twice.
    pub open spec fn wf(self) -> bool {
        &&& self.base.device_static.wf()
        &&& self.iface_limits.wf()
        &&& self.guest_default_limits.wf()
        &&& self.guest_whitelist.wf()
    }
}

/// A scheduled limit over plain values.
#[verifier::ext_equal]
pub struct RuleModel {
    pub id: Seq<char>,
    pub mac: Seq<u8>,
    pub start_minute: u16,
    pub end_minute: u16,
    pub days_mask: u8,
    pub limit: RateLimitValue,
}

impl View for ScheduledRule {
    type V = RuleModel;

    open spec fn view(&self) -> RuleModel {
        RuleModel {
            id: self.id@,
            mac: self.mac@,
            start_minute: self.start_minute,
            end_minute: self.end_minute,
            days_mask: self.days_mask,
            limit: self.limit,
        }
    }
}

/// The rules over plain values.
pub open spec fn rule_views(v: Seq<ScheduledRule>) -> Seq<RuleModel> {
    v.map_values(|x: ScheduledRule| x@)
}

/// A shown scheduled limit over plain values.
#[verifier::ext_equal]
pub struct RuleApiModel {
    pub id: Seq<char>,
    pub mac: Seq<char>,
    pub time_slot: SlotModel,
    pub rates: RateKbps,
}

impl View for ScheduledRuleApi {
    type V = RuleApiModel;

    open spec fn view(&self) -> RuleApiModel {
        RuleApiModel {
            id: self.id@,
            mac: self.mac@,
            time_slot: self.time_slot@,
            rates: RateKbps {
                down_v4_kbps: self.down_v4_kbps,
                down_v6_kbps: self.down_v6_kbps,
                up_v4_kbps: self.up_v4_kbps,
                up_v6_kbps: self.up_v6_kbps,
            },
        }
    }
}

/// A shown row of the policy over plain values.
#[verifier::ext_equal]
pub struct ItemModel {
    pub scope: Seq<char>,
    pub iface: Option<Seq<char>>,
    pub mac: Option<Seq<char>>,
    pub rates: RateKbps,
    pub extra: Option<Seq<char>>,
}

impl View for PolicyItem {
    type V = ItemModel;

    open spec fn view(&self) -> ItemModel {
        ItemModel {
            scope: self.scope@,
            iface: match self.iface {
                Some(s) => Some(s@),
                None => None,
            },
            mac: match self.mac {
                Some(s) => Some(s@),
                None => None,
            },
            rates: RateKbps {
                down_v4_kbps: self.down_v4_kbps,
                down_v6_kbps: self.down_v6_kbps,
                up_v4_kbps: self.up_v4_kbps,
                up_v6_kbps: self.up_v6_kbps,
            },
            extra: match self.extra {
                Some(s) => Some(s@),
                None => None,
            },
        }
    }
}

impl View for InterfaceRateLimitApi {
    type V = (Seq<char>, RateKbps);

    open spec fn view(&self) -> (Seq<char>, RateKbps) {
        (
            self.iface@,
            RateKbps {
                down_v4_kbps: self.down_v4_kbps,
                down_v6_kbps: self.down_v6_kbps,
                up_v4_kbps: self.up_v4_kbps,
                up_v6_kbps: self.up_v6_kbps,
            },
        )
    }
}

impl View for GuestWhitelistEntryApi {
    type V = (Seq<char>, Seq<char>);

    open spec fn view(&self) -> (Seq<char>, Seq<char>) {
        (self.iface@, self.mac@)
    }
}

/// The policy without limits.
pub fn parse_policy() -> (r: ParsedPolicy)
    ensures
        r.device_static.wf(),
        r.device_static.entries@.len() == 0,
        r.device_static@ == Map::<Seq<u8>, RateLimitValue>::empty(),
{
    ParsedPolicy { device_static: Table::new() }
}

/// The policy with nothing but the limits that hold from the start.
pub fn init_runtime(base: ParsedPolicy) -> (r: PolicyRuntime)
    requires
        base.device_static.wf(),
    ensures
        r.wf(),
        r.base == base,
        r.iface_limits@ == Map::<Seq<char>, RateLimitValue>::empty(),
        r.guest_default_limits@ == Map::<Seq<char>, RateLimitValue>::empty(),
        r.guest_whitelist@ == Map::<(Seq<char>, Seq<u8>), ()>::empty(),
        r.scheduled_rules@.len() == 0,
        r.iface_limits.entries@.len() == 0,
        r.guest_default_limits.entries@.len() == 0,
        r.guest_whitelist.entries@.len() == 0,
{
    PolicyRuntime {
        base,
        iface_limits: Table::new(),
        guest_default_limits: Table::new(),
        guest_whitelist: Table::new(),
        scheduled_rules: Vec::new(),
    }
}

/// The address that a request gives.
pub open spec fn mac_read(s: Seq<char>) -> Result<Seq<u8>, PolicyError> {
    match parsed_mac(s) {
        Some(m) => Ok(m),
        None => if pieces(s, ':').len() < 6 {
            Err(PolicyError::Mac(MacError::Format))
        } else {
            Err(PolicyError::Mac(MacError::Hex))
        },
    }
}

fn read_mac(s: &str) -> (r: Result<[u8; 6], PolicyError>)
    ensures
        match r {
            Ok(m) => mac_read(s@) == Ok::<Seq<u8>, PolicyError>(m@),
            Err(e) => mac_read(s@) == Err::<Seq<u8>, PolicyError>(e),
        },
{
    match mac::from_str(s) {
        Ok(m) => Ok(m),
        Err(e) => Err(PolicyError::Mac(e)),
    }
}

/// The rule that a request asks for, under an identifier.
pub open spec fn rule_read(
    id: Seq<char>,
    mac: Seq<char>,
    slot: SlotModel,
    rates: RateKbps,
) -> Result<RuleModel, PolicyError> {
    match mac_read(mac) {
        Err(e) => Err(e),
        Ok(m) => match slot_read(slot) {
            Err(e) => Err(e),
            Ok((start, end, mask)) => Ok(
                RuleModel {
                    id,
                    mac: m,
                    start_minute: start,
                    end_minute: end,
                    days_mask: mask,
                    limit: limit_of(rates),
                },
            ),
        },
    }
}

fn read_rule(id: String, mac: &str, slot: &TimeSlotApi, rates: RateKbps) -> (r: Result<
    ScheduledRule,
    PolicyError,
>)
    ensures
        match r {
            Ok(x) => rule_read(id@, mac@, slot@, rates) == Ok::<RuleModel, PolicyError>(x@),
            Err(e) => rule_read(id@, mac@, slot@, rates) == Err::<RuleModel, PolicyError>(e),
        },
{
    let mac = match read_mac(mac) {
        Ok(m) => m,
        Err(e) => return Err(e),
    };
    let (start_minute, end_minute, days_mask) = match parse_time_slot(slot) {
        Ok(x) => x,
        Err(e) => return Err(e),
    };
    Ok(ScheduledRule { id, mac, start_minute, end_minute, days_mask, limit: to_limit(rates) })
}

/// A rule as it is shown.
pub open spec fn shown(rule: RuleModel) -> RuleApiModel {
    RuleApiModel {
        id: rule.id,
        mac: mac_text(rule.mac),
        time_slot: SlotModel {
            start: time_text(rule.start_minute),
            end: time_text(rule.end_minute),
            days: days_to(rule.days_mask, 7),
        },
        rates: rates_of(rule.limit),
    }
}

/// Shows a rule.
pub fn scheduled_rule_to_api(rule: &ScheduledRule) -> (r: ScheduledRuleApi)
    ensures
        r@ == shown(rule@),
{
    let k = to_rates(&rule.limit);
    ScheduledRuleApi {
        id: rule.id.clone(),
        mac: mac::to_string(&rule.mac),
        time_slot: TimeSlotApi {
            start: minute_to_hhmm(rule.start_minute),
            end: minute_to_hhmm(rule.end_minute),
            days: days_mask_to_vec(rule.days_mask),
        },
        down_v4_kbps: k.down_v4_kbps,
        down_v6_kbps: k.down_v6_kbps,
        up_v4_kbps: k.up_v4_kbps,
        up_v6_kbps: k.up_v6_kbps,
    }
}

/// The shown rules over plain values.
pub open spec fn api_views(v: Seq<ScheduledRuleApi>) -> Seq<RuleApiModel> {
    v.map_values(|x: ScheduledRuleApi| x@)
}

/// The rules as they are shown, in the order in which they were made.
pub fn get_scheduled_rules(runtime: &PolicyRuntime) -> (r: Vec<ScheduledRuleApi>)
    ensures
        api_views(r@) == rule_views(runtime.scheduled_rules@).map_values(|x: RuleModel| shown(x)),
{
    let mut r: Vec<ScheduledRuleApi> = Vec::new();
    let ghost all = rule_views(runtime.scheduled_rules@).map_values(|x: RuleModel| shown(x));
    let mut i: usize = 0;
    assert(api_views(r@) =~= all.take(0));
    while i < runtime.scheduled_rules.len()
        invariant
            i <= runtime.scheduled_rules@.len(),
            all == rule_views(runtime.scheduled_rules@).map_values(|x: RuleModel| shown(x)),
            api_views(r@) == all.take(i as int),
        decreases runtime.scheduled_rules@.len() - i,
    {
        let ghost before = api_views(r@);
        let x = scheduled_rule_to_api(&runtime.scheduled_rules[i]);
        let ghost xv = x@;
        r.push(x);
        assert(api_views(r@) =~= before.push(xv));
        assert(all.take(i + 1) =~= all.take(i as int).push(all[i as int]));
        i += 1;
    }
    assert(all.take(i as int) =~= all);
    r
}

impl PolicyRuntime {
    /// Nothing but the rules differs.
    pub open spec fn same_but_rules(self, other: Self) -> bool {
        &&& self.base == other.base
        &&& self.iface_limits == other.iface_limits
        &&& self.guest_default_limits == other.guest_default_limits
        &&& self.guest_whitelist == other.guest_whitelist
    }
}

/// Whether a text has the form of a random identifier: hexadecimal digits in five
/// groups with hyphens between them, where the third group starts with a 4 and the
/// fourth with one of 8, 9, a and b.
pub open spec fn is_random_id(s: Seq<char>) -> bool {
    &&& s.len() == 36
    &&& forall|i: int|
        0 <= i < 36 ==> (if i == 8 || i == 13 || i == 18 || i == 23 {
            #[trigger] s[i] == '-'
        } else {
            '0' <= s[i] <= '9' || 'a' <= s[i] <= 'f'
        })
    &&& s[14] == '4'
    &&& s[19] == '8' || s[19] == '9' || s[19] == 'a' || s[19] == 'b'
}

/// `uuid::Uuid::new_v4`, written with `to_string`: a random identifier in its
/// hyphenated form with lower case digits. Which one it is is left to chance; the
/// digit of the version and that of the variant are fixed.
#[verifier::external_body]
fn random_id() -> (r: String)
    ensures
        is_random_id(r@),
{
    uuid::Uuid::new_v4().to_string()
}

/// Adds a scheduled limit under a given identifier.
pub fn add_scheduled_rule(
    runtime: &mut PolicyRuntime,
    req: CreateScheduledRuleRequest,
    id: String,
) -> (r: Result<ScheduledRuleApi, PolicyError>)
    ensures
        match rule_read(id@, req.mac@, req.time_slot@, req.rates()) {
            Ok(rule) => {
                &&& r matches Ok(api) && api@ == shown(rule)
                &&& rule_views(final(runtime).scheduled_rules@) == rule_views(
                    old(runtime).scheduled_rules@,
                ).push(rule)
                &&& final(runtime).same_but_rules(*old(runtime))
            },
            Err(e) => r == Err::<ScheduledRuleApi, PolicyError>(e) && *final(runtime) == *old(
                runtime,
            ),
        },
{
    let rates = RateKbps {
        down_v4_kbps: req.down_v4_kbps,
        down_v6_kbps: req.down_v6_kbps,
        up_v4_kbps: req.up_v4_kbps,
        up_v6_kbps: req.up_v6_kbps,
    };
    match read_rule(id, req.mac.as_str(), &req.time_slot, rates) {
        Ok(rule) => {
            let api = scheduled_rule_to_api(&rule);
            let ghost rv = rule@;
            let ghost before = rule_views(runtime.scheduled_rules@);
            runtime.scheduled_rules.push(rule);
            assert(rule_views(runtime.scheduled_rules@) =~= before.push(rv));
            Ok(api)
        },
        Err(e) => Err(e),
    }
}

impl CreateScheduledRuleRequest {
    /// The rates that the request asks for.
    pub open spec fn rates(self) -> RateKbps {
        RateKbps {
            down_v4_kbps: self.down_v4_kbps,
            down_v6_kbps: self.down_v6_kbps,
            up_v4_kbps: self.up_v4_kbps,
            up_v6_kbps: self.up_v6_kbps,
        }
    }
}

impl UpdateScheduledRuleRequest {
    /// The rates that the request asks for.
    pub open spec fn rates(self) -> RateKbps {
        RateKbps {
            down_v4_kbps: self.down_v4_kbps,
            down_v6_kbps: self.down_v6_kbps,
            up_v4_kbps: self.up_v4_kbps,
            up_v6_kbps: self.up_v6_kbps,
        }
    }
}

/// Adds a scheduled limit under a random identifier.
pub fn create_scheduled_rule(runtime: &mut PolicyRuntime, req: CreateScheduledRuleRequest) -> (r:
    Result<ScheduledRuleApi, PolicyError>)
    ensures
        match r {
            Ok(api) => {
                &&& is_random_id(api.id@)
                &&& rule_read(api.id@, req.mac@, req.time_slot@, req.rates()) matches Ok(rule)
                    && api@ == shown(rule) && rule_views(final(runtime).scheduled_rules@)
                    == rule_views(old(runtime).scheduled_rules@).push(rule)
                &&& final(runtime).same_but_rules(*old(runtime))
            },
            Err(e) => *final(runtime) == *old(runtime) && forall|id: Seq<char>|
                #[trigger] rule_read(id, req.mac@, req.time_slot@, req.rates()) == Err::<
                    RuleModel,
                    PolicyError,
                >(e),
        },
{
    let id = random_id();
    let ghost gid = id@;
    let r = add_scheduled_rule(runtime, req, id);
    assert(rule_read(gid, req.mac@, req.time_slot@, req.rates()) is Err ==> forall|x: Seq<char>|
        #[trigger] rule_read(x, req.mac@, req.time_slot@, req.rates()) == rule_read(
            gid,
            req.mac@,
            req.time_slot@,
            req.rates(),
        ));
    r
}

/// Where the first rule with an identifier stands; behind the last where there is
/// none.
pub open spec fn rule_place(s: Seq<RuleModel>, id: Seq<char>) -> int
    decreases s.len(),
{
    if s.len() == 0 || s[0].id == id {
        0
    } else {
        1 + rule_place(s.drop_first(), id)
    }
}

fn find_rule(rules: &Vec<ScheduledRule>, id: &str) -> (r: usize)
    ensures
        r == rule_place(rule_views(rules@), id@),
        r <= rules@.len(),
{
    let wanted = copy_text(id);
    let ghost s = rule_views(rules@);
    let mut i: usize = 0;
    assert(s.skip(0) =~= s);
    while i < rules.len()
        invariant
            i <= rules@.len(),
            s == rule_views(rules@),
            wanted@ == id@,
            rule_place(s, id@) == i + rule_place(s.skip(i as int), id@),
        decreases rules@.len() - i,
    {
        assert(s.skip(i as int)[0] == rules@[i as int]@);
        if rules[i].id == wanted {
            return i;
        }
        assert(s.skip(i as int).drop_first() =~= s.skip(i + 1));
        i += 1;
    }
    i
}

/// Changes the scheduled limit with an identifier.
pub fn update_scheduled_rule(
    runtime: &mut PolicyRuntime,
    id: &str,
    req: UpdateScheduledRuleRequest,
) -> (r: Result<ScheduledRuleApi, PolicyError>)
    ensures
        match rule_read(id@, req.mac@, req.time_slot@, req.rates()) {
            Ok(rule) => {
                let rules = rule_views(old(runtime).scheduled_rules@);
                let at = rule_place(rules, id@);
                if at < rules.len() {
                    &&& r matches Ok(api) && api@ == shown(rule)
                    &&& rule_views(final(runtime).scheduled_rules@) == rules.update(at, rule)
                    &&& final(runtime).same_but_rules(*old(runtime))
                } else {
                    r == Err::<ScheduledRuleApi, PolicyError>(PolicyError::UnknownRule)
                        && *final(runtime) == *old(runtime)
                }
            },
            Err(e) => r == Err::<ScheduledRuleApi, PolicyError>(e) && *final(runtime) == *old(
                runtime,
            ),
        },
{
    let rates = RateKbps {
        down_v4_kbps: req.down_v4_kbps,
        down_v6_kbps: req.down_v6_kbps,
        up_v4_kbps: req.up_v4_kbps,
        up_v6_kbps: req.up_v6_kbps,
    };
    match read_rule(copy_text(id), req.mac.as_str(), &req.time_slot, rates) {
        Ok(rule) => {
            let at = find_rule(&runtime.scheduled_rules, id);
            if at == runtime.scheduled_rules.len() {
                return Err(PolicyError::UnknownRule);
            }
            let api = scheduled_rule_to_api(&rule);
            let ghost rv = rule@;
            let ghost before = rule_views(runtime.scheduled_rules@);
            runtime.scheduled_rules.set(at, rule);
            assert(rule_views(runtime.scheduled_rules@) =~= before.update(at as int, rv));
            Ok(api)
        },
        Err(e) => Err(e),
    }
}

/// The rules without those with an identifier.
pub open spec fn without_rule(s: Seq<RuleModel>, id: Seq<char>) -> Seq<RuleModel>
    decreases s.len(),
{
    if s.len() == 0 {
        s
    } else if s.last().id == id {
        without_rule(s.drop_last(), id)
    } else {
        without_rule(s.drop_last(), id).push(s.last())
    }
}

proof fn lemma_rule_place(s: Seq<RuleModel>, id: Seq<char>)
    ensures
        0 <= rule_place(s, id) <= s.len(),
        rule_place(s, id) < s.len() <==> exists|i: int|
            0 <= i < s.len() && (#[trigger] s[i]).id == id,
    decreases s.len(),
{
    if s.len() > 0 {
        lemma_rule_place(s.drop_first(), id);
        let t = s.drop_first();
        if exists|i: int| 0 <= i < t.len() && (#[trigger] t[i]).id == id {
            let i = choose|i: int| 0 <= i < t.len() && (#[trigger] t[i]).id == id;
            assert(s[i + 1].id == id);
        }
        if s[0].id != id && exists|i: int| 0 <= i < s.len() && (#[trigger] s[i]).id == id {
            let i = choose|i: int| 0 <= i < s.len() && (#[trigger] s[i]).id == id;
            assert(t[i - 1].id == id);
        }
    }
}

/// Takes out the scheduled limits with an identifier.
pub fn delete_scheduled_rule(runtime: &mut PolicyRuntime, id: &str) -> (r: Result<(), PolicyError>)
    ensures
        if exists|i: int|
            0 <= i < old(runtime).scheduled_rules@.len() && (#[trigger] old(
                runtime,
            ).scheduled_rules@[i]).id@ == id@ {
            &&& r is Ok
            &&& rule_views(final(runtime).scheduled_rules@) == without_rule(
                rule_views(old(runtime).scheduled_rules@),
                id@,
            )
            &&& final(runtime).same_but_rules(*old(runtime))
        } else {
            r == Err::<(), PolicyError>(PolicyError::UnknownRule) && *final(runtime) == *old(
                runtime,
            )
        },
{
    let ghost all = rule_views(runtime.scheduled_rules@);
    let at = find_rule(&runtime.scheduled_rules, id);
    proof {
        lemma_rule_place(all, id@);
        assert forall|i: int| 0 <= i < all.len() implies (#[trigger] all[i]).id
            == runtime.scheduled_rules@[i].id@ by {}
        if exists|i: int|
            0 <= i < runtime.scheduled_rules@.len() && (#[trigger] runtime.scheduled_rules@[i]).id@
                == id@ {
            let i = choose|i: int|
                0 <= i < runtime.scheduled_rules@.len() && (
                #[trigger] runtime.scheduled_rules@[i]).id@ == id@;
            assert(all[i].id == id@);
        }
    }
    if at == runtime.scheduled_rules.len() {
        return Err(PolicyError::UnknownRule);
    }
    assert(runtime.scheduled_rules@[at as int].id@ == id@) by {
        lemma_place_holds(all, id@);
    }
    let wanted = copy_text(id);
    let mut i: usize = 0;
    let ghost mut k: int = 0;
    assert(all.take(0) =~= Seq::<RuleModel>::empty());
    assert(rule_views(runtime.scheduled_rules@) =~= without_rule(all.take(0), id@) + all.skip(0));
    while i < runtime.scheduled_rules.len()
        invariant
            i <= runtime.scheduled_rules@.len(),
            0 <= k <= all.len(),
            wanted@ == id@,
            i == without_rule(all.take(k), id@).len(),
            rule_views(runtime.scheduled_rules@) == without_rule(all.take(k), id@) + all.skip(k),
            runtime.same_but_rules(*old(runtime)),
        decreases runtime.scheduled_rules@.len() - i,
    {
        let ghost now = rule_views(runtime.scheduled_rules@);
        assert(now.len() == i + (all.len() - k));
        assert(now[i as int] == all[k]);
        assert(now[i as int] == runtime.scheduled_rules@[i as int]@);
        assert(all.take(k + 1).drop_last() =~= all.take(k));
        if runtime.scheduled_rules[i].id == wanted {
            runtime.scheduled_rules.remove(i);
            assert(rule_views(runtime.scheduled_rules@) =~= now.remove(i as int));
            assert(now.remove(i as int) =~= without_rule(all.take(k + 1), id@) + all.skip(k + 1));
        } else {
            assert(now =~= without_rule(all.take(k + 1), id@) + all.skip(k + 1));
            i += 1;
        }
        proof {
            k = k + 1;
        }
    }
    assert(k == all.len());
    assert(all.take(k) =~= all);
    assert(all.skip(k) =~= Seq::<RuleModel>::empty());
    assert(without_rule(all, id@) + all.skip(k) =~= without_rule(all, id@));
    Ok(())
}

proof fn lemma_place_holds(s: Seq<RuleModel>, id: Seq<char>)
    requires
        rule_place(s, id) < s.len(),
    ensures
        0 <= rule_place(s, id),
        s[rule_place(s, id)].id == id,
    decreases s.len(),
{
    if s.len() > 0 && s[0].id != id {
        lemma_place_holds(s.drop_first(), id);
    }
}

/// Whether an interface has a name.
pub open spec fn knows_name(s: Seq<InterfaceModel>, name: Seq<char>) -> bool {
    exists|i: int| 0 <= i < s.len() && (#[trigger] s[i]).name == name
}

fn resolve_iface_name(iface: &str, topology: &TopologySnapshot) -> (r: Result<String, PolicyError>)
    ensures
        match r {
            Ok(name) => knows_name(topology@, iface@) && name@ == iface@,
            Err(e) => !knows_name(topology@, iface@) && e == PolicyError::UnknownInterface,
        },
{
    let wanted = copy_text(iface);
    let list = topology.interfaces();
    let mut i: usize = 0;
    while i < list.len()
        invariant
            i <= list@.len(),
            iface_views(list@) == topology@,
            wanted@ == iface@,
            forall|j: int| 0 <= j < i ==> (#[trigger] topology@[j]).name != iface@,
        decreases list@.len() - i,
    {
        assert(topology@[i as int] == list@[i as int]@);
        if list[i].name == wanted {
            return Ok(list[i].name.clone());
        }
        i += 1;
    }
    Err(PolicyError::UnknownInterface)
}

impl SetInterfaceRateLimitRequest {
    /// The rates that the request asks for.
    pub open spec fn rates(self) -> RateKbps {
        RateKbps {
            down_v4_kbps: self.down_v4_kbps,
            down_v6_kbps: self.down_v6_kbps,
            up_v4_kbps: self.up_v4_kbps,
            up_v6_kbps: self.up_v6_kbps,
        }
    }

    fn limit(&self) -> (r: RateLimitValue)
        ensures
            r == limit_of(self.rates()),
    {
        to_limit(
            RateKbps {
                down_v4_kbps: self.down_v4_kbps,
                down_v6_kbps: self.down_v6_kbps,
                up_v4_kbps: self.up_v4_kbps,
                up_v6_kbps: self.up_v6_kbps,
            },
        )
    }
}

impl Ranked for InterfaceRateLimitApi {
    /// By the name.
    open spec fn precedes(self, other: Self) -> bool {
        text_less(self.iface@, other.iface@)
    }

    proof fn asymmetric(a: Self, b: Self) {
        lemma_text_less_total(a.iface@, b.iface@);
    }

    proof fn cotransitive(a: Self, b: Self, c: Self) {
        lemma_text_less_total(a.iface@, b.iface@);
        if text_less(b.iface@, a.iface@) {
            lemma_text_less_transitive(b.iface@, a.iface@, c.iface@);
        }
    }

    fn comes_before(&self, other: &Self) -> (r: bool) {
        less(self.iface.as_str(), other.iface.as_str())
    }
}

/// The shown limits over plain values.
pub open spec fn limit_views(v: Seq<InterfaceRateLimitApi>) -> Seq<(Seq<char>, RateKbps)> {
    v.map_values(|x: InterfaceRateLimitApi| x@)
}

/// The limits of interfaces as they are shown.
pub open spec fn limits_shown(entries: Seq<(String, RateLimitValue)>) -> Seq<(Seq<char>, RateKbps)> {
    entries.map_values(|e: (String, RateLimitValue)| (e.0@, rates_of(e.1)))
}

fn list_limits(limits: &Table<String, RateLimitValue>) -> (r: Vec<InterfaceRateLimitApi>)
    ensures
        ordered(r@),
        limit_views(r@).to_multiset() == limits_shown(limits.entries@).to_multiset(),
{
    let mut list: Vec<InterfaceRateLimitApi> = Vec::new();
    let ghost all = limits_shown(limits.entries@);
    let mut i: usize = 0;
    assert(limit_views(list@) =~= all.take(0));
    while i < limits.entries.len()
        invariant
            i <= limits.entries@.len(),
            all == limits_shown(limits.entries@),
            limit_views(list@) == all.take(i as int),
        decreases limits.entries@.len() - i,
    {
        let ghost before = limit_views(list@);
        let e = &limits.entries[i];
        let k = to_rates(&e.1);
        let x = InterfaceRateLimitApi {
            iface: e.0.clone(),
            down_v4_kbps: k.down_v4_kbps,
            down_v6_kbps: k.down_v6_kbps,
            up_v4_kbps: k.up_v4_kbps,
            up_v6_kbps: k.up_v6_kbps,
        };
        let ghost xv = x@;
        list.push(x);
        assert(limit_views(list@) =~= before.push(xv));
        assert(all.take(i + 1) =~= all.take(i as int).push(all[i as int]));
        i += 1;
    }
    assert(all.take(i as int) =~= all);
    let ghost unsorted = list@;
    let r = arrange(list);
    proof {
        law_arranged_is_ordered(unsorted);
        lemma_same_mapped(r@, unsorted, |x: InterfaceRateLimitApi| x@);
    }
    r
}

/// The limits of interfaces, by name.
pub fn get_iface_limits(runtime: &PolicyRuntime) -> (r: Vec<InterfaceRateLimitApi>)
    ensures
        ordered(r@),
        limit_views(r@).to_multiset() == limits_shown(
            runtime.iface_limits.entries@,
        ).to_multiset(),
{
    list_limits(&runtime.iface_limits)
}

/// The limits for guests, by name.
pub fn get_guest_defaults(runtime: &PolicyRuntime) -> (r: Vec<InterfaceRateLimitApi>)
    ensures
        ordered(r@),
        limit_views(r@).to_multiset() == limits_shown(
            runtime.guest_default_limits.entries@,
        ).to_multiset(),
{
    list_limits(&runtime.guest_default_limits)
}

impl PolicyRuntime {
    /// Nothing but the limits of interfaces differs.
    pub open spec fn same_but_iface_limits(self, other: Self) -> bool {
        &&& self.base == other.base
        &&& self.guest_default_limits == other.guest_default_limits
        &&& self.guest_whitelist == other.guest_whitelist
        &&& self.scheduled_rules == other.scheduled_rules
    }

    /// Nothing but what concerns guests differs.
    pub open spec fn same_but_guests(self, other: Self) -> bool {
        &&& self.base == other.base
        &&& self.iface_limits == other.iface_limits
        &&& self.scheduled_rules == other.scheduled_rules
    }
}

/// Limits an interface.
pub fn set_iface_limit(
    runtime: &mut PolicyRuntime,
    req: SetInterfaceRateLimitRequest,
    topology: &TopologySnapshot,
) -> (r: Result<(), PolicyError>)
    requires
        old(runtime).wf(),
    ensures
        final(runtime).wf(),
        if knows_name(topology@, req.iface@) {
            &&& r is Ok
            &&& final(runtime).iface_limits@ == old(runtime).iface_limits@.insert(
                req.iface@,
                limit_of(req.rates()),
            )
            &&& final(runtime).same_but_iface_limits(*old(runtime))
        } else {
            r == Err::<(), PolicyError>(PolicyError::UnknownInterface) && *final(runtime) == *old(
                runtime,
            )
        },
{
    match resolve_iface_name(req.iface.as_str(), topology) {
        Ok(name) => {
            runtime.iface_limits.insert(name, req.limit());
            Ok(())
        },
        Err(e) => Err(e),
    }
}

/// Lifts the limit of an interface.
pub fn delete_iface_limit(runtime: &mut PolicyRuntime, iface: &str) -> (r: Result<(), PolicyError>)
    requires
        old(runtime).wf(),
    ensures
        final(runtime).wf(),
        final(runtime).iface_limits@ == old(runtime).iface_limits@.remove(iface@),
        final(runtime).same_but_iface_limits(*old(runtime)),
        r == if old(runtime).iface_limits@.dom().contains(iface@) {
            Ok::<(), PolicyError>(())
        } else {
            Err(PolicyError::UnknownInterfaceLimit)
        },
{
    match runtime.iface_limits.remove(&copy_text(iface)) {
        Some(_) => Ok(()),
        None => Err(PolicyError::UnknownInterfaceLimit),
    }
}

/// Limits the guests on an interface.
pub fn set_guest_default(
    runtime: &mut PolicyRuntime,
    req: SetInterfaceRateLimitRequest,
    topology: &TopologySnapshot,
) -> (r: Result<(), PolicyError>)
    requires
        old(runtime).wf(),
    ensures
        final(runtime).wf(),
        if knows_name(topology@, req.iface@) {
            &&& r is Ok
            &&& final(runtime).guest_default_limits@ == old(runtime).guest_default_limits@.insert(
                req.iface@,
                limit_of(req.rates()),
            )
            &&& final(runtime).guest_whitelist == old(runtime).guest_whitelist
            &&& final(runtime).same_but_guests(*old(runtime))
        } else {
            r == Err::<(), PolicyError>(PolicyError::UnknownInterface) && *final(runtime) == *old(
                runtime,
            )
        },
{
    match resolve_iface_name(req.iface.as_str(), topology) {
        Ok(name) => {
            runtime.guest_default_limits.insert(name, req.limit());
            Ok(())
        },
        Err(e) => Err(e),
    }
}

/// The exempt devices that are not on an interface.
pub open spec fn not_on(
    m: Map<(Seq<char>, Seq<u8>), ()>,
    iface: Seq<char>,
) -> Map<(Seq<char>, Seq<u8>), ()> {
    Map::new(|k: (Seq<char>, Seq<u8>)| m.dom().contains(k) && k.0 != iface, |k| m[k])
}

fn drop_exempt(list: &mut Table<(String, [u8; 6]), ()>, iface: &str)
    requires
        old(list).wf(),
    ensures
        final(list).wf(),
        final(list)@ == not_on(old(list)@, iface@),
{
    let wanted = copy_text(iface);
    let ghost before = list@;
    let mut i: usize = 0;
    while i < list.entries.len()
        invariant
            i <= list.entries@.len(),
            list.wf(),
            wanted@ == iface@,
            forall|k: (Seq<char>, Seq<u8>)| #[trigger]
                list@.dom().contains(k) ==> before.dom().contains(k) && list@[k] == before[k],
            forall|k: (Seq<char>, Seq<u8>)| #[trigger]
                before.dom().contains(k) && k.0 != iface@ ==> list@.dom().contains(k),
            forall|j: int| 0 <= j < i ==> (#[trigger] list.entries@[j]).0.0@ != iface@,
        decreases list.entries@.len() - i,
    {
        let ghost now = *list;
        assert(list.entries@[i as int].0@ == (
            list.entries@[i as int].0.0@,
            list.entries@[i as int].0.1@,
        ));
        if list.entries[i].0.0 == wanted {
            list.remove_at(i);
            assert forall|j: int| 0 <= j < i implies (#[trigger] list.entries@[j]).0.0@ != iface@ by {
                assert(list.entries@[j] == now.entries@[j]);
            }
        } else {
            i += 1;
        }
    }
    assert forall|k: (Seq<char>, Seq<u8>)| #[trigger] list@.dom().contains(k) implies k.0
        != iface@ by {
        let p = list.place(k);
        assert(list.entries@[p].0@ == k);
    }
    assert(list@ =~= not_on(before, iface@));
}

/// Lifts the limit of the guests on an interface. No device is exempt there any
/// more.
pub fn delete_guest_default(runtime: &mut PolicyRuntime, iface: &str) -> (r: Result<(), PolicyError>)
    requires
        old(runtime).wf(),
    ensures
        final(runtime).wf(),
        if old(runtime).guest_default_limits@.dom().contains(iface@) {
            &&& r is Ok
            &&& final(runtime).guest_default_limits@ == old(runtime).guest_default_limits@.remove(
                iface@,
            )
            &&& final(runtime).guest_whitelist@ == not_on(old(runtime).guest_whitelist@, iface@)
            &&& final(runtime).same_but_guests(*old(runtime))
        } else {
            &&& r == Err::<(), PolicyError>(PolicyError::UnknownGuestDefault)
            &&& *final(runtime) == *old(runtime)
        },
{
    match runtime.guest_default_limits.find(&copy_text(iface)) {
        Some(i) => {
            runtime.guest_default_limits.remove_at(i);
            drop_exempt(&mut runtime.guest_whitelist, iface);
            Ok(())
        },
        None => Err(PolicyError::UnknownGuestDefault),
    }
}

impl Ranked for GuestWhitelistEntryApi {
    /// By the name, then by the address.
    open spec fn precedes(self, other: Self) -> bool {
        text_less(self.iface@, other.iface@) || self.iface@ == other.iface@ && text_less(
            self.mac@,
            other.mac@,
        )
    }

    proof fn asymmetric(a: Self, b: Self) {
        lemma_text_less_total(a.iface@, b.iface@);
        lemma_text_less_total(a.mac@, b.mac@);
    }

    proof fn cotransitive(a: Self, b: Self, c: Self) {
        lemma_text_less_total(a.iface@, b.iface@);
        lemma_text_less_total(a.mac@, b.mac@);
        lemma_text_less_total(b.iface@, c.iface@);
        lemma_text_less_total(b.mac@, c.mac@);
        if text_less(b.iface@, a.iface@) && text_less(a.iface@, c.iface@) {
            lemma_text_less_transitive(b.iface@, a.iface@, c.iface@);
        }
        if text_less(b.mac@, a.mac@) && text_less(a.mac@, c.mac@) {
            lemma_text_less_transitive(b.mac@, a.mac@, c.mac@);
        }
    }

    fn comes_before(&self, other: &Self) -> (r: bool) {
        less(self.iface.as_str(), other.iface.as_str()) || (self.iface == other.iface && less(
            self.mac.as_str(),
            other.mac.as_str(),
        ))
    }
}

/// The shown exempt devices over plain values.
pub open spec fn exempt_views(v: Seq<GuestWhitelistEntryApi>) -> Seq<(Seq<char>, Seq<char>)> {
    v.map_values(|x: GuestWhitelistEntryApi| x@)
}

/// The exempt devices as they are shown.
pub open spec fn exempt_shown(entries: Seq<((String, [u8; 6]), ())>) -> Seq<(Seq<char>, Seq<char>)> {
    entries.map_values(|e: ((String, [u8; 6]), ())| (e.0.0@, mac_text(e.0.1@)))
}

/// The devices that the limits for guests spare, by name and address.
pub fn get_guest_whitelist(runtime: &PolicyRuntime) -> (r: Vec<GuestWhitelistEntryApi>)
    ensures
        ordered(r@),
        exempt_views(r@).to_multiset() == exempt_shown(
            runtime.guest_whitelist.entries@,
        ).to_multiset(),
{
    let mut list: Vec<GuestWhitelistEntryApi> = Vec::new();
    let entries = &runtime.guest_whitelist.entries;
    let ghost all = exempt_shown(entries@);
    let mut i: usize = 0;
    assert(exempt_views(list@) =~= all.take(0));
    while i < entries.len()
        invariant
            i <= entries@.len(),
            all == exempt_shown(entries@),
            exempt_views(list@) == all.take(i as int),
        decreases entries@.len() - i,
    {
        let ghost before = exempt_views(list@);
        let e = &entries[i].0;
        let x = GuestWhitelistEntryApi { iface: e.0.clone(), mac: mac::to_string(&e.1) };
        let ghost xv = x@;
        list.push(x);
        assert(exempt_views(list@) =~= before.push(xv));
        assert(all.take(i + 1) =~= all.take(i as int).push(all[i as int]));
        i += 1;
    }
    assert(all.take(i as int) =~= all);
    let ghost unsorted = list@;
    let r = arrange(list);
    proof {
        law_arranged_is_ordered(unsorted);
        lemma_same_mapped(r@, unsorted, |x: GuestWhitelistEntryApi| x@);
    }
    r
}

/// Spares a device on an interface.
pub fn add_guest_whitelist(
    runtime: &mut PolicyRuntime,
    req: GuestWhitelistEntryRequest,
    topology: &TopologySnapshot,
) -> (r: Result<(), PolicyError>)
    requires
        old(runtime).wf(),
    ensures
        final(runtime).wf(),
        if !knows_name(topology@, req.iface@) {
            r == Err::<(), PolicyError>(PolicyError::UnknownInterface) && *final(runtime) == *old(
                runtime,
            )
        } else {
            match mac_read(req.mac@) {
                Ok(m) => {
                    &&& r is Ok
                    &&& final(runtime).guest_whitelist@ == old(runtime).guest_whitelist@.insert(
                        (req.iface@, m),
                        (),
                    )
                    &&& final(runtime).guest_default_limits == old(runtime).guest_default_limits
                    &&& final(runtime).same_but_guests(*old(runtime))
                },
                Err(e) => r == Err::<(), PolicyError>(e) && *final(runtime) == *old(runtime),
            }
        },
{
    let name = match resolve_iface_name(req.iface.as_str(), topology) {
        Ok(name) => name,
        Err(e) => return Err(e),
    };
    match read_mac(req.mac.as_str()) {
        Ok(m) => {
            runtime.guest_whitelist.insert((name, m), ());
            Ok(())
        },
        Err(e) => Err(e),
    }
}

/// Spares a device on an interface no longer.
pub fn remove_guest_whitelist(runtime: &mut PolicyRuntime, req: GuestWhitelistEntryRequest) -> (r:
    Result<(), PolicyError>)
    requires
        old(runtime).wf(),
    ensures
        final(runtime).wf(),
        match mac_read(req.mac@) {
            Ok(m) => {
                &&& r == if old(runtime).guest_whitelist@.dom().contains((req.iface@, m)) {
                    Ok::<(), PolicyError>(())
                } else {
                    Err(PolicyError::UnknownWhitelistEntry)
                }
                &&& final(runtime).guest_whitelist@ == old(runtime).guest_whitelist@.remove(
                    (req.iface@, m),
                )
                &&& final(runtime).guest_default_limits == old(runtime).guest_default_limits
                &&& final(runtime).same_but_guests(*old(runtime))
            },
            Err(e) => r == Err::<(), PolicyError>(e) && *final(runtime) == *old(runtime),
        },
{
    match read_mac(req.mac.as_str()) {
        Ok(m) => {
            let key = (req.iface.clone(), m);
            assert(key@ == (req.iface@, m@));
            match runtime.guest_whitelist.remove(&key) {
                Some(_) => Ok(()),
                None => Err(PolicyError::UnknownWhitelistEntry),
            }
        },
        Err(e) => Err(e),
    }
}

/// The row of a limit.
pub open spec fn item(
    scope: Seq<char>,
    iface: Option<Seq<char>>,
    mac: Option<Seq<char>>,
    limit: RateLimitValue,
    extra: Option<Seq<char>>,
) -> ItemModel {
    ItemModel { scope, iface, mac, rates: rates_of(limit), extra }
}

/// The note on the row of a scheduled limit.
pub open spec fn schedule_note(rule: RuleModel) -> Seq<char> {
    "scheduled id="@ + rule.id + " "@ + time_text(rule.start_minute) + "-"@ + time_text(
        rule.end_minute,
    )
}

/// The rows of the limits that hold from the start.
pub open spec fn static_items(entries: Seq<([u8; 6], RateLimitValue)>) -> Seq<ItemModel> {
    entries.map_values(
        |e: ([u8; 6], RateLimitValue)|
            item("device"@, None, Some(mac_text(e.0@)), e.1, Some("static"@)),
    )
}

/// The rows of the scheduled limits.
pub open spec fn rule_items(rules: Seq<RuleModel>) -> Seq<ItemModel> {
    rules.map_values(
        |x: RuleModel|
            item("device"@, None, Some(mac_text(x.mac)), x.limit, Some(schedule_note(x))),
    )
}

/// The rows of limits of interfaces.
pub open spec fn iface_items(entries: Seq<(String, RateLimitValue)>, scope: Seq<char>) -> Seq<
    ItemModel,
> {
    entries.map_values(
        |e: (String, RateLimitValue)| item(scope, Some(e.0@), None, e.1, None),
    )
}

/// The shown rows over plain values.
pub open spec fn item_views(v: Seq<PolicyItem>) -> Seq<ItemModel> {
    v.map_values(|x: PolicyItem| x@)
}

fn make_item(
    scope: &str,
    iface: Option<String>,
    mac: Option<String>,
    limit: &RateLimitValue,
    extra: Option<String>,
) -> (r: PolicyItem)
    ensures
        r@ == item(
            scope@,
            match iface {
                Some(s) => Some(s@),
                None => None,
            },
            match mac {
                Some(s) => Some(s@),
                None => None,
            },
            *limit,
            match extra {
                Some(s) => Some(s@),
                None => None,
            },
        ),
{
    let k = to_rates(limit);
    PolicyItem {
        scope: copy_text(scope),
        iface,
        mac,
        down_v4_kbps: k.down_v4_kbps,
        down_v6_kbps: k.down_v6_kbps,
        up_v4_kbps: k.up_v4_kbps,
        up_v6_kbps: k.up_v6_kbps,
        extra,
    }
}

fn note_of(rule: &ScheduledRule) -> (r: String)
    ensures
        r@ == schedule_note(rule@),
{
    let mut r = copy_text("scheduled id=");
    r.push_str(rule.id.as_str());
    r.push_str(" ");
    r.push_str(minute_to_hhmm(rule.start_minute).as_str());
    r.push_str("-");
    r.push_str(minute_to_hhmm(rule.end_minute).as_str());
    r
}

fn push_static_items(rows: &mut Vec<PolicyItem>, limits: &Table<[u8; 6], RateLimitValue>)
    ensures
        item_views(final(rows)@) == item_views(old(rows)@) + static_items(limits.entries@),
{
    let ghost start = item_views(rows@);
    let ghost all = static_items(limits.entries@);
    let mut i: usize = 0;
    assert(item_views(rows@) =~= start + all.take(0));
    while i < limits.entries.len()
        invariant
            i <= limits.entries@.len(),
            all == static_items(limits.entries@),
            item_views(rows@) == start + all.take(i as int),
        decreases limits.entries@.len() - i,
    {
        let ghost before = item_views(rows@);
        let e = &limits.entries[i];
        let x = make_item(
            "device",
            None,
            Some(mac::to_string(&e.0)),
            &e.1,
            Some(copy_text("static")),
        );
        let ghost xv = x@;
        rows.push(x);
        assert(item_views(rows@) =~= before.push(xv));
        assert(before.push(all[i as int]) =~= start + all.take(i + 1));
        i += 1;
    }
    assert(all.take(i as int) =~= all);
}

fn push_rule_items(rows: &mut Vec<PolicyItem>, rules: &Vec<ScheduledRule>)
    ensures
        item_views(final(rows)@) == item_views(old(rows)@) + rule_items(rule_views(rules@)),
{
    let ghost start = item_views(rows@);
    let ghost all = rule_items(rule_views(rules@));
    let mut i: usize = 0;
    assert(item_views(rows@) =~= start + all.take(0));
    while i < rules.len()
        invariant
            i <= rules@.len(),
            all == rule_items(rule_views(rules@)),
            item_views(rows@) == start + all.take(i as int),
        decreases rules@.len() - i,
    {
        let ghost before = item_views(rows@);
        let e = &rules[i];
        let x = make_item(
            "device",
            None,
            Some(mac::to_string(&e.mac)),
            &e.limit,
            Some(note_of(e)),
        );
        let ghost xv = x@;
        rows.push(x);
        assert(item_views(rows@) =~= before.push(xv));
        assert(before.push(all[i as int]) =~= start + all.take(i + 1));
        i += 1;
    }
    assert(all.take(i as int) =~= all);
}

fn push_iface_items(
    rows: &mut Vec<PolicyItem>,
    limits: &Table<String, RateLimitValue>,
    scope: &str,
)
    ensures
        item_views(final(rows)@) == item_views(old(rows)@) + iface_items(limits.entries@, scope@),
{
    let ghost start = item_views(rows@);
    let ghost all = iface_items(limits.entries@, scope@);
    let mut i: usize = 0;
    assert(item_views(rows@) =~= start + all.take(0));
    while i < limits.entries.len()
        invariant
            i <= limits.entries@.len(),
            all == iface_items(limits.entries@, scope@),
            item_views(rows@) == start + all.take(i as int),
        decreases limits.entries@.len() - i,
    {
        let ghost before = item_views(rows@);
        let e = &limits.entries[i];
        let x = make_item(scope, Some(e.0.clone()), None, &e.1, None);
        let ghost xv = x@;
        rows.push(x);
        assert(item_views(rows@) =~= before.push(xv));
        assert(before.push(all[i as int]) =~= start + all.take(i + 1));
        i += 1;
    }
    assert(all.take(i as int) =~= all);
}

/// The whole policy in rows: the limits that hold from the start, the scheduled
/// ones, those of interfaces and those for guests.
pub fn policy_items(runtime: &PolicyRuntime) -> (r: Vec<PolicyItem>)
    ensures
        item_views(r@) == static_items(runtime.base.device_static.entries@) + rule_items(
            rule_views(runtime.scheduled_rules@),
        ) + iface_items(runtime.iface_limits.entries@, "iface"@) + iface_items(
            runtime.guest_default_limits.entries@,
            "guest-default"@,
        ),
{
    let mut rows: Vec<PolicyItem> = Vec::new();
    assert(item_views(rows@) =~= Seq::empty());
    push_static_items(&mut rows, &runtime.base.device_static);
    assert(item_views(rows@) =~= static_items(runtime.base.device_static.entries@));
    push_rule_items(&mut rows, &runtime.scheduled_rules);
    push_iface_items(&mut rows, &runtime.iface_limits, "iface");
    push_iface_items(&mut rows, &runtime.guest_default_limits, "guest-default");
    rows
}

/// What is shown of a rule, asked for again, makes the same rule, where its rates fit
/// into a limit.
pub proof fn law_shown_rule_is_read_again(
    id: Seq<char>,
    mac: Seq<char>,
    slot: SlotModel,
    rates: RateKbps,
    rule: RuleModel,
)
    requires
        rule_read(id, mac, slot, rates) == Ok::<RuleModel, PolicyError>(rule),
        rates.down_v4_kbps * 1000 <= u64::MAX,
        rates.down_v6_kbps * 1000 <= u64::MAX,
        rates.up_v4_kbps * 1000 <= u64::MAX,
        rates.up_v6_kbps * 1000 <= u64::MAX,
    ensures
        shown(rule).rates == rates,
        rule_read(id, shown(rule).mac, shown(rule).time_slot, shown(rule).rates) == Ok::<
            RuleModel,
            PolicyError,
        >(rule),
{
    law_mac_roundtrip(rule.mac);
    law_slot_roundtrip(slot, rule.start_minute, rule.end_minute, rule.days_mask);
    law_rate_roundtrip(rates.down_v4_kbps);
    law_rate_roundtrip(rates.down_v6_kbps);
    law_rate_roundtrip(rates.up_v4_kbps);
    law_rate_roundtrip(rates.up_v6_kbps);
}

/// Of a deleted rule nothing is left, and every rule with another identifier stays.
pub proof fn law_deleted_rule_is_gone(rules: Seq<RuleModel>, id: Seq<char>, rule: RuleModel)
    ensures
        without_rule(rules, id).contains(rule) <==> rules.contains(rule) && rule.id != id,
    decreases rules.len(),
{
    let left = without_rule(rules, id);
    if rules.len() > 0 {
        let before = rules.drop_last();
        law_deleted_rule_is_gone(before, id, rule);
        let rest = without_rule(before, id);
        assert(rules =~= before.push(rules.last()));
        if before.contains(rule) {
            let i = choose|i: int| 0 <= i < before.len() && before[i] == rule;
            assert(rules[i] == rule);
        }
        if rules.contains(rule) {
            let i = choose|i: int| 0 <= i < rules.len() && rules[i] == rule;
            if i < before.len() {
                assert(before[i] == rule);
            }
        }
        if rules.last().id != id {
            assert(left[rest.len() as int] == rules.last());
            if rest.contains(rule) {
                let i = choose|i: int| 0 <= i < rest.len() && rest[i] == rule;
                assert(left[i] == rule);
            }
            if left.contains(rule) {
                let i = choose|i: int| 0 <= i < left.len() && left[i] == rule;
                if i < rest.len() {
                    assert(rest[i] == rule);
                }
            }
        }
    }
}

proof fn lemma_without_none(rules: Seq<RuleModel>, id: Seq<char>)
    requires
        forall|i: int| 0 <= i < rules.len() ==> (#[trigger] rules[i]).id != id,
    ensures
        without_rule(rules, id) == rules,
    decreases rules.len(),
{
    if rules.len() > 0 {
        let before = rules.drop_last();
        assert forall|i: int| 0 <= i < before.len() implies (#[trigger] before[i]).id != id by {
            assert(before[i] == rules[i]);
        }
        lemma_without_none(before, id);
        assert(before.push(rules.last()) =~= rules);
    }
}

/// Deleting a rule that was just created leaves the rules as they were before, in their
/// order. No earlier rule may have its identifier: it would be deleted with it.
pub proof fn law_created_rule_is_deleted_alone(
    rules: Seq<RuleModel>,
    id: Seq<char>,
    mac: Seq<char>,
    slot: SlotModel,
    rates: RateKbps,
)
    requires
        rule_read(id, mac, slot, rates) is Ok,
        forall|i: int| 0 <= i < rules.len() ==> (#[trigger] rules[i]).id != id,
    ensures
        without_rule(rules.push(rule_read(id, mac, slot, rates)->Ok_0), id) == rules,
{
    let rule = rule_read(id, mac, slot, rates)->Ok_0;
    lemma_without_none(rules, id);
    assert(rules.push(rule).drop_last() =~= rules);
}

/// The line that tells the limit that a device has from the start.
pub open spec fn start_line(mac: Seq<u8>, k: RateKbps) -> Seq<char> {
    "policy.startup.device mac="@ + mac_text(mac) + " down(v4/v6)_kbps="@ + dec(
        k.down_v4_kbps as nat,
    ) + "/"@ + dec(k.down_v6_kbps as nat) + " up(v4/v6)_kbps="@ + dec(k.up_v4_kbps as nat) + "/"@
        + dec(k.up_v6_kbps as nat)
}

/// The lines that tell the limits that hold from the start.
pub open spec fn start_lines(entries: Seq<([u8; 6], RateLimitValue)>) -> Seq<Seq<char>> {
    if entries.len() == 0 {
        seq!["policy.startup.begin"@, "policy.startup.empty"@]
    } else {
        seq!["policy.startup.begin"@] + Seq::new(
            entries.len(),
            |i: int| start_line(entries[i].0@, rates_of(entries[i].1)),
        )
    }
}

fn start_line_of(mac: &[u8; 6], limit: &RateLimitValue) -> (r: String)
    ensures
        r@ == start_line(mac@, rates_of(*limit)),
{
    let k = to_rates(limit);
    let mut line = copy_text("policy.startup.device mac=");
    line.push_str(mac::to_string(mac).as_str());
    line.push_str(" down(v4/v6)_kbps=");
    line.push_str(decimal(k.down_v4_kbps).as_str());
    line.push_str("/");
    line.push_str(decimal(k.down_v6_kbps).as_str());
    line.push_str(" up(v4/v6)_kbps=");
    line.push_str(decimal(k.up_v4_kbps).as_str());
    line.push_str("/");
    line.push_str(decimal(k.up_v6_kbps).as_str());
    line
}

/// The lines of the log that tell the limits that hold from the start.
pub fn log_policy(policy: &ParsedPolicy) -> (r: Vec<String>)
    ensures
        views(r@) == start_lines(policy.device_static.entries@),
{
    let ghost entries = policy.device_static.entries@;
    let ghost all = start_lines(entries);
    let mut r: Vec<String> = Vec::new();
    r.push(copy_text("policy.startup.begin"));
    if policy.device_static.entries.len() == 0 {
        r.push(copy_text("policy.startup.empty"));
        assert(views(r@) =~= all);
        return r;
    }
    assert(views(r@) =~= all.take(1));
    let mut i: usize = 0;
    while i < policy.device_static.entries.len()
        invariant
            i <= entries.len(),
            entries.len() > 0,
            entries == policy.device_static.entries@,
            all == start_lines(entries),
            views(r@) == all.take(i + 1),
        decreases entries.len() - i,
    {
        let ghost before = views(r@);
        let line = start_line_of(
            &policy.device_static.entries[i].0,
            &policy.device_static.entries[i].1,
        );
        let ghost lv = line@;
        assert(all[i + 1] == lv);
        r.push(line);
        assert(views(r@) =~= before.push(lv));
        assert(all.take(i + 2) =~= all.take(i + 1).push(all[i + 1]));
        i += 1;
    }
    assert(all.take(i + 1) =~= all);
    r
}

} // verus!

//! What the operator asked for, read out of the environment.

use crate::addresses::read_address;
use crate::clock::{clamp, MILLISECOND};
use crate::text::{alike, read_number, split, trim, write_number, NumberFault};
use vstd::prelude::*;

verus! {

pub const ENV_LOG: &'static str = "RUST_LOG";

pub const ENV_ENTRYPOINT: &'static str = "ENTRYPOINT";

pub const ENV_ADVERTISE_IP: &'static str = "ADVERTISE_IP";

pub const ENV_GOSSIP_PORT: &'static str = "GOSSIP_PORT";

pub const ENV_PORT_RANGE_MIN: &'static str = "PORT_RANGE_MIN";

pub const ENV_PORT_RANGE_MAX: &'static str = "PORT_RANGE_MAX";

pub const ENV_TVU_RECEIVE_SOCKETS: &'static str = "TVU_RECEIVE_SOCKETS";

pub const ENV_TVU_RETRANSMIT_SOCKETS: &'static str = "TVU_RETRANSMIT_SOCKETS";

pub const ENV_QUIC_ENDPOINTS: &'static str = "QUIC_ENDPOINTS";

pub const ENV_CHECK_DUPLICATE_INSTANCE: &'static str = "CHECK_DUPLICATE_INSTANCE";

pub const ENV_GOSSIP_STATS_INTERVAL_SECS: &'static str = "GOSSIP_STATS_INTERVAL_SECS";

pub const ENV_SLOT_RETENTION: &'static str = "SLOT_RETENTION";

pub const ENV_SNIPE_PROGRAM: &'static str = "SNIPE_PROGRAM";

pub const ENV_SEARCHER_WALLETS: &'static str = "SEARCHER_WALLETS";

pub const ENV_TARGET_WALLETS: &'static str = "TARGET_WALLETS";

pub const ENV_NODE_KEYPAIR: &'static str = "NODE_KEYPAIR";

pub const ENV_RPC_URL: &'static str = "RPC_URL";

pub const ENV_SEARCHER_KEYPAIR: &'static str = "SEARCHER_KEYPAIR";

pub const ENV_MEMO_PROGRAM: &'static str = "MEMO_PROGRAM";

pub const ENV_FIRE_MEMO: &'static str = "FIRE_MEMO";

pub const ENV_FIRE_COOLDOWN_MS: &'static str = "FIRE_COOLDOWN_MS";

pub const ENV_METRICS_ENABLED: &'static str = "METRICS_ENABLED";

pub const ENV_LOGS_ENABLED: &'static str = "LOGS_ENABLED";

pub const ENV_OTLP_ENDPOINT: &'static str = "OTEL_EXPORTER_OTLP_ENDPOINT";

pub const ENV_SERVICE_NAME: &'static str = "OTEL_SERVICE_NAME";

pub const ENV_METRICS_EXPORT_INTERVAL_SECS: &'static str = "METRICS_EXPORT_INTERVAL_SECS";

pub const ENV_METRICS_EXPORT_TIMEOUT_SECS: &'static str = "METRICS_EXPORT_TIMEOUT_SECS";

pub const DEFAULT_LOG: &'static str = "shred_sniper=info";

pub const DEFAULT_ENTRYPOINT: &'static str = "172.28.0.11:8001";

pub const DEFAULT_ADVERTISE_IP: &'static str = "172.28.0.1";

pub const DEFAULT_GOSSIP_PORT: &'static str = "8001";

pub const DEFAULT_PORT_RANGE_MIN: &'static str = "8100";

pub const DEFAULT_PORT_RANGE_MAX: &'static str = "8200";

pub const DEFAULT_TVU_RECEIVE_SOCKETS: &'static str = "4";

pub const DEFAULT_TVU_RETRANSMIT_SOCKETS: &'static str = "1";

pub const DEFAULT_QUIC_ENDPOINTS: &'static str = "1";

pub const DEFAULT_CHECK_DUPLICATE_INSTANCE: &'static str = "true";

pub const DEFAULT_GOSSIP_STATS_INTERVAL_SECS: &'static str = "5";

pub const DEFAULT_SLOT_RETENTION: &'static str = "64";

pub const DEFAULT_RPC_URL: &'static str = "http://172.28.0.11:8899";

/// The SPL memo program, in its second version:
/// `MemoSq4gqABAXKb96qnH8TysNcWxMyWCqXgDLGmfcHr`.
pub const DEFAULT_MEMO_PROGRAM: [u8; 32] = [
    5,
    74,
    83,
    90,
    153,
    41,
    33,
    6,
    77,
    36,
    232,
    113,
    96,
    218,
    56,
    124,
    124,
    53,
    181,
    221,
    188,
    146,
    187,
    129,
    228,
    31,
    168,
    64,
    65,
    5,
    68,
    141,
];

pub const DEFAULT_FIRE_MEMO: &'static str = "sniped";

pub const DEFAULT_FIRE_COOLDOWN_MS: &'static str = "300";

pub const DEFAULT_METRICS_ENABLED: &'static str = "true";

pub const DEFAULT_LOGS_ENABLED: &'static str = "true";

pub const DEFAULT_OTLP_ENDPOINT: &'static str = "http://otel-collector:4318";

pub const DEFAULT_SERVICE_NAME: &'static str = "shred-sniper";

pub const DEFAULT_METRICS_EXPORT_INTERVAL_SECS: &'static str = "5";

pub const DEFAULT_METRICS_EXPORT_TIMEOUT_SECS: &'static str = "5";

/// `SLOT_RETENTION` is expressed in slots because that is how the operator
/// thinks about it, but buffers age out on the clock, so it is converted once
/// here at the cluster's slot time.
pub const SLOT_DURATION: u64 = 400 * MILLISECOND;

/// The OTLP exporter's own HTTP stack emits tracing events, and those events are
/// then shipped out through that same exporter: under any filter looser than the
/// default it feeds itself and never settles. Silencing those targets is what
/// breaks the loop, and it is appended rather than prepended so that it holds
/// even when `RUST_LOG` names them.
pub const EXPORTER_NOISE: &'static str =
    "hyper=off,hyper_util=off,reqwest=off,h2=off,tower=off,opentelemetry=off,opentelemetry_sdk=off";

/// One variable of the environment.
pub struct Setting {
    pub name: String,
    pub value: String,
}

/// A setting that cannot be used, and why.
pub struct ConfigError {
    pub name: &'static str,
    pub value: String,
    pub reason: String,
}

/// What a [`ConfigError`] says.
#[verifier::ext_equal]
pub struct Fault {
    pub name: Seq<char>,
    pub value: Seq<char>,
    pub reason: Seq<char>,
}

impl View for ConfigError {
    type V = Fault;

    open spec fn view(&self) -> Fault {
        Fault { name: self.name@, value: self.value@, reason: self.reason@ }
    }
}

impl ConfigError {
    pub fn text(&self) -> (text: String)
        ensures
            text@ == self@.name + "="@ + self@.value + ": "@ + self@.reason,
    {
        let mut text = self.name.to_owned();
        text.append("=");
        text.append(self.value.as_str());
        text.append(": ");
        text.append(self.reason.as_str());
        text
    }
}

/// The first variable from `from` on that is called `name`, or how many there
/// are.
pub open spec fn place(vars: Seq<Setting>, name: Seq<char>, from: int) -> int
    decreases vars.len() - from,
{
    if from < 0 || from >= vars.len() {
        vars.len() as int
    } else if vars[from].name@ == name {
        from
    } else {
        place(vars, name, from + 1)
    }
}

/// What a variable is set to. One that is set to nothing is not set.
pub open spec fn set_to(vars: Seq<Setting>, name: Seq<char>) -> Option<Seq<char>> {
    let at = place(vars, name, 0);
    if at < vars.len() && vars[at].value@.len() > 0 {
        Some(vars[at].value@)
    } else {
        None
    }
}

/// What goes for a setting: what it is set to, else its default.
pub open spec fn chosen(vars: Seq<Setting>, name: Seq<char>, default: Seq<char>) -> Seq<char> {
    match set_to(vars, name) {
        Some(value) => value,
        None => default,
    }
}

pub fn optional(vars: &Vec<Setting>, name: &str) -> (value: Option<String>)
    ensures
        match value {
            Some(value) => set_to(vars@, name@) == Some(value@),
            None => set_to(vars@, name@) is None,
        },
{
    let mut i: usize = 0;
    while i < vars.len()
        invariant
            i <= vars@.len(),
            place(vars@, name@, 0) == place(vars@, name@, i as int),
        decreases vars@.len() - i,
    {
        if alike(vars[i].name.as_str(), name) {
            if vars[i].value.as_str().is_empty() {
                return None;
            }
            return Some(vars[i].value.clone());
        }
        i = i + 1;
    }
    None
}

pub fn setting(vars: &Vec<Setting>, name: &str, default: &str) -> (value: String)
    ensures
        value@ == chosen(vars@, name@, default@),
{
    match optional(vars, name) {
        Some(value) => value,
        None => default.to_owned(),
    }
}

/// What the logs are filtered by.
pub fn log_filter(vars: &Vec<Setting>) -> (filter: String)
    ensures
        filter@ == chosen(vars@, ENV_LOG@, DEFAULT_LOG@) + ","@ + EXPORTER_NOISE@,
{
    let mut filter = setting(vars, ENV_LOG, DEFAULT_LOG);
    filter.append(",");
    filter.append(EXPORTER_NOISE);
    filter
}

/// The number a setting spells, where it is no larger than `most`.
pub open spec fn numeric(vars: Seq<Setting>, name: Seq<char>, default: Seq<char>, most: nat) -> Result<
    nat,
    Fault,
> {
    let value = chosen(vars, name, default);
    match crate::text::number(value, 10, most) {
        Ok(number) => Ok(number),
        Err(fault) => Err(Fault { name, value, reason: fault.said() }),
    }
}

/// The same, where it may not be zero.
pub open spec fn positive(vars: Seq<Setting>, name: Seq<char>, default: Seq<char>, most: nat) -> Result<
    nat,
    Fault,
> {
    match numeric(vars, name, default, most) {
        Ok(number) => if number == 0 {
            Err(
                Fault {
                    name,
                    value: chosen(vars, name, default),
                    reason: NumberFault::Zero.said(),
                },
            )
        } else {
            Ok(number)
        },
        Err(fault) => Err(fault),
    }
}

/// Whether a setting is on.
pub open spec fn flagged(vars: Seq<Setting>, name: Seq<char>, default: Seq<char>) -> Result<
    bool,
    Fault,
> {
    let value = chosen(vars, name, default);
    if value == "true"@ {
        Ok(true)
    } else if value == "false"@ {
        Ok(false)
    } else {
        Err(Fault { name, value, reason: "provided string was not `true` or `false`"@ })
    }
}

/// The address a value spells.
pub open spec fn addressed(name: Seq<char>, value: Seq<char>) -> Result<Seq<u8>, Fault> {
    match crate::addresses::address_spelled(value) {
        Ok(address) => Ok(address),
        Err(reason) => Err(Fault { name, value, reason }),
    }
}

/// The address a setting spells, if it is set at all.
pub open spec fn optionally_addressed(vars: Seq<Setting>, name: Seq<char>) -> Result<
    Option<Seq<u8>>,
    Fault,
> {
    match set_to(vars, name) {
        None => Ok(None),
        Some(value) => match addressed(name, value) {
            Ok(address) => Ok(Some(address)),
            Err(fault) => Err(fault),
        },
    }
}

/// The addresses the first `count` entries of a list spell, blank entries left
/// out. A single bad entry spoils the list.
pub open spec fn listed(name: Seq<char>, entries: Seq<Seq<char>>, count: int) -> Result<
    Seq<Seq<u8>>,
    Fault,
>
    decreases count,
{
    if count <= 0 {
        Ok(Seq::empty())
    } else {
        match listed(name, entries, count - 1) {
            Err(fault) => Err(fault),
            Ok(before) => {
                let entry = crate::text::trimmed(entries[count - 1]);
                if entry.len() == 0 {
                    Ok(before)
                } else {
                    match addressed(name, entry) {
                        Ok(address) => Ok(before.push(address)),
                        Err(fault) => Err(fault),
                    }
                }
            },
        }
    }
}

/// The addresses a setting lists, separated by commas.
pub open spec fn list(vars: Seq<Setting>, name: Seq<char>) -> Result<Seq<Seq<u8>>, Fault> {
    match set_to(vars, name) {
        None => Ok(Seq::empty()),
        Some(value) => {
            let entries = crate::text::parts(value, ',');
            listed(name, entries, entries.len() as int)
        },
    }
}

pub open spec fn bytes_of(addresses: Seq<[u8; 32]>) -> Seq<Seq<u8>> {
    addresses.map_values(|address: [u8; 32]| address@)
}

pub fn parse_number(vars: &Vec<Setting>, name: &'static str, default: &str, most: u64) -> (number:
    Result<u64, ConfigError>)
    ensures
        match number {
            Ok(number) => numeric(vars@, name@, default@, most as nat) == Ok::<nat, Fault>(
                number as nat,
            ) && number <= most,
            Err(error) => numeric(vars@, name@, default@, most as nat) == Err::<nat, Fault>(error@),
        },
{
    let value = setting(vars, name, default);
    match read_number(value.as_str(), 10, most) {
        Ok(number) => {
            proof {
                crate::text::numbers_are_bounded(value@, 10, most as nat);
            }
            Ok(number)
        },
        Err(fault) => Err(ConfigError { name, value, reason: fault.text().to_owned() }),
    }
}

pub fn parse_positive(vars: &Vec<Setting>, name: &'static str, default: &str) -> (number: Result<
    usize,
    ConfigError,
>)
    ensures
        match number {
            Ok(number) => number > 0 && positive(vars@, name@, default@, usize::MAX as nat) == Ok::<
                nat,
                Fault,
            >(number as nat),
            Err(error) => positive(vars@, name@, default@, usize::MAX as nat) == Err::<nat, Fault>(
                error@,
            ),
        },
{
    match parse_number(vars, name, default, usize::MAX as u64) {
        Ok(number) => if number == 0 {
            Err(
                ConfigError {
                    name,
                    value: setting(vars, name, default),
                    reason: NumberFault::Zero.text().to_owned(),
                },
            )
        } else {
            Ok(number as usize)
        },
        Err(error) => Err(error),
    }
}

pub fn parse_flag(vars: &Vec<Setting>, name: &'static str, default: &str) -> (flag: Result<
    bool,
    ConfigError,
>)
    ensures
        match flag {
            Ok(flag) => flagged(vars@, name@, default@) == Ok::<bool, Fault>(flag),
            Err(error) => flagged(vars@, name@, default@) == Err::<bool, Fault>(error@),
        },
{
    proof {
        reveal_strlit("true");
        reveal_strlit("false");
    }
    let value = setting(vars, name, default);
    if alike(value.as_str(), "true") {
        Ok(true)
    } else if alike(value.as_str(), "false") {
        Ok(false)
    } else {
        let reason = "provided string was not `true` or `false`".to_owned();
        Err(ConfigError { name, value, reason })
    }
}

fn parse_address(name: &'static str, value: String) -> (address: Result<[u8; 32], ConfigError>)
    ensures
        match address {
            Ok(address) => addressed(name@, value@) == Ok::<Seq<u8>, Fault>(address@),
            Err(error) => addressed(name@, value@) == Err::<Seq<u8>, Fault>(error@),
        },
{
    match read_address(value.as_str()) {
        Ok(address) => Ok(address),
        Err(reason) => Err(ConfigError { name, value, reason }),
    }
}

/// Like the others, but for settings that are simply off when unset. Parsing
/// here rather than at the point of use turns a typo into a startup failure
/// instead of a filter that silently never matches.
pub fn optional_parse(vars: &Vec<Setting>, name: &'static str) -> (address: Result<
    Option<[u8; 32]>,
    ConfigError,
>)
    ensures
        match address {
            Ok(Some(address)) => optionally_addressed(vars@, name@) == Ok::<Option<Seq<u8>>, Fault>(
                Some(address@),
            ),
            Ok(None) => optionally_addressed(vars@, name@) == Ok::<Option<Seq<u8>>, Fault>(None),
            Err(error) => optionally_addressed(vars@, name@) == Err::<Option<Seq<u8>>, Fault>(
                error@,
            ),
        },
{
    match optional(vars, name) {
        None => Ok(None),
        Some(value) => match parse_address(name, value) {
            Ok(address) => Ok(Some(address)),
            Err(error) => Err(error),
        },
    }
}

/// Like [`optional_parse`], but for a comma-separated list. Empty when unset; a
/// single bad entry fails startup rather than being dropped, because a typo in
/// an address would otherwise read as "that wallet simply never traded".
pub fn optional_list(vars: &Vec<Setting>, name: &'static str) -> (addresses: Result<
    Vec<[u8; 32]>,
    ConfigError,
>)
    ensures
        match addresses {
            Ok(addresses) => list(vars@, name@) == Ok::<Seq<Seq<u8>>, Fault>(
                bytes_of(addresses@),
            ),
            Err(error) => list(vars@, name@) == Err::<Seq<Seq<u8>>, Fault>(error@),
        },
{
    let mut addresses: Vec<[u8; 32]> = Vec::new();
    assert(bytes_of(addresses@) =~= Seq::empty());
    let value = match optional(vars, name) {
        None => {
            return Ok(addresses);
        },
        Some(value) => value,
    };
    let entries = split(value.as_str(), ',');
    let ghost held = crate::text::contents(entries@);
    let mut i: usize = 0;
    while i < entries.len()
        invariant
            i <= entries@.len(),
            held == crate::text::contents(entries@),
            list(vars@, name@) == listed(name@, held, held.len() as int),
            listed(name@, held, i as int) == Ok::<Seq<Seq<u8>>, Fault>(bytes_of(addresses@)),
        decreases entries@.len() - i,
    {
        assert(held[i as int] == entries@[i as int]@);
        let entry = trim(entries[i]);
        if !entry.is_empty() {
            match parse_address(name, entry.to_owned()) {
                Ok(address) => {
                    let ghost before = addresses@;
                    addresses.push(address);
                    assert(bytes_of(addresses@) =~= bytes_of(before).push(address@));
                },
                Err(error) => {
                    proof {
                        lemma_fault_stays(name@, held, i + 1, held.len() as int);
                    }
                    return Err(error);
                },
            }
        }
        i = i + 1;
    }
    Ok(addresses)
}

proof fn lemma_fault_stays(name: Seq<char>, entries: Seq<Seq<char>>, at: int, count: int)
    requires
        0 <= at <= count,
        listed(name, entries, at) is Err,
    ensures
        listed(name, entries, count) == listed(name, entries, at),
    decreases count,
{
    if at < count {
        lemma_fault_stays(name, entries, at, count - 1);
    }
}

/// Everything there is to configure. Addresses on the network are kept as they
/// were written.
pub struct Config {
    pub entrypoint: String,
    pub advertise_ip: String,
    pub gossip_port: u16,
    pub port_range: (u16, u16),
    pub tvu_receive_sockets: usize,
    pub tvu_retransmit_sockets: usize,
    pub quic_endpoints: usize,
    pub check_duplicate_instance: bool,
    /// In seconds.
    pub gossip_stats_interval: u64,
    /// In nanoseconds.
    pub retention: u64,
    pub snipe_program: Option<[u8; 32]>,
    /// Fee payers of the bot, and of the wallet it is racing.
    pub searcher_wallets: Vec<[u8; 32]>,
    pub target_wallets: Vec<[u8; 32]>,
    /// Where the gossip identity is kept; a fresh one is used without.
    pub node_keypair: Option<String>,
    pub rpc_url: String,
    /// Where the signing key is kept. Its presence is what arms firing.
    pub searcher_keypair: Option<String>,
    pub memo_program: [u8; 32],
    pub fire_memo: String,
    /// In nanoseconds.
    pub fire_cooldown: u64,
    pub metrics_enabled: bool,
    pub logs_enabled: bool,
    pub otlp_endpoint: String,
    pub service_name: String,
    /// In seconds.
    pub metrics_export_interval: u64,
    /// In seconds.
    pub metrics_export_timeout: u64,
}

/// The range of ports to use, which may not be empty.
pub open spec fn ports(vars: Seq<Setting>) -> Result<(nat, nat), Fault> {
    let low = numeric(vars, ENV_PORT_RANGE_MIN@, DEFAULT_PORT_RANGE_MIN@, u16::MAX as nat);
    let high = numeric(vars, ENV_PORT_RANGE_MAX@, DEFAULT_PORT_RANGE_MAX@, u16::MAX as nat);
    match (low, high) {
        (Err(fault), _) => Err(fault),
        (_, Err(fault)) => Err(fault),
        (Ok(low), Ok(high)) => if low < high {
            Ok((low, high))
        } else {
            Err(
                Fault {
                    name: ENV_PORT_RANGE_MAX@,
                    value: crate::text::decimal(high),
                    reason: "must be greater than PORT_RANGE_MIN="@ + crate::text::decimal(low),
                },
            )
        },
    }
}

/// What is wrong with an address on the network, if something is.
pub open spec fn misplaced(
    vars: Seq<Setting>,
    name: Seq<char>,
    default: Seq<char>,
    reason: Option<Seq<char>>,
) -> Option<Fault> {
    match reason {
        Some(reason) => Some(Fault { name, value: chosen(vars, name, default), reason }),
        None => None,
    }
}

/// The memo program, which has a default where other addresses have none.
pub open spec fn program(vars: Seq<Setting>) -> Result<Seq<u8>, Fault> {
    match set_to(vars, ENV_MEMO_PROGRAM@) {
        Some(value) => addressed(ENV_MEMO_PROGRAM@, value),
        None => Ok(DEFAULT_MEMO_PROGRAM@),
    }
}

pub open spec fn fault_of<T>(outcome: Result<T, Fault>) -> Option<Fault> {
    match outcome {
        Ok(_) => None,
        Err(fault) => Some(fault),
    }
}

/// The first of two faults there is.
pub open spec fn earlier(first: Option<Fault>, second: Option<Fault>) -> Option<Fault> {
    if first is Some {
        first
    } else {
        second
    }
}

/// What is wrong with how the sniper is to join the cluster.
pub open spec fn network_fault(
    vars: Seq<Setting>,
    entrypoint: Option<Seq<char>>,
    advertise_ip: Option<Seq<char>>,
) -> Option<Fault> {
    let sockets = usize::MAX as nat;
    earlier(
        fault_of(ports(vars)),
        earlier(
            misplaced(vars, ENV_ENTRYPOINT@, DEFAULT_ENTRYPOINT@, entrypoint),
            earlier(
                misplaced(vars, ENV_ADVERTISE_IP@, DEFAULT_ADVERTISE_IP@, advertise_ip),
                earlier(
                    fault_of(
                        numeric(vars, ENV_GOSSIP_PORT@, DEFAULT_GOSSIP_PORT@, u16::MAX as nat),
                    ),
                    earlier(
                        fault_of(
                            positive(
                                vars,
                                ENV_TVU_RECEIVE_SOCKETS@,
                                DEFAULT_TVU_RECEIVE_SOCKETS@,
                                sockets,
                            ),
                        ),
                        earlier(
                            fault_of(
                                positive(
                                    vars,
                                    ENV_TVU_RETRANSMIT_SOCKETS@,
                                    DEFAULT_TVU_RETRANSMIT_SOCKETS@,
                                    sockets,
                                ),
                            ),
                            fault_of(
                                positive(
                                    vars,
                                    ENV_QUIC_ENDPOINTS@,
                                    DEFAULT_QUIC_ENDPOINTS@,
                                    sockets,
                                ),
                            ),
                        ),
                    ),
                ),
            ),
        ),
    )
}

/// What is wrong with what the sniper is to watch for and answer.
pub open spec fn watch_fault(vars: Seq<Setting>) -> Option<Fault> {
    earlier(
        fault_of(
            flagged(vars, ENV_CHECK_DUPLICATE_INSTANCE@, DEFAULT_CHECK_DUPLICATE_INSTANCE@),
        ),
        earlier(
            fault_of(
                numeric(
                    vars,
                    ENV_GOSSIP_STATS_INTERVAL_SECS@,
                    DEFAULT_GOSSIP_STATS_INTERVAL_SECS@,
                    u64::MAX as nat,
                ),
            ),
            earlier(
                fault_of(
                    numeric(vars, ENV_SLOT_RETENTION@, DEFAULT_SLOT_RETENTION@, u32::MAX as nat),
                ),
                earlier(
                    fault_of(optionally_addressed(vars, ENV_SNIPE_PROGRAM@)),
                    earlier(
                        fault_of(list(vars, ENV_SEARCHER_WALLETS@)),
                        earlier(
                            fault_of(list(vars, ENV_TARGET_WALLETS@)),
                            earlier(
                                fault_of(program(vars)),
                                fault_of(
                                    numeric(
                                        vars,
                                        ENV_FIRE_COOLDOWN_MS@,
                                        DEFAULT_FIRE_COOLDOWN_MS@,
                                        u64::MAX as nat,
                                    ),
                                ),
                            ),
                        ),
                    ),
                ),
            ),
        ),
    )
}

/// What is wrong with what is to be reported, and where to.
pub open spec fn telemetry_fault(vars: Seq<Setting>) -> Option<Fault> {
    earlier(
        fault_of(flagged(vars, ENV_METRICS_ENABLED@, DEFAULT_METRICS_ENABLED@)),
        earlier(
            fault_of(flagged(vars, ENV_LOGS_ENABLED@, DEFAULT_LOGS_ENABLED@)),
            earlier(
                fault_of(
                    numeric(
                        vars,
                        ENV_METRICS_EXPORT_INTERVAL_SECS@,
                        DEFAULT_METRICS_EXPORT_INTERVAL_SECS@,
                        u64::MAX as nat,
                    ),
                ),
                fault_of(
                    numeric(
                        vars,
                        ENV_METRICS_EXPORT_TIMEOUT_SECS@,
                        DEFAULT_METRICS_EXPORT_TIMEOUT_SECS@,
                        u64::MAX as nat,
                    ),
                ),
            ),
        ),
    )
}

/// The first setting that cannot be used, if there is one. `entrypoint` and
/// `advertise_ip` are what is wrong with those two, if something is.
pub open spec fn first_fault(
    vars: Seq<Setting>,
    entrypoint: Option<Seq<char>>,
    advertise_ip: Option<Seq<char>>,
) -> Option<Fault> {
    earlier(
        network_fault(vars, entrypoint, advertise_ip),
        earlier(watch_fault(vars), telemetry_fault(vars)),
    )
}

pub open spec fn texts(value: Option<String>) -> Option<Seq<char>> {
    match value {
        Some(value) => Some(value@),
        None => None,
    }
}

pub open spec fn bytes(address: Option<[u8; 32]>) -> Option<Seq<u8>> {
    match address {
        Some(address) => Some(address@),
        None => None,
    }
}

impl Config {
    /// How the sniper joins the cluster is what `vars` say it should.
    pub open spec fn joins_as_told(self, vars: Seq<Setting>) -> bool {
        let sockets = usize::MAX as nat;
        &&& ports(vars) == Ok::<(nat, nat), Fault>(
            (self.port_range.0 as nat, self.port_range.1 as nat),
        )
        &&& self.entrypoint@ == chosen(vars, ENV_ENTRYPOINT@, DEFAULT_ENTRYPOINT@)
        &&& self.advertise_ip@ == chosen(vars, ENV_ADVERTISE_IP@, DEFAULT_ADVERTISE_IP@)
        &&& numeric(vars, ENV_GOSSIP_PORT@, DEFAULT_GOSSIP_PORT@, u16::MAX as nat) == Ok::<
            nat,
            Fault,
        >(self.gossip_port as nat)
        &&& positive(vars, ENV_TVU_RECEIVE_SOCKETS@, DEFAULT_TVU_RECEIVE_SOCKETS@, sockets) == Ok::<
            nat,
            Fault,
        >(self.tvu_receive_sockets as nat)
        &&& positive(vars, ENV_TVU_RETRANSMIT_SOCKETS@, DEFAULT_TVU_RETRANSMIT_SOCKETS@, sockets)
            == Ok::<nat, Fault>(self.tvu_retransmit_sockets as nat)
        &&& positive(vars, ENV_QUIC_ENDPOINTS@, DEFAULT_QUIC_ENDPOINTS@, sockets) == Ok::<
            nat,
            Fault,
        >(self.quic_endpoints as nat)
        &&& self.rpc_url@ == chosen(vars, ENV_RPC_URL@, DEFAULT_RPC_URL@)
        &&& texts(self.node_keypair) == set_to(vars, ENV_NODE_KEYPAIR@)
    }

    /// What the sniper watches for and answers is what `vars` say it should.
    pub open spec fn watches_as_told(self, vars: Seq<Setting>) -> bool {
        &&& flagged(vars, ENV_CHECK_DUPLICATE_INSTANCE@, DEFAULT_CHECK_DUPLICATE_INSTANCE@)
            == Ok::<bool, Fault>(self.check_duplicate_instance)
        &&& numeric(
            vars,
            ENV_GOSSIP_STATS_INTERVAL_SECS@,
            DEFAULT_GOSSIP_STATS_INTERVAL_SECS@,
            u64::MAX as nat,
        ) == Ok::<nat, Fault>(self.gossip_stats_interval as nat)
        &&& numeric(vars, ENV_SLOT_RETENTION@, DEFAULT_SLOT_RETENTION@, u32::MAX as nat) matches Ok(
            slots,
        )
        &&& self.retention == slots * SLOT_DURATION
        &&& optionally_addressed(vars, ENV_SNIPE_PROGRAM@) == Ok::<Option<Seq<u8>>, Fault>(
            bytes(self.snipe_program),
        )
        &&& list(vars, ENV_SEARCHER_WALLETS@) == Ok::<Seq<Seq<u8>>, Fault>(
            bytes_of(self.searcher_wallets@),
        )
        &&& list(vars, ENV_TARGET_WALLETS@) == Ok::<Seq<Seq<u8>>, Fault>(
            bytes_of(self.target_wallets@),
        )
        &&& texts(self.searcher_keypair) == set_to(vars, ENV_SEARCHER_KEYPAIR@)
        &&& program(vars) == Ok::<Seq<u8>, Fault>(self.memo_program@)
        &&& self.fire_memo@ == chosen(vars, ENV_FIRE_MEMO@, DEFAULT_FIRE_MEMO@)
        &&& numeric(vars, ENV_FIRE_COOLDOWN_MS@, DEFAULT_FIRE_COOLDOWN_MS@, u64::MAX as nat) matches Ok(
            millis,
        )
        &&& self.fire_cooldown == if millis * MILLISECOND <= u64::MAX {
            millis * MILLISECOND
        } else {
            u64::MAX as int
        }
    }

    /// What is reported, and where to, is what `vars` say it should be.
    pub open spec fn reports_as_told(self, vars: Seq<Setting>) -> bool {
        &&& flagged(vars, ENV_METRICS_ENABLED@, DEFAULT_METRICS_ENABLED@) == Ok::<bool, Fault>(
            self.metrics_enabled,
        )
        &&& flagged(vars, ENV_LOGS_ENABLED@, DEFAULT_LOGS_ENABLED@) == Ok::<bool, Fault>(
            self.logs_enabled,
        )
        &&& self.otlp_endpoint@ == chosen(vars, ENV_OTLP_ENDPOINT@, DEFAULT_OTLP_ENDPOINT@)
        &&& self.service_name@ == chosen(vars, ENV_SERVICE_NAME@, DEFAULT_SERVICE_NAME@)
        &&& numeric(
            vars,
            ENV_METRICS_EXPORT_INTERVAL_SECS@,
            DEFAULT_METRICS_EXPORT_INTERVAL_SECS@,
            u64::MAX as nat,
        ) == Ok::<nat, Fault>(self.metrics_export_interval as nat)
        &&& numeric(
            vars,
            ENV_METRICS_EXPORT_TIMEOUT_SECS@,
            DEFAULT_METRICS_EXPORT_TIMEOUT_SECS@,
            u64::MAX as nat,
        ) == Ok::<nat, Fault>(self.metrics_export_timeout as nat)
    }

    /// The configuration `vars` come to, or the first setting that cannot be
    /// used. Where the entrypoint or the advertised address is no address,
    /// `entrypoint` or `advertise_ip` says why.
    pub fn from_env(
        vars: &Vec<Setting>,
        entrypoint: Option<String>,
        advertise_ip: Option<String>,
    ) -> (config: Result<Config, ConfigError>)
        ensures
            ({
                let fault = first_fault(vars@, texts(entrypoint), texts(advertise_ip));
                match config {
                    Ok(config) => {
                        &&& fault is None
                        &&& config.joins_as_told(vars@)
                        &&& config.watches_as_told(vars@)
                        &&& config.reports_as_told(vars@)
                        &&& config.port_range.0 < config.port_range.1
                    },
                    Err(error) => fault == Some(error@),
                }
            }),
    {
        let low: u64 = match parse_number(
            vars,
            ENV_PORT_RANGE_MIN,
            DEFAULT_PORT_RANGE_MIN,
            u16::MAX as u64,
        ) {
            Ok(value) => value,
            Err(error) => {
                return Err(error);
            },
        };
        let high: u64 = match parse_number(
            vars,
            ENV_PORT_RANGE_MAX,
            DEFAULT_PORT_RANGE_MAX,
            u16::MAX as u64,
        ) {
            Ok(value) => value,
            Err(error) => {
                return Err(error);
            },
        };
        if low >= high {
            let mut reason = "must be greater than PORT_RANGE_MIN=".to_owned();
            reason.append(write_number(low).as_str());
            return Err(
                ConfigError { name: ENV_PORT_RANGE_MAX, value: write_number(high), reason },
            );
        }
        if let Some(reason) = entrypoint {
            let value = setting(vars, ENV_ENTRYPOINT, DEFAULT_ENTRYPOINT);
            return Err(ConfigError { name: ENV_ENTRYPOINT, value, reason });
        }
        if let Some(reason) = advertise_ip {
            let value = setting(vars, ENV_ADVERTISE_IP, DEFAULT_ADVERTISE_IP);
            return Err(ConfigError { name: ENV_ADVERTISE_IP, value, reason });
        }
        let gossip_port: u64 = match parse_number(
            vars,
            ENV_GOSSIP_PORT,
            DEFAULT_GOSSIP_PORT,
            u16::MAX as u64,
        ) {
            Ok(value) => value,
            Err(error) => {
                return Err(error);
            },
        };
        let tvu_receive_sockets: usize = match parse_positive(
            vars,
            ENV_TVU_RECEIVE_SOCKETS,
            DEFAULT_TVU_RECEIVE_SOCKETS,
        ) {
            Ok(value) => value,
            Err(error) => {
                return Err(error);
            },
        };
        let tvu_retransmit_sockets: usize = match parse_positive(
            vars,
            ENV_TVU_RETRANSMIT_SOCKETS,
            DEFAULT_TVU_RETRANSMIT_SOCKETS,
        ) {
            Ok(value) => value,
            Err(error) => {
                return Err(error);
            },
        };
        let quic_endpoints: usize = match parse_positive(
            vars,
            ENV_QUIC_ENDPOINTS,
            DEFAULT_QUIC_ENDPOINTS,
        ) {
            Ok(value) => value,
            Err(error) => {
                return Err(error);
            },
        };
        let check_duplicate_instance = match parse_flag(
            vars,
            ENV_CHECK_DUPLICATE_INSTANCE,
            DEFAULT_CHECK_DUPLICATE_INSTANCE,
        ) {
            Ok(value) => value,
            Err(error) => {
                return Err(error);
            },
        };
        let gossip_stats_interval: u64 = match parse_number(
            vars,
            ENV_GOSSIP_STATS_INTERVAL_SECS,
            DEFAULT_GOSSIP_STATS_INTERVAL_SECS,
            u64::MAX,
        ) {
            Ok(value) => value,
            Err(error) => {
                return Err(error);
            },
        };
        let slots: u64 = match parse_number(
            vars,
            ENV_SLOT_RETENTION,
            DEFAULT_SLOT_RETENTION,
            u32::MAX as u64,
        ) {
            Ok(value) => value,
            Err(error) => {
                return Err(error);
            },
        };
        let snipe_program = match optional_parse(vars, ENV_SNIPE_PROGRAM) {
            Ok(value) => value,
            Err(error) => {
                return Err(error);
            },
        };
        let searcher_wallets = match optional_list(vars, ENV_SEARCHER_WALLETS) {
            Ok(value) => value,
            Err(error) => {
                return Err(error);
            },
        };
        let target_wallets = match optional_list(vars, ENV_TARGET_WALLETS) {
            Ok(value) => value,
            Err(error) => {
                return Err(error);
            },
        };
        let memo_program = match optional_parse(vars, ENV_MEMO_PROGRAM) {
            Ok(Some(value)) => value,
            Ok(None) => DEFAULT_MEMO_PROGRAM,
            Err(error) => {
                return Err(error);
            },
        };
        let fire_cooldown: u64 = match parse_number(
            vars,
            ENV_FIRE_COOLDOWN_MS,
            DEFAULT_FIRE_COOLDOWN_MS,
            u64::MAX,
        ) {
            Ok(value) => value,
            Err(error) => {
                return Err(error);
            },
        };
        let metrics_enabled = match parse_flag(vars, ENV_METRICS_ENABLED, DEFAULT_METRICS_ENABLED) {
            Ok(value) => value,
            Err(error) => {
                return Err(error);
            },
        };
        let logs_enabled = match parse_flag(vars, ENV_LOGS_ENABLED, DEFAULT_LOGS_ENABLED) {
            Ok(value) => value,
            Err(error) => {
                return Err(error);
            },
        };
        let metrics_export_interval: u64 = match parse_number(
            vars,
            ENV_METRICS_EXPORT_INTERVAL_SECS,
            DEFAULT_METRICS_EXPORT_INTERVAL_SECS,
            u64::MAX,
        ) {
            Ok(value) => value,
            Err(error) => {
                return Err(error);
            },
        };
        let metrics_export_timeout: u64 = match parse_number(
            vars,
            ENV_METRICS_EXPORT_TIMEOUT_SECS,
            DEFAULT_METRICS_EXPORT_TIMEOUT_SECS,
            u64::MAX,
        ) {
            Ok(value) => value,
            Err(error) => {
                return Err(error);
            },
        };
        Ok(
            Config {
                entrypoint: setting(vars, ENV_ENTRYPOINT, DEFAULT_ENTRYPOINT),
                advertise_ip: setting(vars, ENV_ADVERTISE_IP, DEFAULT_ADVERTISE_IP),
                gossip_port: gossip_port as u16,
                port_range: (low as u16, high as u16),
                tvu_receive_sockets,
                tvu_retransmit_sockets,
                quic_endpoints,
                check_duplicate_instance,
                gossip_stats_interval,
                retention: slots * SLOT_DURATION,
                snipe_program,
                searcher_wallets,
                target_wallets,
                node_keypair: optional(vars, ENV_NODE_KEYPAIR),
                rpc_url: setting(vars, ENV_RPC_URL, DEFAULT_RPC_URL),
                searcher_keypair: optional(vars, ENV_SEARCHER_KEYPAIR),
                memo_program,
                fire_memo: setting(vars, ENV_FIRE_MEMO, DEFAULT_FIRE_MEMO),
                fire_cooldown: clamp(fire_cooldown as u128 * MILLISECOND as u128),
                metrics_enabled,
                logs_enabled,
                otlp_endpoint: setting(vars, ENV_OTLP_ENDPOINT, DEFAULT_OTLP_ENDPOINT),
                service_name: setting(vars, ENV_SERVICE_NAME, DEFAULT_SERVICE_NAME),
                metrics_export_interval,
                metrics_export_timeout,
            },
        )
    }
}

/// A filter always ends in what keeps the exporter from feeding itself, whatever
/// the operator asks to see.
pub proof fn the_exporter_is_always_silenced(vars: Seq<Setting>)
    ensures
        EXPORTER_NOISE@.is_suffix_of(
            chosen(vars, ENV_LOG@, DEFAULT_LOG@) + ","@ + EXPORTER_NOISE@,
        ),
{
    let head = chosen(vars, ENV_LOG@, DEFAULT_LOG@) + ","@;
    assert((head + EXPORTER_NOISE@).subrange(
        head.len() as int,
        (head + EXPORTER_NOISE@).len() as int,
    ) =~= EXPORTER_NOISE@);
}

/// A variable that is set to nothing reads as one that is not set.
pub proof fn an_empty_setting_is_unset(vars: Seq<Setting>, name: Seq<char>, default: Seq<char>)
    requires
        place(vars, name, 0) < vars.len() ==> vars[place(vars, name, 0)].value@.len() == 0,
    ensures
        set_to(vars, name) is None,
        chosen(vars, name, default) == default,
{
}

/// The numbers that settings default to.
proof fn lemma_default_numbers(most: nat)
    requires
        most >= u16::MAX,
    ensures
        crate::text::number("1"@, 10, most) == Ok::<nat, NumberFault>(1),
        crate::text::number("4"@, 10, most) == Ok::<nat, NumberFault>(4),
        crate::text::number("5"@, 10, most) == Ok::<nat, NumberFault>(5),
        crate::text::number("64"@, 10, most) == Ok::<nat, NumberFault>(64),
        crate::text::number("300"@, 10, most) == Ok::<nat, NumberFault>(300),
        crate::text::number("8001"@, 10, most) == Ok::<nat, NumberFault>(8001),
        crate::text::number("8100"@, 10, most) == Ok::<nat, NumberFault>(8100),
        crate::text::number("8200"@, 10, most) == Ok::<nat, NumberFault>(8200),
{
    reveal_strlit("1");
    reveal_strlit("4");
    reveal_strlit("5");
    reveal_strlit("64");
    reveal_strlit("300");
    reveal_strlit("8001");
    reveal_strlit("8100");
    reveal_strlit("8200");
    reveal_with_fuel(crate::text::worth, 5);
}

/// The sniper starts where nothing is configured at all: no default is refused,
/// and the answering transaction then calls the memo program.
pub proof fn the_defaults_are_accepted(vars: Seq<Setting>)
    requires
        forall|name: Seq<char>| #[trigger] set_to(vars, name) is None,
    ensures
        first_fault(vars, None, None) is None,
        ports(vars) == Ok::<(nat, nat), Fault>((8100, 8200)),
        program(vars) == Ok::<Seq<u8>, Fault>(DEFAULT_MEMO_PROGRAM@),
{
    lemma_default_numbers(u16::MAX as nat);
    lemma_default_numbers(u32::MAX as nat);
    lemma_default_numbers(u64::MAX as nat);
    lemma_default_numbers(usize::MAX as nat);
    assert(network_fault(vars, None, None) is None);
    assert(watch_fault(vars) is None);
    assert(telemetry_fault(vars) is None);
}

/// Every setting that is a number is the number its variable spells: ports, sockets
/// and seconds as they are, retention in slots of 400 milliseconds, and the cooldown
/// in milliseconds.
#[verifier::spinoff_prover]
#[verifier::rlimit(60)]
pub proof fn a_number_is_what_it_is_set_to(
    vars: Vec<Setting>,
    entrypoint: Option<String>,
    advertise_ip: Option<String>,
    config: Config,
    n: nat,
)
    requires
        call_ensures(
            Config::from_env,
            (&vars, entrypoint, advertise_ip),
            Ok::<Config, ConfigError>(config),
        ),
    ensures
        ({
            let set = |name: Seq<char>| set_to(vars@, name) == Some(crate::text::decimal(n));
            &&& set("GOSSIP_PORT"@) && n <= 65_535 ==> config.gossip_port == n
            &&& set("PORT_RANGE_MIN"@) && n <= 65_535 ==> config.port_range.0 == n
            &&& set("PORT_RANGE_MAX"@) && n <= 65_535 ==> config.port_range.1 == n
            &&& set("TVU_RECEIVE_SOCKETS"@) && n <= usize::MAX ==> config.tvu_receive_sockets == n
            &&& set("TVU_RETRANSMIT_SOCKETS"@) && n <= usize::MAX ==> config.tvu_retransmit_sockets
                == n
            &&& set("QUIC_ENDPOINTS"@) && n <= usize::MAX ==> config.quic_endpoints == n
            &&& set("GOSSIP_STATS_INTERVAL_SECS"@) && n <= u64::MAX ==> config.gossip_stats_interval
                == n
            &&& set("SLOT_RETENTION"@) && n <= u32::MAX ==> config.retention == n * 400_000_000
            &&& set("FIRE_COOLDOWN_MS"@) && n * 1_000_000 <= u64::MAX ==> config.fire_cooldown == n
                * 1_000_000
            &&& set("METRICS_EXPORT_INTERVAL_SECS"@) && n <= u64::MAX
                ==> config.metrics_export_interval == n
            &&& set("METRICS_EXPORT_TIMEOUT_SECS"@) && n <= u64::MAX
                ==> config.metrics_export_timeout == n
            &&& 0 < config.tvu_receive_sockets
            &&& 0 < config.tvu_retransmit_sockets
            &&& 0 < config.quic_endpoints
            &&& config.port_range.0 < config.port_range.1
        }),
{
    crate::text::what_is_written_is_read_back(n, u16::MAX as nat);
    crate::text::what_is_written_is_read_back(n, u32::MAX as nat);
    crate::text::what_is_written_is_read_back(n, u64::MAX as nat);
    crate::text::what_is_written_is_read_back(n, usize::MAX as nat);
}

/// Every other setting is what its variable says: a text as it is, a switch on or off
/// as it says `true` or `false`, a program the address it spells.
#[verifier::spinoff_prover]
#[verifier::rlimit(60)]
pub proof fn a_text_is_what_it_is_set_to(
    vars: Vec<Setting>,
    entrypoint: Option<String>,
    advertise_ip: Option<String>,
    config: Config,
    text: Seq<char>,
)
    requires
        call_ensures(
            Config::from_env,
            (&vars, entrypoint, advertise_ip),
            Ok::<Config, ConfigError>(config),
        ),
    ensures
        ({
            let set = |name: Seq<char>| set_to(vars@, name) == Some(text);
            let spelled = crate::addresses::address_spelled(text);
            &&& set("ENTRYPOINT"@) ==> config.entrypoint@ == text
            &&& set("ADVERTISE_IP"@) ==> config.advertise_ip@ == text
            &&& set("RPC_URL"@) ==> config.rpc_url@ == text
            &&& set("FIRE_MEMO"@) ==> config.fire_memo@ == text
            &&& set("OTEL_EXPORTER_OTLP_ENDPOINT"@) ==> config.otlp_endpoint@ == text
            &&& set("OTEL_SERVICE_NAME"@) ==> config.service_name@ == text
            &&& set("NODE_KEYPAIR"@) ==> config.node_keypair is Some && config.node_keypair->0@
                == text
            &&& set("SEARCHER_KEYPAIR"@) ==> config.searcher_keypair is Some
                && config.searcher_keypair->0@ == text
            &&& set_to(vars@, "NODE_KEYPAIR"@) is None ==> config.node_keypair is None
            &&& set_to(vars@, "SEARCHER_KEYPAIR"@) is None ==> config.searcher_keypair is None
            &&& set("MEMO_PROGRAM"@) ==> spelled == Ok::<Seq<u8>, Seq<char>>(config.memo_program@)
            &&& set("SNIPE_PROGRAM"@) ==> config.snipe_program is Some && spelled == Ok::<
                Seq<u8>,
                Seq<char>,
            >(config.snipe_program->0@)
            &&& set_to(vars@, "SNIPE_PROGRAM"@) is None ==> config.snipe_program is None
            &&& set("CHECK_DUPLICATE_INSTANCE"@) ==> (text == "true"@
                && config.check_duplicate_instance) || (text == "false"@
                && !config.check_duplicate_instance)
            &&& set("METRICS_ENABLED"@) ==> (text == "true"@ && config.metrics_enabled) || (text
                == "false"@ && !config.metrics_enabled)
            &&& set("LOGS_ENABLED"@) ==> (text == "true"@ && config.logs_enabled) || (text
                == "false"@ && !config.logs_enabled)
        }),
{
}

/// The wallets raced, and ours, are those their variables list, in order, with commas
/// between them: an address more at the end is a wallet more, whatever white space
/// stands around it, and an unset list is empty.
pub proof fn wallets_are_what_is_listed(
    vars: Vec<Setting>,
    entrypoint: Option<String>,
    advertise_ip: Option<String>,
    config: Config,
    entries: Seq<Seq<char>>,
    addresses: Seq<Seq<u8>>,
)
    requires
        call_ensures(
            Config::from_env,
            (&vars, entrypoint, advertise_ip),
            Ok::<Config, ConfigError>(config),
        ),
        entries.len() == addresses.len(),
        forall|i: int|
            0 <= i < entries.len() ==> crate::text::trimmed(#[trigger] entries[i]).len() > 0
                && crate::addresses::address_spelled(crate::text::trimmed(entries[i])) == Ok::<
                Seq<u8>,
                Seq<char>,
            >(addresses[i]),
    ensures
        (set_to(vars@, "TARGET_WALLETS"@) matches Some(text) && crate::text::parts(text, ',')
            == entries) ==> bytes_of(config.target_wallets@) == addresses,
        (set_to(vars@, "SEARCHER_WALLETS"@) matches Some(text) && crate::text::parts(text, ',')
            == entries) ==> bytes_of(config.searcher_wallets@) == addresses,
        set_to(vars@, "TARGET_WALLETS"@) is None ==> config.target_wallets@.len() == 0,
        set_to(vars@, "SEARCHER_WALLETS"@) is None ==> config.searcher_wallets@.len() == 0,
{
    lemma_listed("TARGET_WALLETS"@, entries, addresses, entries.len() as int);
    lemma_listed("SEARCHER_WALLETS"@, entries, addresses, entries.len() as int);
    assert(addresses.take(entries.len() as int) =~= addresses);
    assert(bytes_of(config.target_wallets@).len() == config.target_wallets@.len());
    assert(bytes_of(config.searcher_wallets@).len() == config.searcher_wallets@.len());
}

proof fn lemma_listed(
    name: Seq<char>,
    entries: Seq<Seq<char>>,
    addresses: Seq<Seq<u8>>,
    count: int,
)
    requires
        0 <= count <= entries.len() == addresses.len(),
        forall|i: int|
            0 <= i < entries.len() ==> crate::text::trimmed(#[trigger] entries[i]).len() > 0
                && crate::addresses::address_spelled(crate::text::trimmed(entries[i])) == Ok::<
                Seq<u8>,
                Seq<char>,
            >(addresses[i]),
    ensures
        listed(name, entries, count) == Ok::<Seq<Seq<u8>>, Fault>(addresses.take(count)),
    decreases count,
{
    if count > 0 {
        lemma_listed(name, entries, addresses, count - 1);
        assert(crate::text::trimmed(entries[count - 1]).len() > 0);
        assert(addresses.take(count) =~= addresses.take(count - 1).push(addresses[count - 1]));
    } else {
        assert(addresses.take(0) =~= Seq::empty());
    }
}

/// A variable is set to what it is first given, and one given nothing is not set.
pub proof fn the_first_of_a_name_counts(vars: Seq<Setting>, name: Seq<char>, at: int)
    requires
        0 <= at < vars.len(),
        vars[at].name@ == name,
        forall|i: int| 0 <= i < at ==> (#[trigger] vars[i]).name@ != name,
    ensures
        vars[at].value@.len() > 0 ==> set_to(vars, name) == Some(vars[at].value@),
        vars[at].value@.len() == 0 ==> set_to(vars, name) is None,
{
    lemma_place(vars, name, 0, at);
}

proof fn lemma_place(vars: Seq<Setting>, name: Seq<char>, from: int, at: int)
    requires
        0 <= from <= at < vars.len(),
        vars[at].name@ == name,
        forall|i: int| from <= i < at ==> (#[trigger] vars[i]).name@ != name,
    ensures
        place(vars, name, from) == at,
    decreases at - from,
{
    if from < at {
        lemma_place(vars, name, from + 1, at);
    }
}

/// A setting that is not set goes by its default.
#[verifier::spinoff_prover]
#[verifier::rlimit(60)]
pub proof fn what_is_not_set_goes_by_its_default(
    vars: Vec<Setting>,
    entrypoint: Option<String>,
    advertise_ip: Option<String>,
    config: Config,
)
    requires
        call_ensures(
            Config::from_env,
            (&vars, entrypoint, advertise_ip),
            Ok::<Config, ConfigError>(config),
        ),
    ensures
        ({
            let unset = |name: Seq<char>| set_to(vars@, name) is None;
            &&& unset("ENTRYPOINT"@) ==> config.entrypoint@ == "172.28.0.11:8001"@
            &&& unset("ADVERTISE_IP"@) ==> config.advertise_ip@ == "172.28.0.1"@
            &&& unset("GOSSIP_PORT"@) ==> config.gossip_port == 8001
            &&& unset("PORT_RANGE_MIN"@) ==> config.port_range.0 == 8100
            &&& unset("PORT_RANGE_MAX"@) ==> config.port_range.1 == 8200
            &&& unset("TVU_RECEIVE_SOCKETS"@) ==> config.tvu_receive_sockets == 4
            &&& unset("TVU_RETRANSMIT_SOCKETS"@) ==> config.tvu_retransmit_sockets == 1
            &&& unset("QUIC_ENDPOINTS"@) ==> config.quic_endpoints == 1
            &&& unset("CHECK_DUPLICATE_INSTANCE"@) ==> config.check_duplicate_instance
            &&& unset("GOSSIP_STATS_INTERVAL_SECS"@) ==> config.gossip_stats_interval == 5
            &&& unset("SLOT_RETENTION"@) ==> config.retention == 64 * 400_000_000
            &&& unset("RPC_URL"@) ==> config.rpc_url@ == "http://172.28.0.11:8899"@
            &&& unset("FIRE_MEMO"@) ==> config.fire_memo@ == "sniped"@
            &&& unset("FIRE_COOLDOWN_MS"@) ==> config.fire_cooldown == 300_000_000
            &&& unset("METRICS_ENABLED"@) ==> config.metrics_enabled
            &&& unset("LOGS_ENABLED"@) ==> config.logs_enabled
            &&& unset("OTEL_EXPORTER_OTLP_ENDPOINT"@) ==> config.otlp_endpoint@
                == "http://otel-collector:4318"@
            &&& unset("OTEL_SERVICE_NAME"@) ==> config.service_name@ == "shred-sniper"@
            &&& unset("METRICS_EXPORT_INTERVAL_SECS"@) ==> config.metrics_export_interval == 5
            &&& unset("METRICS_EXPORT_TIMEOUT_SECS"@) ==> config.metrics_export_timeout == 5
        }),
{
    lemma_default_numbers(u16::MAX as nat);
    lemma_default_numbers(u32::MAX as nat);
    lemma_default_numbers(u64::MAX as nat);
    lemma_default_numbers(usize::MAX as nat);
}

/// A blank entry of a list is left out of it, and one that spells no address spoils it.
pub proof fn a_list_is_as_good_as_its_entries(
    name: Seq<char>,
    entries: Seq<Seq<char>>,
    entry: Seq<char>,
)
    ensures
        ({
            let before = listed(name, entries, entries.len() as int);
            let after = listed(name, entries.push(entry), (entries.len() + 1) as int);
            let spelled = crate::addresses::address_spelled(crate::text::trimmed(entry));
            &&& before is Err ==> after == before
            &&& before is Ok && crate::text::trimmed(entry).len() == 0 ==> after == before
            &&& before is Ok && crate::text::trimmed(entry).len() > 0 ==> (after is Ok
                <==> spelled is Ok)
            &&& before is Ok && crate::text::trimmed(entry).len() > 0 && spelled is Ok ==> after
                == Ok::<Seq<Seq<u8>>, Fault>(before->Ok_0.push(spelled->Ok_0))
        }),
{
    lemma_listed_front(name, entries, entry, entries.len() as int);
}

proof fn lemma_listed_front(
    name: Seq<char>,
    entries: Seq<Seq<char>>,
    entry: Seq<char>,
    count: int,
)
    requires
        0 <= count <= entries.len(),
    ensures
        listed(name, entries.push(entry), count) == listed(name, entries, count),
    decreases count,
{
    if count > 0 {
        lemma_listed_front(name, entries, entry, count - 1);
        assert(entries.push(entry)[count - 1] == entries[count - 1]);
    }
}

/// Settings are accepted just where every one of them can be read: numbers as numbers
/// of their size, counts as numbers above zero, switches as `true` or `false`, programs
/// and wallets as addresses, and a range of ports that is not empty; and where nothing
/// is wrong with the two addresses on the network.
#[verifier::spinoff_prover]
#[verifier::rlimit(60)]
pub proof fn settings_that_can_be_read_are_accepted(
    vars: Vec<Setting>,
    entrypoint: Option<String>,
    advertise_ip: Option<String>,
    config: Result<Config, ConfigError>,
    low: nat,
    high: nat,
)
    requires
        call_ensures(Config::from_env, (&vars, entrypoint, advertise_ip), config),
        match set_to(vars@, "PORT_RANGE_MIN"@) {
            Some(text) => crate::text::number(text, 10, 65_535) == Ok::<nat, NumberFault>(low),
            None => low == 8100,
        },
        match set_to(vars@, "PORT_RANGE_MAX"@) {
            Some(text) => crate::text::number(text, 10, 65_535) == Ok::<nat, NumberFault>(high),
            None => high == 8200,
        },
    ensures
        ({
            let set = |name: Seq<char>| set_to(vars@, name);
            let number = |name: Seq<char>, most: nat|
                set(name) matches Some(text) ==> crate::text::number(text, 10, most) is Ok;
            let count = |name: Seq<char>|
                set(name) matches Some(text) ==> crate::text::number(
                    text,
                    10,
                    usize::MAX as nat,
                ) matches Ok(count) && count > 0;
            let switch = |name: Seq<char>|
                set(name) matches Some(text) ==> text == "true"@ || text == "false"@;
            let address = |name: Seq<char>|
                set(name) matches Some(text) ==> crate::addresses::address_spelled(text) is Ok;
            config is Ok <==> {
                &&& entrypoint is None
                &&& advertise_ip is None
                &&& low < high
                &&& number("GOSSIP_PORT"@, 65_535)
                &&& count("TVU_RECEIVE_SOCKETS"@)
                &&& count("TVU_RETRANSMIT_SOCKETS"@)
                &&& count("QUIC_ENDPOINTS"@)
                &&& switch("CHECK_DUPLICATE_INSTANCE"@)
                &&& number("GOSSIP_STATS_INTERVAL_SECS"@, u64::MAX as nat)
                &&& number("SLOT_RETENTION"@, u32::MAX as nat)
                &&& address("SNIPE_PROGRAM"@)
                &&& address("MEMO_PROGRAM"@)
                &&& list(vars@, "SEARCHER_WALLETS"@) is Ok
                &&& list(vars@, "TARGET_WALLETS"@) is Ok
                &&& number("FIRE_COOLDOWN_MS"@, u64::MAX as nat)
                &&& switch("METRICS_ENABLED"@)
                &&& switch("LOGS_ENABLED"@)
                &&& number("METRICS_EXPORT_INTERVAL_SECS"@, u64::MAX as nat)
                &&& number("METRICS_EXPORT_TIMEOUT_SECS"@, u64::MAX as nat)
            }
        }),
{
    lemma_default_numbers(u16::MAX as nat);
    lemma_default_numbers(u32::MAX as nat);
    lemma_default_numbers(u64::MAX as nat);
    lemma_default_numbers(usize::MAX as nat);
}

/// Whatever is to be logged, what the exporter does to send it is not: that is said
/// last, behind what was asked for or the default.
pub proof fn the_exporter_is_silenced_last(vars: Vec<Setting>, filter: String)
    requires
        call_ensures(log_filter, (&vars,), filter),
    ensures
        ({
            let noise =
                "hyper=off,hyper_util=off,reqwest=off,h2=off,tower=off,opentelemetry=off,opentelemetry_sdk=off"@;
            match set_to(vars@, "RUST_LOG"@) {
                Some(asked) => filter@ == asked + ","@ + noise,
                None => filter@ == "shred_sniper=info"@ + ","@ + noise,
            }
        }),
{
}

/// A setting that is refused is named, with the value it has and what is wrong with it.
pub proof fn a_refused_setting_is_named(error: ConfigError, text: String)
    requires
        call_ensures(ConfigError::text, (&error,), text),
    ensures
        text@.len() == error.name@.len() + error.value@.len() + error.reason@.len() + 3,
        text@.take(error.name@.len() as int) == error.name@,
        text@[error.name@.len() as int] == '=',
        text@.subrange(
            (error.name@.len() + 1) as int,
            (error.name@.len() + 1 + error.value@.len()) as int,
        ) == error.value@,
        text@.skip((error.name@.len() + error.value@.len() + 3) as int) == error.reason@,
{
    reveal_strlit("=");
    reveal_strlit(": ");
    let (name, value) = (error.name@.len() as int, error.value@.len() as int);
    assert(text@.take(name) =~= error.name@);
    assert(text@.subrange(name + 1, name + 1 + value) =~= error.value@);
    assert(text@.skip(name + value + 3) =~= error.reason@);
}

} // verus!

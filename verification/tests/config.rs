use shred_sniper::clock::{MILLISECOND, SECOND};
use shred_sniper::config::{log_filter, setting, Config, Setting, DEFAULT_MEMO_PROGRAM};
use solana_keypair::Keypair;
use solana_signer::Signer;
use solana_transaction::Address;

fn vars(settings: &[(&str, &str)]) -> Vec<Setting> {
    settings
        .iter()
        .map(|(name, value)| Setting {
            name: name.to_string(),
            value: value.to_string(),
        })
        .collect()
}

fn fault(settings: &[(&str, &str)]) -> String {
    Config::from_env(&vars(settings), None, None)
        .err()
        .expect("the configuration is unusable")
        .text()
}

/// Out of the box the defaults target the localnet.
#[test]
fn defaults_are_enough() {
    let config = Config::from_env(&vars(&[]), None, None).ok().unwrap();
    assert_eq!(config.entrypoint, "172.28.0.11:8001");
    assert_eq!(config.advertise_ip, "172.28.0.1");
    assert_eq!(config.gossip_port, 8001);
    assert_eq!(config.port_range, (8100, 8200));
    assert_eq!(config.tvu_receive_sockets, 4);
    assert_eq!(config.tvu_retransmit_sockets, 1);
    assert_eq!(config.quic_endpoints, 1);
    assert!(config.check_duplicate_instance);
    assert_eq!(config.gossip_stats_interval, 5);
    assert_eq!(config.retention, 64 * 400 * MILLISECOND);
    assert_eq!(config.snipe_program, None);
    assert!(config.searcher_wallets.is_empty() && config.target_wallets.is_empty());
    assert_eq!((config.node_keypair, config.searcher_keypair), (None, None));
    assert_eq!(config.rpc_url, "http://172.28.0.11:8899");
    assert_eq!(config.memo_program, DEFAULT_MEMO_PROGRAM);
    assert_eq!(
        Address::from(config.memo_program).to_string(),
        "MemoSq4gqABAXKb96qnH8TysNcWxMyWCqXgDLGmfcHr"
    );
    assert_eq!(config.fire_memo, "sniped");
    assert_eq!(config.fire_cooldown, 300 * MILLISECOND);
    assert!(config.metrics_enabled && config.logs_enabled);
    assert_eq!(config.otlp_endpoint, "http://otel-collector:4318");
    assert_eq!(config.service_name, "shred-sniper");
    assert_eq!(config.metrics_export_interval, 5);
    assert_eq!(config.metrics_export_timeout, 5);
}

#[test]
fn settings_are_read() {
    let one = Keypair::new().pubkey();
    let two = Keypair::new().pubkey();
    let config = Config::from_env(
        &vars(&[
            ("ENTRYPOINT", "10.0.0.1:1"),
            ("PORT_RANGE_MIN", "1"),
            ("PORT_RANGE_MAX", "65535"),
            ("TVU_RECEIVE_SOCKETS", "+7"),
            ("CHECK_DUPLICATE_INSTANCE", "false"),
            ("SLOT_RETENTION", "4294967295"),
            ("SNIPE_PROGRAM", &one.to_string()),
            ("SEARCHER_WALLETS", &format!(" {one} ,, {two},")),
            ("TARGET_WALLETS", ""),
            ("SEARCHER_KEYPAIR", "/keys/id.json"),
            ("FIRE_COOLDOWN_MS", "18446744073709551615"),
            ("METRICS_EXPORT_TIMEOUT_SECS", "0"),
        ]),
        None,
        None,
    )
    .ok()
    .unwrap();
    assert_eq!(config.entrypoint, "10.0.0.1:1");
    assert_eq!(config.port_range, (1, 65535));
    assert_eq!(config.tvu_receive_sockets, 7);
    assert!(!config.check_duplicate_instance);
    assert_eq!(config.retention, 4294967295 * 400 * MILLISECOND);
    assert_eq!(config.snipe_program, Some(one.to_bytes()));
    assert_eq!(config.searcher_wallets, vec![one.to_bytes(), two.to_bytes()]);
    assert!(config.target_wallets.is_empty());
    assert_eq!(config.searcher_keypair.as_deref(), Some("/keys/id.json"));
    assert_eq!(config.fire_cooldown, u64::MAX);
    assert_eq!(config.metrics_export_timeout, 0);
    assert!(SECOND > MILLISECOND);
}

/// A typo is a startup failure rather than a setting that silently does nothing.
#[test]
fn an_unusable_setting_is_named() {
    assert_eq!(
        fault(&[("GOSSIP_PORT", "x")]),
        "GOSSIP_PORT=x: invalid digit found in string"
    );
    assert_eq!(
        fault(&[("GOSSIP_PORT", "65536")]),
        "GOSSIP_PORT=65536: number too large to fit in target type"
    );
    assert_eq!(
        fault(&[("GOSSIP_PORT", "+")]),
        "GOSSIP_PORT=+: invalid digit found in string"
    );
    assert_eq!(
        fault(&[("QUIC_ENDPOINTS", "0")]),
        "QUIC_ENDPOINTS=0: number would be zero for non-zero type"
    );
    assert_eq!(
        fault(&[("LOGS_ENABLED", "True")]),
        "LOGS_ENABLED=True: provided string was not `true` or `false`"
    );
    assert_eq!(
        fault(&[("SNIPE_PROGRAM", "abc")]),
        "SNIPE_PROGRAM=abc: String is the wrong size"
    );
    assert_eq!(
        fault(&[("TARGET_WALLETS", "11111111111111111111111111111111, abc ")]),
        "TARGET_WALLETS=abc: String is the wrong size"
    );
    assert_eq!(
        fault(&[("PORT_RANGE_MIN", "9000"), ("PORT_RANGE_MAX", "9000")]),
        "PORT_RANGE_MAX=9000: must be greater than PORT_RANGE_MIN=9000"
    );
}

/// Where several settings are unusable, the first is the one reported.
#[test]
fn the_first_fault_is_the_one_reported() {
    assert_eq!(
        fault(&[("LOGS_ENABLED", "no"), ("GOSSIP_PORT", "x")]),
        "GOSSIP_PORT=x: invalid digit found in string"
    );
    let fault = |settings: &[(&str, &str)], entrypoint: Option<&str>, ip: Option<&str>| {
        Config::from_env(
            &vars(settings),
            entrypoint.map(str::to_string),
            ip.map(str::to_string),
        )
        .err()
        .unwrap()
        .text()
    };
    assert_eq!(
        fault(&[("GOSSIP_PORT", "x"), ("ENTRYPOINT", "here")], Some("no address"), Some("nor this")),
        "ENTRYPOINT=here: no address"
    );
    assert_eq!(
        fault(&[("GOSSIP_PORT", "x")], None, Some("nor this")),
        "ADVERTISE_IP=172.28.0.1: nor this"
    );
    assert_eq!(
        fault(&[("PORT_RANGE_MIN", "y")], Some("no address"), None),
        "PORT_RANGE_MIN=y: invalid digit found in string"
    );
}

/// Whatever the operator asks to see, the exporter does not get to see itself.
#[test]
fn the_filter_silences_the_exporter() {
    let noise = "hyper=off,hyper_util=off,reqwest=off,h2=off,tower=off,opentelemetry=off,opentelemetry_sdk=off";
    assert_eq!(
        log_filter(&vars(&[])),
        format!("shred_sniper=info,{noise}")
    );
    assert_eq!(
        log_filter(&vars(&[("RUST_LOG", "hyper=trace")])),
        format!("hyper=trace,{noise}")
    );
}

#[test]
fn an_empty_variable_is_not_set() {
    assert_eq!(setting(&vars(&[("A", "")]), "A", "b"), "b");
    assert_eq!(setting(&vars(&[("A", " ")]), "A", "b"), " ");
    assert_eq!(setting(&vars(&[("A", "1"), ("A", "2")]), "A", "b"), "1");
}

#[test]
fn the_memo_program_may_be_another() {
    let named = |program: &str| {
        Config::from_env(&vars(&[("MEMO_PROGRAM", program)]), None, None)
            .ok()
            .unwrap()
            .memo_program
    };
    assert_eq!(
        named("MemoSq4gqABAXKb96qnH8TysNcWxMyWCqXgDLGmfcHr"),
        DEFAULT_MEMO_PROGRAM
    );
    assert_eq!(named("11111111111111111111111111111111"), [0; 32]);
    assert_eq!(named(""), DEFAULT_MEMO_PROGRAM);
    assert!(fault(&[("MEMO_PROGRAM", "Memo")]).contains("MEMO_PROGRAM"));
}

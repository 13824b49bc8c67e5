//! Configuration: precedence, defaults, errors and upload rates.

use pesto::config::{
    config_dir, default_config_path, parse_upload_rate, Config, FileConfig, FileServerEntry,
    ObfuscateMode, Overrides, RateError, DEFAULT_ARTICLE_SIZE, DEFAULT_CONNECTIONS,
    DEFAULT_LINE_LENGTH, DEFAULT_PAR2, DEFAULT_PORT, DEFAULT_RETRIES, DEFAULT_RETRY_DELAY,
};

#[test]
fn cli_overrides_win_over_file() {
    let mut file = FileConfig::default();
    file.server.host = Some("file-host".into());
    file.server.port = Some(119);
    file.posting.from = Some("file <f@x>".into());
    file.posting.groups = Some(vec!["a.b.file".into()]);

    let cli = Overrides {
        host: Some("cli-host".into()),
        ..Default::default()
    };

    let cfg = Config::resolve(file, cli).unwrap();
    assert_eq!(cfg.host, "cli-host");
    assert_eq!(cfg.port, 119);
}

#[test]
fn defaults_apply_when_unset() {
    let mut file = FileConfig::default();
    file.server.host = Some("h".into());
    file.posting.from = Some("f <f@x>".into());
    file.posting.groups = Some(vec!["a.b.c".into()]);

    let cfg = Config::resolve(file, Overrides::default()).unwrap();
    assert_eq!(cfg.port, DEFAULT_PORT);
    assert_eq!(cfg.connections, DEFAULT_CONNECTIONS);
    assert!(cfg.ssl);
}

#[test]
fn missing_required_field_errors() {
    let cfg = Config::resolve(FileConfig::default(), Overrides::default());
    assert!(cfg.is_err());
}


#[test]
fn parse_rate_bare_bytes() {
    assert_eq!(parse_upload_rate("1024").unwrap(), 1024);
}

#[test]
fn parse_rate_kib() {
    assert_eq!(parse_upload_rate("10 KiB/s").unwrap(), 10 * 1024);
}

#[test]
fn parse_rate_mib() {
    assert_eq!(parse_upload_rate("50 MiB/s").unwrap(), 50 * 1024 * 1024);
}

#[test]
fn parse_rate_mb_case_insensitive() {
    assert_eq!(parse_upload_rate("2 MB/s").unwrap(), 2 * 1024 * 1024);
}

#[test]
fn parse_rate_gib() {
    assert_eq!(parse_upload_rate("1 GiB/s").unwrap(), 1024 * 1024 * 1024);
}

#[test]
fn parse_rate_unknown_unit_errors() {
    assert!(parse_upload_rate("10 TiB/s").is_err());
}

#[test]
fn parse_rate_not_a_number_errors() {
    assert!(parse_upload_rate("fast").is_err());
}

fn base_overrides() -> Overrides {
    Overrides {
        groups: Some(vec!["alt.test".into()]),
        ..Default::default()
    }
}

#[test]
fn single_servers_entry_becomes_primary() {
    let file = FileConfig {
        extra_servers: vec![FileServerEntry {
            host: Some("news.example.com".into()),
            port: Some(119),
            ssl: Some(false),
            connections: Some(8),
            ..Default::default()
        }],
        ..Default::default()
    };

    let cfg = Config::resolve(file, base_overrides()).unwrap();
    assert_eq!(cfg.host, "news.example.com");
    assert_eq!(cfg.port, 119);
    assert!(!cfg.ssl);
    assert_eq!(cfg.connections, 8);
    assert!(cfg.extra_servers.is_empty());
}

#[test]
fn multiple_servers_first_is_primary_rest_are_extra() {
    let file = FileConfig {
        extra_servers: vec![
            server("primary.example.com", None),
            server("backup.example.com", Some(2)),
        ],
        ..Default::default()
    };

    let cfg = Config::resolve(file, base_overrides()).unwrap();
    assert_eq!(cfg.host, "primary.example.com");
    assert_eq!(cfg.extra_servers.len(), 1);
    assert_eq!(cfg.extra_servers[0].host, "backup.example.com");
    assert_eq!(cfg.extra_servers[0].connections, 2);
}

#[test]
fn servers_entry_missing_host_errors() {
    let file = FileConfig {
        extra_servers: vec![nameless_server(119)],
        ..Default::default()
    };

    assert!(Config::resolve(file, base_overrides()).is_err());
}

#[test]
fn extra_server_missing_host_errors() {
    let file = FileConfig {
        extra_servers: vec![server("primary.example.com", None), nameless_server(119)],
        ..Default::default()
    };

    assert!(Config::resolve(file, base_overrides()).is_err());
}

#[test]
fn total_connections_sums_all_servers() {
    let file = FileConfig {
        extra_servers: vec![server("a.example.com", Some(4)), server("b.example.com", Some(2))],
        ..Default::default()
    };

    let cfg = Config::resolve(file, base_overrides()).unwrap();
    assert_eq!(cfg.total_connections(), 6);
}

#[test]
fn missing_host_error_mentions_host() {
    let mut file = FileConfig::default();
    file.posting.groups = Some(vec!["alt.test".into()]);
    let err = Config::resolve(file, Overrides::default()).unwrap_err();
    let msg = err.message();
    assert!(msg.contains("host"), "expected 'host' in error: {msg}");
}

#[test]
fn missing_groups_error_mentions_groups() {
    let mut file = FileConfig::default();
    file.server.host = Some("h".into());
    let err = Config::resolve(file, Overrides::default()).unwrap_err();
    let msg = err.message();
    assert!(msg.contains("groups"), "expected 'groups' in error: {msg}");
}

#[test]
fn extra_server_missing_host_error_is_actionable() {
    let file = FileConfig {
        extra_servers: vec![server("primary", None), nameless_server(119)],
        ..Default::default()
    };
    let err = Config::resolve(file, base_overrides()).unwrap_err();
    let msg = err.message();
    assert!(msg.contains("host"), "expected 'host' in error: {msg}");
}

fn minimal_file() -> FileConfig {
    let mut f = FileConfig::default();
    f.server.host = Some("h".into());
    f.posting.groups = Some(vec!["alt.test".into()]);
    f
}

#[test]
fn all_numeric_defaults_match_constants() {
    let cfg = Config::resolve(minimal_file(), Overrides::default()).unwrap();
    assert_eq!(cfg.port, DEFAULT_PORT);
    assert_eq!(cfg.connections, DEFAULT_CONNECTIONS);
    assert_eq!(cfg.article_size, DEFAULT_ARTICLE_SIZE);
    assert_eq!(cfg.line_length, DEFAULT_LINE_LENGTH);
    assert_eq!(cfg.retries, DEFAULT_RETRIES);
    assert_eq!(cfg.retry_delay, DEFAULT_RETRY_DELAY);
    assert_eq!(cfg.par2, DEFAULT_PAR2);
}

#[test]
fn all_boolean_defaults_are_correct() {
    let cfg = Config::resolve(minimal_file(), Overrides::default()).unwrap();
    assert!(cfg.ssl, "ssl should default to true");
    assert!(!cfg.dry_run);
    assert!(!cfg.par2_only);
    assert!(!cfg.verify);
    assert!(!cfg.resume);
    assert!(!cfg.no_archive);
    assert!(cfg.history, "history should default to true");
    assert!(!cfg.nfo);
}

#[test]
fn optional_string_fields_default_to_none() {
    let cfg = Config::resolve(minimal_file(), Overrides::default()).unwrap();
    assert!(cfg.username.is_none());
    assert!(cfg.password.is_none());
    assert!(cfg.compress_format.is_none());
    assert!(cfg.compress_password.is_none());
    assert!(cfg.nzb_name.is_none());
    assert!(cfg.nzb_password.is_none());
    assert!(cfg.nzb_category.is_none());
    assert!(cfg.nzb_dir.is_none());
    assert!(cfg.date.is_none());
    assert!(cfg.message_id_domain.is_none());
    assert!(cfg.post_hook.is_none());
    assert!(cfg.notify_webhook.is_none());
    assert!(cfg.notify_ntfy.is_none());
    assert!(cfg.notify.is_none());
    assert_eq!(cfg.upload_rate, 0);
}

#[test]
fn from_is_generated_randomly_when_not_set() {
    // Without a pinned `from`, each resolve produces a different identity.
    let a = Config::resolve(minimal_file(), Overrides::default())
        .unwrap()
        .from;
    let b = Config::resolve(minimal_file(), Overrides::default())
        .unwrap()
        .from;
    assert_ne!(a, b, "random from should differ between calls");
    assert!(a.contains('@'), "from should be address-shaped");
}

#[test]
fn retries_zero_is_clamped_to_one() {
    let cfg = Config::resolve(
        minimal_file(),
        Overrides {
            retries: Some(0),
            ..Default::default()
        },
    )
    .unwrap();
    assert_eq!(cfg.retries, 1);
}

#[test]
fn toml_server_section_is_parsed() {
    let mut file = FileConfig::default();
    file.server.host = Some("news.example.com".into());
    file.server.port = Some(119);
    file.server.ssl = Some(false);
    file.server.connections = Some(8);
    file.server.retry_delay = Some(5);
    let cfg = Config::resolve(
        file,
        Overrides {
            groups: Some(vec!["alt.test".into()]),
            ..Default::default()
        },
    )
    .unwrap();
    assert_eq!(cfg.host, "news.example.com");
    assert_eq!(cfg.port, 119);
    assert!(!cfg.ssl);
    assert_eq!(cfg.connections, 8);
    assert_eq!(cfg.retry_delay, 5);
}

#[test]
fn toml_auth_section_sets_credentials() {
    let mut file = FileConfig::default();
    file.server.host = Some("h".into());
    file.auth.username = Some("alice".into());
    file.auth.password = Some("s3cr3t".into());
    file.posting.groups = Some(vec!["alt.test".into()]);
    let cfg = Config::resolve(file, Overrides::default()).unwrap();
    assert_eq!(cfg.username.as_deref(), Some("alice"));
    assert_eq!(cfg.password.as_deref(), Some("s3cr3t"));
}

#[test]
fn toml_posting_section_sets_all_fields() {
    let mut file = FileConfig::default();
    file.server.host = Some("h".into());
    file.posting.groups = Some(vec!["alt.test".into()]);
    file.posting.from = Some("Bot <bot@example.com>".into());
    file.posting.article_size = Some(500000);
    file.posting.line_length = Some(64);
    file.posting.retries = Some(5);
    file.posting.par2 = Some(20);
    file.posting.verify = Some(true);
    file.posting.obfuscate = Some(ObfuscateMode::Subject);
    file.posting.date = Some("now".into());
    file.posting.no_archive = Some(true);
    file.posting.message_id_domain = Some("example.com".into());
    file.posting.upload_rate = Some("10 MiB/s".into());
    let cfg = Config::resolve(file, Overrides::default()).unwrap();
    assert_eq!(cfg.from, "Bot <bot@example.com>");
    assert_eq!(cfg.article_size, 500_000);
    assert_eq!(cfg.line_length, 64);
    assert_eq!(cfg.retries, 5);
    assert_eq!(cfg.par2, 20);
    assert!(cfg.verify);
    assert_eq!(cfg.obfuscate, ObfuscateMode::Subject);
    assert_eq!(cfg.date.as_deref(), Some("now"));
    assert!(cfg.no_archive);
    assert_eq!(cfg.message_id_domain.as_deref(), Some("example.com"));
    assert_eq!(cfg.upload_rate, 10 * 1024 * 1024);
}

#[test]
fn toml_output_section_sets_fields() {
    let mut file = FileConfig::default();
    file.server.host = Some("h".into());
    file.posting.groups = Some(vec!["alt.test".into()]);
    file.output.nzb_name = Some("My Release".into());
    file.output.nzb_category = Some("TV > HD".into());
    file.output.nzb_dir = Some("/tmp/nzb".into());
    file.output.history = Some(false);
    file.output.resume = Some(true);
    file.output.post_hook = Some("notify.sh".into());
    file.output.nfo = Some(true);
    let cfg = Config::resolve(file, Overrides::default()).unwrap();
    assert_eq!(cfg.nzb_name.as_deref(), Some("My Release"));
    assert_eq!(cfg.nzb_category.as_deref(), Some("TV > HD"));
    assert_eq!(cfg.nzb_dir.as_deref(), Some("/tmp/nzb"));
    assert!(!cfg.history);
    assert!(cfg.resume);
    assert_eq!(cfg.post_hook.as_deref(), Some("notify.sh"));
    assert!(cfg.nfo);
}

#[test]
fn toml_compression_section_sets_format() {
    let mut file = FileConfig::default();
    file.server.host = Some("h".into());
    file.posting.groups = Some(vec!["a".into()]);
    file.compression.format = Some("rar".into());
    let cfg = Config::resolve(file, Overrides::default()).unwrap();
    assert_eq!(cfg.compress_format.as_deref(), Some("rar"));
}

#[test]
fn toml_notify_section_sets_webhook_and_ntfy() {
    let mut file = FileConfig::default();
    file.server.host = Some("h".into());
    file.posting.groups = Some(vec!["alt.test".into()]);
    file.notify.webhook_url = Some("https://discord.com/api/webhooks/x".into());
    file.notify.ntfy_topic = Some("my-alerts".into());
    let cfg = Config::resolve(file, Overrides::default()).unwrap();
    assert_eq!(
        cfg.notify_webhook.as_deref(),
        Some("https://discord.com/api/webhooks/x")
    );
    assert_eq!(cfg.notify_ntfy.as_deref(), Some("my-alerts"));
}




#[test]
fn cli_overrides_article_size_and_retries() {
    let mut file = FileConfig::default();
    file.server.host = Some("h".into());
    file.posting.groups = Some(vec!["a.b".into()]);
    file.posting.article_size = Some(500_000);
    file.posting.retries = Some(2);

    let cli = Overrides {
        article_size: Some(999_000),
        retries: Some(5),
        ..Default::default()
    };

    let cfg = Config::resolve(file, cli).unwrap();
    assert_eq!(cfg.article_size, 999_000);
    assert_eq!(cfg.retries, 5);
}

#[test]
fn dry_run_does_not_require_host() {
    let mut file = FileConfig::default();
    file.posting.groups = Some(vec!["a.b".into()]);

    let cli = Overrides {
        dry_run: Some(true),
        ..Default::default()
    };

    let cfg = Config::resolve(file, cli).unwrap();
    assert!(cfg.dry_run);
    assert_eq!(cfg.host, "localhost");
}

#[test]
fn par2_only_does_not_require_host_or_groups() {
    let file = FileConfig::default();

    let cli = Overrides {
        par2_only: Some(true),
        ..Default::default()
    };

    let cfg = Config::resolve(file, cli).unwrap();
    assert!(cfg.par2_only);
}

#[test]
fn missing_groups_errors_for_normal_post() {
    let mut file = FileConfig::default();
    file.server.host = Some("h".into());
    // No groups set anywhere.

    assert!(Config::resolve(file, Overrides::default()).is_err());
}

#[test]
fn cli_overrides_ssl_and_connections() {
    let cfg = Config::resolve(
        minimal_file(),
        Overrides {
            ssl: Some(false),
            connections: Some(16),
            ..Default::default()
        },
    )
    .unwrap();
    assert!(!cfg.ssl);
    assert_eq!(cfg.connections, 16);
}

#[test]
fn cli_overrides_username_and_password() {
    let cfg = Config::resolve(
        minimal_file(),
        Overrides {
            username: Some("alice".into()),
            password: Some("hunter2".into()),
            ..Default::default()
        },
    )
    .unwrap();
    assert_eq!(cfg.username.as_deref(), Some("alice"));
    assert_eq!(cfg.password.as_deref(), Some("hunter2"));
}

#[test]
fn cli_overrides_line_length_and_retry_delay() {
    let cfg = Config::resolve(
        minimal_file(),
        Overrides {
            line_length: Some(64),
            retry_delay: Some(10),
            ..Default::default()
        },
    )
    .unwrap();
    assert_eq!(cfg.line_length, 64);
    assert_eq!(cfg.retry_delay, 10);
}

#[test]
fn cli_overrides_obfuscate_and_par2() {
    let cfg = Config::resolve(
        minimal_file(),
        Overrides {
            obfuscate: Some(ObfuscateMode::Full),
            par2: Some(25),
            ..Default::default()
        },
    )
    .unwrap();
    assert_eq!(cfg.obfuscate, ObfuscateMode::Full);
    assert_eq!(cfg.par2, 25);
}

#[test]
fn cli_overrides_verify_resume_no_archive() {
    let cfg = Config::resolve(
        minimal_file(),
        Overrides {
            verify: Some(true),
            resume: Some(true),
            no_archive: Some(true),
            ..Default::default()
        },
    )
    .unwrap();
    assert!(cfg.verify);
    assert!(cfg.resume);
    assert!(cfg.no_archive);
}

#[test]
fn cli_overrides_date_and_message_id_domain() {
    let cfg = Config::resolve(
        minimal_file(),
        Overrides {
            date: Some("random".into()),
            message_id_domain: Some("example.net".into()),
            ..Default::default()
        },
    )
    .unwrap();
    assert_eq!(cfg.date.as_deref(), Some("random"));
    assert_eq!(cfg.message_id_domain.as_deref(), Some("example.net"));
}

#[test]
fn cli_overrides_from_and_groups() {
    let cfg = Config::resolve(
        minimal_file(),
        Overrides {
            from: Some("Bot <bot@x>".into()),
            groups: Some(vec!["alt.binaries.test".into(), "alt.test".into()]),
            ..Default::default()
        },
    )
    .unwrap();
    assert_eq!(cfg.from, "Bot <bot@x>");
    assert_eq!(cfg.groups, vec!["alt.binaries.test", "alt.test"]);
}

#[test]
fn cli_overrides_upload_rate() {
    let cfg = Config::resolve(
        minimal_file(),
        Overrides {
            upload_rate: Some(5 * 1024 * 1024),
            ..Default::default()
        },
    )
    .unwrap();
    assert_eq!(cfg.upload_rate, 5 * 1024 * 1024);
}

#[test]
fn cli_overrides_compress_format_and_password() {
    let cfg = Config::resolve(
        minimal_file(),
        Overrides {
            compress_format: Some("zip".into()),
            compress_password: Some("pass123".into()),
            ..Default::default()
        },
    )
    .unwrap();
    assert_eq!(cfg.compress_format.as_deref(), Some("zip"));
    assert_eq!(cfg.compress_password.as_deref(), Some("pass123"));
}

#[test]
fn cli_overrides_nzb_metadata() {
    let cfg = Config::resolve(
        minimal_file(),
        Overrides {
            nzb_name: Some("My Show S01".into()),
            nzb_password: Some("abc".into()),
            nzb_category: Some("TV".into()),
            nzb_dir: Some("/out".into()),
            ..Default::default()
        },
    )
    .unwrap();
    assert_eq!(cfg.nzb_name.as_deref(), Some("My Show S01"));
    assert_eq!(cfg.nzb_password.as_deref(), Some("abc"));
    assert_eq!(cfg.nzb_category.as_deref(), Some("TV"));
    assert_eq!(cfg.nzb_dir.as_deref(), Some("/out"));
}

#[test]
fn cli_overrides_history_and_nfo_and_post_hook() {
    let cfg = Config::resolve(
        minimal_file(),
        Overrides {
            history: Some(false),
            nfo: Some(true),
            post_hook: Some("notify.sh".into()),
            ..Default::default()
        },
    )
    .unwrap();
    assert!(!cfg.history);
    assert!(cfg.nfo);
    assert_eq!(cfg.post_hook.as_deref(), Some("notify.sh"));
}

#[test]
fn cli_upload_rate_wins_over_file_upload_rate() {
    let mut file = FileConfig::default();
    file.server.host = Some("h".into());
    file.posting.groups = Some(vec!["a".into()]);
    file.posting.upload_rate = Some("100 MiB/s".into());
    let cfg = Config::resolve(
        file,
        Overrides {
            upload_rate: Some(1024),
            ..Default::default()
        },
    )
    .unwrap();
    assert_eq!(cfg.upload_rate, 1024);
}

#[test]
fn file_upload_rate_used_when_cli_absent() {
    let mut file = FileConfig::default();
    file.server.host = Some("h".into());
    file.posting.groups = Some(vec!["a".into()]);
    file.posting.upload_rate = Some("1 KiB/s".into());
    let cfg = Config::resolve(file, Overrides::default()).unwrap();
    assert_eq!(cfg.upload_rate, 1024);
}

fn server(host: &str, connections: Option<usize>) -> FileServerEntry {
    FileServerEntry {
        host: Some(host.into()),
        connections,
        ..Default::default()
    }
}

fn nameless_server(port: u16) -> FileServerEntry {
    FileServerEntry {
        port: Some(port),
        ..Default::default()
    }
}

#[test]
fn obfuscate_mode_parses_from_toml_and_defaults_to_none() {
    let mut file = minimal_file();
    file.posting.obfuscate = Some(ObfuscateMode::Full);
    let cfg = Config::resolve(file, Overrides::default()).unwrap();
    assert_eq!(cfg.obfuscate, ObfuscateMode::Full);
    assert_eq!(ObfuscateMode::default(), ObfuscateMode::Off);
}

#[test]
fn rates_with_fractions_are_rounded_down_to_bytes() {
    assert_eq!(parse_upload_rate("1.5k").unwrap(), 1536);
    assert_eq!(parse_upload_rate("0.1 GiB/s").unwrap(), 107_374_182);
    assert_eq!(parse_upload_rate(".5 mb").unwrap(), 524_288);
    assert_eq!(parse_upload_rate("5.").unwrap(), 5);
    assert_eq!(parse_upload_rate(" 10 Mbps ").unwrap(), 10 * 1024 * 1024);
    assert_eq!(parse_upload_rate("0.0000000000000000000001").unwrap(), 0);
    assert_eq!(parse_upload_rate("0").unwrap(), 0);
}

#[test]
fn rates_agree_with_double_precision() {
    for text in [
        "0.3",
        "123.456",
        "9007199254740993",
        "9007199254740992.5",
        "18014398509481985",
        "18446744073709551615",
        "18446744073709551616",
        "99999999999999999999999",
        "0.00000000093132257461548",
        "3.1415926535897932384626433832795028841971",
        "12345678.000000001",
        "1.9999999999999999",
    ] {
        for (unit, factor) in [("", 1.0), ("k", 1024.0), ("M", 1048576.0), ("GiB", 1073741824.0)] {
            let expected = (text.parse::<f64>().unwrap() * factor) as u64;
            assert_eq!(parse_upload_rate(&format!("{text} {unit}/s")).unwrap(), expected, "{text} {unit}");
        }
    }
}

#[test]
fn bad_rates_say_why() {
    let err = parse_upload_rate("10 TiB/s").unwrap_err();
    assert_eq!(err.message(), "unknown rate unit `tib` in `10 TiB`");
    for text in ["", ".", "1.2.3", "-5", "fast"] {
        let err = parse_upload_rate(text).unwrap_err();
        assert!(matches!(err, RateError::InvalidNumber { .. }), "{text}");
    }
    assert_eq!(parse_upload_rate(" x/s").unwrap_err().message(), "invalid upload rate `x`");
}

#[test]
fn every_error_has_its_message() {
    let file = FileConfig {
        extra_servers: vec![nameless_server(1)],
        ..Default::default()
    };
    let err = Config::resolve(file, base_overrides()).unwrap_err();
    assert_eq!(err.message(), "first [[servers]] entry has no `host`");
    let file = FileConfig {
        extra_servers: vec![server("p", None), nameless_server(1)],
        ..Default::default()
    };
    let err = Config::resolve(file, base_overrides()).unwrap_err();
    assert_eq!(err.message(), "[[servers]] entry missing `host`");
    let err = Config::resolve(FileConfig::default(), base_overrides()).unwrap_err();
    assert_eq!(err.message(), "no `host` set: provide [server].host or --host");
    let mut file = minimal_file();
    file.posting.groups = Some(vec![]);
    let err = Config::resolve(file, Overrides::default()).unwrap_err();
    assert_eq!(err.message(), "no `groups` set: provide [posting].groups or --groups");
    let mut file = minimal_file();
    file.posting.upload_rate = Some("quick".into());
    let err = Config::resolve(file, Overrides::default()).unwrap_err();
    assert_eq!(err.message(), "invalid upload rate `quick`");
}

#[test]
fn all_servers_lists_the_primary_first() {
    let file = FileConfig {
        extra_servers: vec![server("a", Some(4)), server("b", None)],
        ..Default::default()
    };
    let cfg = Config::resolve(file, base_overrides()).unwrap();
    let servers = cfg.all_servers();
    assert_eq!(servers.len(), 2);
    assert_eq!(servers[0].host, "a");
    assert_eq!(servers[1].host, "b");
    assert_eq!(servers[1].connections, DEFAULT_CONNECTIONS);
    assert_eq!(servers[1].port, DEFAULT_PORT);
    assert!(servers[1].ssl);
}

#[test]
fn an_identity_can_be_given() {
    let cfg = Config::resolve_as(minimal_file(), Overrides::default(), "x <y@z>".into()).unwrap();
    assert_eq!(cfg.from, "x <y@z>");
    assert!(!cfg.check);
    assert_eq!(cfg.check_delay_secs, 30);
    assert_eq!(cfg.check_retries, 2);
}

#[test]
fn the_config_file_has_a_place() {
    assert_eq!(
        default_config_path(Some("/x"), Some("/home/u")).as_deref(),
        Some("/x/pesto/config.toml")
    );
    assert_eq!(
        default_config_path(Some(""), Some("/home/u/")).as_deref(),
        Some("/home/u/.config/pesto/config.toml")
    );
    assert_eq!(default_config_path(None, None), None);
    assert_eq!(config_dir(None, Some("/home/u")).as_deref(), Some("/home/u/.config/pesto"));
    assert_eq!(config_dir(None, None), None);
}

#[test]
fn rates_ignore_case() {
    assert_eq!(parse_upload_rate("50 MIB/S").unwrap(), 52_428_800);
    assert_eq!(parse_upload_rate("50 mib/s").unwrap(), 52_428_800);
    assert_eq!(parse_upload_rate("10 MBPS").unwrap(), 10_485_760);
    assert_eq!(parse_upload_rate("1 kB/S").unwrap(), 1024);
}

use nxdl::cli::{
    decide_action, find_ngm_alias, find_nxl_alias, is_ngm, json_mode, lookup_appid, lookup_ngm,
    plan_ngm, plan_nxl, plan_plain, resolve_appid, resolve_or_keep, Action, Cli, Commands, Job,
    ListOption, ManifestSource, UsageError,
};
use nxdl::login::Region;
use nxdl::net::{
    normalize_proxy_url, parse_windows_proxy_server, proxy_variable_names, resolve_proxy,
    system_proxy, ProxyChoice,
};
use nxdl::ngm::{decode_path, info_url, list_files, GameInfo, NgmManifestFile};
use nxdl::paths::PathFault;
use nxdl::retry::{after_attempt, Next};
use nxdl::taskprogress::{clear_sequence, progress_sequence, terminal_supports_osc94};

fn text(s: &str) -> Option<String> {
    Some(s.to_owned())
}

#[test]
fn aliases_name_applications() {
    let all = [
        ("gms", "10100", false),
        ("gmb", "10200", false),
        ("vin_gl", "10300", false),
        ("gms_pts", "40600", false),
        ("gms_cw", "59822", false),
        ("tales_jp", "2528@c829", true),
        ("kmb", "74245@761d", true),
        ("kmbt", "106542@b48c", true),
        ("kms", "589825", true),
        ("kmst", "589826", true),
        ("kms_mac", "589825@ce13", true),
        ("kmst_mac", "589826@7235", true),
        ("jmb", "16785925", true),
        ("jms", "16785939@bb01", true),
        ("kmsm", "106656", true),
        ("msn", "106690@d811", true),
    ];
    for (alias, id, ngm) in all {
        assert_eq!(resolve_appid(alias), text(id));
        assert_eq!(resolve_appid(&alias.to_uppercase()), text(id));
        assert_eq!(is_ngm(alias), ngm);
        assert_eq!(is_ngm(&alias.to_uppercase()), ngm);
        assert_eq!(find_ngm_alias(alias).is_some(), ngm);
        assert_eq!(find_nxl_alias(alias).is_some(), !ngm);
    }
    assert_eq!(find_nxl_alias("GMS"), None);
}

#[test]
fn numbers_name_themselves() {
    for n in ["0", "10100", "007"] {
        assert_eq!(resolve_appid(n), text(n));
        assert!(!is_ngm(n));
    }
    assert_eq!(resolve_appid(""), None);
    assert!(!is_ngm(""));
    assert_eq!(lookup_appid("", ""), None);
    assert_eq!(resolve_or_keep(""), "");
    assert_eq!(resolve_appid("unknown"), None);
    assert_eq!(resolve_appid("16785939@bb01"), None);
    assert!(is_ngm("16785939@bb01"));
    assert!(!is_ngm("unknown"));
    assert_eq!(resolve_appid("１２"), None);
}

#[test]
fn letters_are_made_small_by_unicode() {
    // The Kelvin sign is a K.
    assert_eq!(resolve_appid("\u{212A}ms"), text("589825"));
    assert!(is_ngm("\u{212A}MS"));
    assert_eq!(lookup_appid("X", "kms"), text("589825"));
    assert_eq!(lookup_appid("12", "kms"), text("12"));
    assert!(lookup_ngm("X", "jms"));
    assert!(!lookup_ngm("X", "gms"));
    assert!(lookup_ngm("a@b", "a@b"));
    assert_eq!(resolve_or_keep("JMS"), "16785939@bb01");
    assert_eq!(resolve_or_keep("Other"), "Other");
}

fn cli() -> Cli {
    Cli {
        command: None,
        game: None,
        appid: None,
        download: None,
        patch: None,
        check: None,
        verbose: 0,
        filter: None,
        filter_regex: None,
        invert_filter: false,
        json: false,
        proxy: None,
        allow_insecure: false,
    }
}

#[test]
fn an_id_goes_before_a_game() {
    let none = cli();
    assert_eq!(none.resolve_appid(), None);
    let game = Cli { game: text("gms"), ..cli() };
    assert_eq!(game.resolve_appid(), text("10100"));
    let both = Cli { game: text("gms"), appid: text("jms"), ..cli() };
    assert_eq!(both.resolve_appid(), text("16785939@bb01"));
    let unknown = Cli { game: text("gms"), appid: text("what"), ..cli() };
    assert_eq!(unknown.resolve_appid(), None);
    assert_eq!(unknown.raw_appid(), Some(&"what".to_owned()));
}

#[test]
fn a_check_goes_before_a_download_and_that_before_a_patch() {
    let two = Some(vec!["m".to_owned(), "t".to_owned()]);
    let one = Some(vec!["t".to_owned()]);
    let none: Option<Vec<String>> = None;
    assert!(matches!(
        decide_action(&Some(text("u")), &two, &two, true),
        Action::Check { source: ManifestSource::Given(u) } if u == "u"
    ));
    assert!(matches!(
        decide_action(&Some(None), &two, &two, false),
        Action::Check { source: ManifestSource::Account }
    ));
    assert!(matches!(decide_action(&Some(None), &none, &none, true), Action::CheckNgm));
    assert!(matches!(
        decide_action(&None, &two, &two, true),
        Action::Download { source: ManifestSource::Given(m), target } if m == "m" && target == "t"
    ));
    assert!(matches!(
        decide_action(&None, &one, &two, false),
        Action::Download { source: ManifestSource::Account, target } if target == "t"
    ));
    assert!(matches!(
        decide_action(&None, &one, &none, true),
        Action::DownloadNgm { target } if target == "t"
    ));
    assert!(matches!(
        decide_action(&None, &none, &two, true),
        Action::Patch { version, target } if version == "m" && target == "t"
    ));
    assert!(matches!(
        decide_action(&None, &Some(vec![]), &none, true),
        Action::Malformed { option: ListOption::Download }
    ));
    assert!(matches!(
        decide_action(&None, &none, &one, true),
        Action::Malformed { option: ListOption::Patch }
    ));
    assert_eq!(
        ListOption::Download.usage(),
        "--download takes <TARGET_PATH> or <MANIFEST_URL> <TARGET_PATH>"
    );
    assert_eq!(ListOption::Patch.usage(), "--patch takes <MANIFEST_URL> <TARGET_PATH>");
    assert!(matches!(decide_action(&None, &none, &none, true), Action::Nothing));
}

#[test]
fn the_subcommands_are_planned() {
    let none: Option<Vec<String>> = None;
    for (value, region) in [
        (None, Region::Global),
        (text("sea"), Region::Sea),
        (text(" TW "), Region::Taiwan),
    ] {
        let job = plan_nxl(&None, &Some(value), &None, &none, &none).unwrap();
        assert!(matches!(job, Job::Login { region: r } if r == region));
    }
    let err = plan_nxl(&None, &Some(text("jp")), &None, &none, &none).unwrap_err();
    assert_eq!(
        err.message(),
        "unknown region 'jp'. Valid values: ww/gl/worldwide/global, tw/taiwan, \
         sea/southeastasia, th/thailand"
    );
    let err = plan_nxl(&None, &None, &None, &none, &none).unwrap_err();
    assert!(matches!(err, UsageError::MissingAppid));
    assert_eq!(
        err.message(),
        "--appid is required for --check and --download\n\
         Usage: nxdl nxl --appid <APPID> --check <MANIFEST_URL>"
    );
    // A subcommand fixes the kind of client, and keeps what it does not know.
    let job = plan_nxl(&text("jms"), &None, &Some(None), &none, &none).unwrap();
    assert!(matches!(
        job,
        Job::Work { id, raw, action: Action::Check { source: ManifestSource::Account } }
            if id == "16785939@bb01" && raw == "jms"
    ));
    let job = plan_ngm(&"odd".to_owned(), false, &text("dir"));
    assert!(matches!(
        job,
        Job::Work { id, raw, action: Action::DownloadNgm { target } }
            if id == "odd" && raw == "odd" && target == "dir"
    ));
    let job = plan_ngm(&"kms".to_owned(), true, &text("dir"));
    assert!(matches!(job, Job::Work { action: Action::CheckNgm, .. }));
    let job = plan_ngm(&"kms".to_owned(), false, &None);
    assert!(matches!(job, Job::Work { action: Action::Nothing, .. }));
}

#[test]
fn the_program_without_a_subcommand_is_planned() {
    assert_eq!(
        plan_plain(&cli()).unwrap_err().message(),
        "unknown appid: '??' (must be a number or a known alias)"
    );
    assert_eq!(
        plan_plain(&Cli { appid: text("x"), game: text("gms"), ..cli() }).unwrap_err().message(),
        "unknown appid: 'x' (must be a number or a known alias)"
    );
    assert_eq!(
        plan_plain(&Cli { appid: text(""), ..cli() }).unwrap_err().message(),
        "unknown appid: '' (must be a number or a known alias)"
    );
    assert_eq!(Cli { appid: text(""), game: text("gms"), ..cli() }.resolve_appid(), None);
    let job = plan_plain(&Cli { game: text("JMS"), check: Some(None), ..cli() }).unwrap();
    assert!(matches!(
        job,
        Job::Work { id, raw, action: Action::CheckNgm } if id == "16785939@bb01" && raw == "JMS"
    ));
    let job = plan_plain(&Cli { game: text("gms"), check: Some(None), ..cli() }).unwrap();
    assert!(matches!(
        job,
        Job::Work { action: Action::Check { source: ManifestSource::Account }, .. }
    ));
}

#[test]
fn machine_output_has_no_banner() {
    assert!(!json_mode(&cli()));
    assert!(json_mode(&Cli { json: true, ..cli() }));
    for json in [false, true] {
        let command = Some(Commands::Ngm {
            appid: "kms".to_owned(),
            check: true,
            download: None,
            verbose: 0,
            filter: None,
            filter_regex: None,
            invert_filter: false,
            json,
            proxy: None,
            allow_insecure: false,
        });
        assert_eq!(json_mode(&Cli { command, ..cli() }), json);
    }
}

#[test]
fn proxies_get_a_scheme() {
    assert_eq!(normalize_proxy_url("127.0.0.1:8080"), "http://127.0.0.1:8080");
    assert_eq!(normalize_proxy_url("socks5://h:1"), "socks5://h:1");
    let once = normalize_proxy_url("h");
    assert_eq!(normalize_proxy_url(&once), once);
}

#[test]
fn the_proxy_option_is_resolved() {
    assert!(matches!(resolve_proxy(None, text("s")), ProxyChoice::Direct));
    let given = resolve_proxy(Some(&text(" h:1 ")), text("s"));
    assert_eq!(given.url(), text("http://h:1"));
    assert_eq!(given.report(), text("using proxy: http://h:1"));
    for blank in [None, text(""), text("  ")] {
        let system = resolve_proxy(Some(&blank), text("s"));
        assert_eq!(system.url(), text("s"));
        assert_eq!(system.report(), text("using system proxy: s"));
        let none = resolve_proxy(Some(&blank), None);
        assert_eq!(none.url(), None);
        assert_eq!(none.report(), text("no system proxy configured; connecting directly."));
    }
    assert_eq!(resolve_proxy(None, None).report(), None);
}

#[test]
fn the_system_proxy_is_the_first_variable_that_is_set() {
    assert_eq!(
        proxy_variable_names(),
        vec!["ALL_PROXY", "all_proxy", "HTTPS_PROXY", "https_proxy", "HTTP_PROXY", "http_proxy"]
    );
    assert_eq!(
        system_proxy(&[None, text(" "), text(" a:1 "), text("b")], text("os")),
        text("http://a:1")
    );
    assert_eq!(system_proxy(&[None, text("")], text("os")), text("os"));
    assert_eq!(system_proxy(&[], None), None);
}

#[test]
fn the_windows_setting_is_parsed() {
    let cases = [
        ("", None),
        ("  ", None),
        (" h:1 ", Some("http://h:1")),
        ("http=a:1;https=b:2;socks=c:3", Some("http://b:2")),
        ("http=a:1;socks=c:3", Some("http://a:1")),
        ("socks=c:3", Some("socks5://c:3")),
        ("SOCKS = socks4://c:3 ", Some("socks4://c:3")),
        ("https=;http=a", Some("http://a")),
        ("https=x;HTTPS = y ", Some("http://y")),
        ("https=x;https=", Some("http://x")),
        ("ftp=a;b", None),
        ("=", None),
    ];
    for (setting, meant) in cases {
        assert_eq!(parse_windows_proxy_server(setting), meant.map(str::to_owned), "{setting:?}");
    }
}

#[test]
fn ngm_addresses_are_put_together() {
    assert_eq!(info_url("589825"), "https://ngmapi.nexon.com/game-info/589825");
    let info = |base: &str, name: Option<&str>| GameInfo {
        game_name: "g".to_owned(),
        setup_file_url: base.to_owned(),
        manifest_name: name.map(str::to_owned),
    };
    assert_eq!(info("https://h/s", Some("m")).manifest_url(), text("https://h/s/m"));
    assert_eq!(info("https://h/s//", Some("m")).manifest_url(), text("https://h/s/m"));
    assert_eq!(info("https://h/s", None).manifest_url(), None);
}

#[test]
fn ngm_paths_are_base64_of_utf8() {
    assert_eq!(decode_path("YVxi"), Ok("a\\b".to_owned()));
    assert_eq!(decode_path("w6k="), Ok("é".to_owned()));
    assert_eq!(decode_path("/w=="), Err(PathFault::NotUtf8));
    assert_eq!(decode_path("#"), Err(PathFault::NotBase64));
}

#[test]
fn ngm_files_are_listed() {
    let file = |objects: &[(&str, &str)], size: u64| NgmManifestFile {
        objects: objects.iter().map(|(a, b)| (a.to_string(), b.to_string())).collect(),
        uncompressed_size: size,
        hash: String::new(),
    };
    let files = vec![
        ("Yg==".to_owned(), file(&[("0", "x"), ("1", "y")], 9)),
        ("YQ==".to_owned(), file(&[("0", "x")], 4)),
        ("Yw==".to_owned(), file(&[], 1)),
        ("ZA==".to_owned(), file(&[("0", "__DIR__")], 1)),
        ("ZQ==".to_owned(), file(&[("__DIR__", "0")], 2)),
        ("?".to_owned(), file(&[], 1)),
    ];
    let tally = list_files(&files, None);
    let shown: Vec<(&str, u64, usize)> =
        tally.entries.iter().map(|e| (e.path.as_str(), e.size, e.chunks)).collect();
    assert_eq!(shown, vec![("a", 4, 1), ("b", 9, 2), ("e", 2, 1)]);
    assert_eq!(tally.dir_count, 2);
    assert_eq!(tally.faults, vec![PathFault::NotBase64]);
}

#[test]
fn a_request_is_tried_six_times() {
    assert_eq!(after_attempt(0, true), Next::Deliver);
    for failed in 0..5 {
        assert_eq!(after_attempt(failed, false), Next::Again);
    }
    assert_eq!(after_attempt(5, false), Next::GiveUp);
    assert_eq!(after_attempt(5, true), Next::Deliver);
    let outcomes = [false, false, true, false, true, false];
    let mut tried = 0;
    for (i, ok) in outcomes.iter().enumerate() {
        tried += 1;
        if after_attempt(i as u32, *ok) != Next::Again {
            break;
        }
    }
    assert_eq!(tried, 3);
}

#[test]
fn terminals_that_show_progress_are_known() {
    let s = |x: &str| x.to_owned();
    assert!(terminal_supports_osc94(true, None, None));
    assert!(terminal_supports_osc94(false, Some(&s("on")), None));
    assert!(!terminal_supports_osc94(false, Some(&s("off")), Some(&s("xterm"))));
    for name in ["vscode", "kiro", "WezTerm"] {
        assert!(terminal_supports_osc94(false, None, Some(&s(name))));
    }
    assert!(!terminal_supports_osc94(false, None, Some(&s("wezterm"))));
    assert!(!terminal_supports_osc94(false, None, None));
    assert_eq!(progress_sequence(42), "\x1b]9;4;4;42\x1b\\");
    assert_eq!(progress_sequence(100), progress_sequence(1000));
    assert_eq!(clear_sequence(), "\x1b]9;4;0;0\x1b\\");
}

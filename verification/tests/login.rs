use nxdl::login::{
    account_url, branch_url, capture_cookies, cookie_header, cookie_urls, extract_api_message,
    interpret_branch_response, is_login_complete, judge_branch_reply, keep_filled, merge_cookies,
    parse_nexon_tag, parse_session, render_ini, url_matches_prefix, window_outcome, window_step,
    BranchError, CaptureError, NotJson, Region, SessionError, WindowAction, WindowEvent,
};

fn owned(pairs: &[(&str, &str)]) -> Vec<(String, String)> {
    pairs.iter().map(|(a, b)| (a.to_string(), b.to_string())).collect()
}

#[test]
fn parses_region_aliases_case_insensitively() {
    for s in ["ww", "GL", "Worldwide", "GLOBAL"] {
        assert_eq!(Region::parse(s), Some(Region::Global));
    }
    assert_eq!(Region::parse("tw"), Some(Region::Taiwan));
    assert_eq!(Region::parse("Taiwan"), Some(Region::Taiwan));
    assert_eq!(Region::parse("sea"), Some(Region::Sea));
    assert_eq!(Region::parse("SouthEastAsia"), Some(Region::Sea));
    assert_eq!(Region::parse("th"), Some(Region::Thailand));
    assert_eq!(Region::parse("thailand"), Some(Region::Thailand));
    assert_eq!(Region::parse("jp"), None);
}

#[test]
fn region_codes_name_their_regions() {
    for region in [Region::Global, Region::Taiwan, Region::Sea, Region::Thailand] {
        assert_eq!(Region::parse(region.code()), Some(region));
        assert_eq!(Region::parse(&format!(" \t{}\n", region.code().to_uppercase())), Some(region));
    }
    assert_eq!(Region::parse(""), None);
}

#[test]
fn builds_login_urls() {
    assert_eq!(Region::Global.login_url(), "https://www.nexon.com/account/login");
    assert_eq!(Region::Taiwan.login_url(), "https://tw.nexon.com/account/login");
    assert_eq!(Region::Sea.login_url(), "https://sea.nexon.com/account/login");
    assert_eq!(Region::Thailand.login_url(), "https://th.nexon.com/account/login");
}

#[test]
fn builds_account_urls() {
    assert_eq!(account_url(Region::Sea), "https://sea.nexon.com/api/account/v1/account");
    assert_eq!(
        branch_url(Region::Global, "10100"),
        "https://www.nexon.com/api/game-build/v1/branch/games/10100/public"
    );
    assert_eq!(Region::Thailand.domain(), "th.nexon.com");
}

#[test]
fn parses_nexon_tag_from_account_response() {
    // Abridged real response shape from `/api/account/v1/account`.
    let body = r#"{
            "email": "user@example.com",
            "isVerified": true,
            "countryCode": "US",
            "nexonTag": "NxTag#1234",
            "renamesRemaining": 1,
            "name": "",
            "isMinor": false
        }"#;
    assert_eq!(
        parse_nexon_tag(body).unwrap(),
        Some("NxTag#1234".to_owned())
    );

    // Missing / empty tag → None.
    assert_eq!(parse_nexon_tag(r#"{"email":"a@b.c"}"#).unwrap(), None);
    assert_eq!(parse_nexon_tag(r#"{"nexonTag":""}"#).unwrap(), None);

    // Invalid JSON → error.
    assert!(parse_nexon_tag("not json").is_err());
}

#[test]
fn tags_that_are_no_strings_do_not_count() {
    assert_eq!(parse_nexon_tag(r#"{"nexonTag":12}"#), Ok(None));
    assert_eq!(parse_nexon_tag(r#"["nexonTag"]"#), Ok(None));
    assert_eq!(parse_nexon_tag(r#"{"nexonTag":"aA"}"#), Ok(Some("aA".to_owned())));
    let err = parse_nexon_tag("{").unwrap_err();
    assert_eq!(
        err,
        NotJson { cause: "EOF while parsing an object at line 1 column 1".to_owned() }
    );
    assert_eq!(
        err.message(),
        "failed to parse account response as JSON: EOF while parsing an object at line 1 column 1"
    );
    assert_eq!(
        parse_nexon_tag("not json").unwrap_err().cause,
        serde_json::from_str::<serde_json::Value>("not json").unwrap_err().to_string()
    );
    assert_eq!(keep_filled(Some(String::new())), None);
    assert_eq!(keep_filled(Some(" ".to_owned())), Some(" ".to_owned()));
    assert_eq!(keep_filled(None), None);
}

#[test]
fn parses_manifest_url_from_branch_response() {
    // Real response shape from `/api/game-build/v1/branch/games/<id>/public`.
    let body = r#"{
            "branchName": "Public",
            "executablePath": null,
            "parameter": null,
            "useBranchDirectory": false,
            "manifestUrl": "http://download2.nexon.net/Game/nxl/games/10100/10100.pub229_3_0_3ed487493a3359742d807712ddb180e9.manifest.hash",
            "releaseDate": "2022-01-20T17:42:33.579z",
            "serviceId": "1049736197",
            "toyServiceId": null
        }"#;
    assert_eq!(
        interpret_branch_response("10100", 200, body).unwrap(),
        "http://download2.nexon.net/Game/nxl/games/10100/10100.pub229_3_0_3ed487493a3359742d807712ddb180e9.manifest.hash"
    );
}

#[test]
fn maps_branch_not_found_error() {
    // As a JSON body with a message field...
    let err = interpret_branch_response("59822", 404, r#"{"message":"Product cannot be found"}"#)
        .unwrap_err()
        .message();
    assert!(err.contains("59822"), "got: {err}");
    assert!(err.contains("was not found"), "got: {err}");

    // ...and inferred from a bare message even on a 200.
    let err = interpret_branch_response("59822", 200, r#"{"message":"Product cannot be found"}"#)
        .unwrap_err()
        .message();
    assert!(err.contains("was not found"), "got: {err}");
}

#[test]
fn maps_branch_permission_error() {
    let err = interpret_branch_response(
        "59822",
        403,
        r#"{"message":"User does not have permission"}"#,
    )
    .unwrap_err()
    .message();
    assert!(err.contains("59822"), "got: {err}");
    assert!(err.contains("does not have permission"), "got: {err}");
}

#[test]
fn maps_other_branch_errors() {
    // Unknown error with a message → surfaced verbatim with status.
    let err = interpret_branch_response("10100", 500, r#"{"message":"Internal error"}"#)
        .unwrap_err()
        .message();
    assert!(err.contains("HTTP 500"), "got: {err}");
    assert!(err.contains("Internal error"), "got: {err}");

    // No manifestUrl and no message.
    assert!(interpret_branch_response("10100", 200, r#"{"branchName":"Public"}"#).is_err());
    assert!(interpret_branch_response("10100", 200, "not json").is_err());
}

#[test]
fn branch_errors_have_their_words() {
    let judge = |status: u16, body: &str| {
        judge_branch_reply("7", status, body, None, None).unwrap_err().message()
    };
    assert_eq!(
        judge(404, ""),
        "product '7' was not found. Double-check the appid — it may be wrong, retired, or not \
         published in this account's region."
    );
    assert_eq!(judge(200, "NOT FOUND"), judge(404, ""));
    let denied = "your account does not have permission for product '7'. It may require \
         ownership/entitlement, or a different account region (try `nxdl nxl --login <region>`).";
    assert_eq!(judge(401, ""), denied);
    assert_eq!(judge(403, ""), denied);
    for body in ["No Permission", "not authorized", "Unauthorized", "FORBIDDEN"] {
        assert_eq!(judge(200, body), denied);
    }
    assert_eq!(
        judge(204, " \n"),
        "branch API returned HTTP 204 with no manifestUrl for product '7'."
    );
    assert_eq!(
        judge(500, " oops "),
        "branch API error for product '7' (HTTP 500): oops"
    );
    // A message goes before the body; an empty address is none.
    let err = judge_branch_reply("7", 500, "body", Some(String::new()), Some("told".to_owned()))
        .unwrap_err();
    assert!(matches!(err, BranchError::Message { status: 500, .. }));
    assert_eq!(err.message(), "branch API error for product '7' (HTTP 500): told");
    assert_eq!(
        judge_branch_reply("7", 404, "body", Some("u".to_owned()), None).unwrap(),
        "u"
    );
}

#[test]
fn messages_are_found_under_the_names_in_use() {
    let parse = |s: &str| -> serde_json::Value { serde_json::from_str(s).unwrap() };
    assert_eq!(
        extract_api_message(&parse(r#"{"detail":"d","msg":"m","message":"  "}"#)),
        Some("m".to_owned())
    );
    assert_eq!(
        extract_api_message(&parse(r#"{"error":" e ","message":3}"#)),
        Some("e".to_owned())
    );
    assert_eq!(
        extract_api_message(&parse(r#"{"errorMessage":"em","msg":"m"}"#)),
        Some("em".to_owned())
    );
    assert_eq!(extract_api_message(&parse(r#"{"detail":"d"}"#)), Some("d".to_owned()));
    assert_eq!(extract_api_message(&parse("[]")), None);
    assert_eq!(extract_api_message(&parse("{}")), None);
}

#[test]
fn round_trips_saved_session() {
    let cookies = vec![
        ("AToken".to_owned(), "abc.def=ghi".to_owned()),
        ("g_AToken".to_owned(), "xyz".to_owned()),
        ("NxLSession".to_owned(), "s3ss10n".to_owned()),
    ];
    let ini = render_ini(Region::Taiwan, &cookies);
    let session = parse_session(&ini).unwrap();
    assert_eq!(session.region, Region::Taiwan);
    assert_eq!(session.cookies, cookies);
}

#[test]
fn round_trips_odd_cookies() {
    let cookies = owned(&[
        ("[a", "x"),
        ("a]", "]"),
        ("[b]", ""),
        ("empty", ""),
        ("inner space", "a = b ; c # d"),
        ("dup", "1"),
        ("dup", "2"),
        ("ünï", "値"),
    ]);
    for region in [Region::Global, Region::Taiwan, Region::Sea, Region::Thailand] {
        let session = parse_session(&render_ini(region, &cookies)).unwrap();
        assert_eq!(session.region, region);
        assert_eq!(session.cookies, cookies);
    }
}

#[test]
fn some_cookies_cannot_be_kept() {
    // A name with `=`, a section in disguise, a comment, white space, a line
    // break: each comes back as something else or not at all.
    for (name, value) in [
        ("a=b", "c"),
        ("[a", "b]"),
        ("#a", "b"),
        (";a", "b"),
        (" a", "b"),
        ("a", "b "),
        ("a", "b\nc"),
        ("", "b"),
    ] {
        let cookies = owned(&[("first", "1"), (name, value)]);
        let session = parse_session(&render_ini(Region::Sea, &cookies)).unwrap();
        assert_ne!(session.cookies, cookies);
    }
}

#[test]
fn renders_a_session() {
    assert_eq!(
        render_ini(Region::Global, &owned(&[("n", "v"), ("m", "w")])),
        "[account]\nregion = ww\n\n[cookies]\nn = v\nm = w\n"
    );
}

#[test]
fn rejects_incomplete_session() {
    // No region.
    assert!(parse_session("[cookies]\nAToken = x\n").is_err());
    // No cookies.
    assert!(parse_session("[account]\nregion = ww\n").is_err());
}

#[test]
fn reads_a_session_written_by_hand() {
    let ini = "; note\r\n[ Account ]\r\n REGION=Taiwan \r\n# more\r\n[COOKIES]\r\na=1\r\n = x\r\nb\r\n[other]\r\nc=2";
    let session = parse_session(ini).unwrap();
    assert_eq!(session.region, Region::Taiwan);
    assert_eq!(session.cookies, owned(&[("a", "1")]));
    // The last region counts, also where it is not valid.
    let bad = "[account]\nregion=ww\nregion=xx\n[cookies]\na=1";
    assert_eq!(parse_session(bad).unwrap_err(), SessionError::NoRegion);
    assert_eq!(
        parse_session("[account]\nregion=ww").unwrap_err(),
        SessionError::NoCookies
    );
    assert_eq!(
        SessionError::NoRegion.message(),
        "nxl.ini is missing a valid [account] region"
    );
    assert_eq!(
        SessionError::NoCookies.message(),
        "nxl.ini has no [cookies]; re-run `nxdl nxl --login`"
    );
}

#[test]
fn maps_region_languages() {
    assert_eq!(Region::Global.language(), "en");
    assert_eq!(Region::Sea.language(), "en");
    assert_eq!(Region::Taiwan.language(), "zh");
    assert_eq!(Region::Thailand.language(), "th");
}

#[test]
fn detects_login_completion_global() {
    // `/main/<language>` portal landing.
    assert!(is_login_complete("https://www.nexon.com/main/en", Region::Global));
    assert!(is_login_complete(
        "https://www.nexon.com/main/en/home",
        Region::Global
    ));
    // Account settings landing page (with query string).
    assert!(is_login_complete(
        "https://www.nexon.com/account/en/setting/account-overview?foo=bar&baz=1",
        Region::Global
    ));

    // Still on the login page.
    assert!(!is_login_complete(
        "https://www.nexon.com/account/login",
        Region::Global
    ));
    // `/main/` with no language segment.
    assert!(!is_login_complete("https://www.nexon.com/main/", Region::Global));
}

#[test]
fn detects_login_completion_all_regions() {
    // Portal landing on each region's own domain, in its language.
    assert!(is_login_complete("https://tw.nexon.com/main/zh", Region::Taiwan));
    assert!(is_login_complete("https://sea.nexon.com/main/en", Region::Sea));
    assert!(is_login_complete("https://th.nexon.com/main/th", Region::Thailand));

    // Account overview on the central portal, in the region's language.
    assert!(is_login_complete(
        "https://www.nexon.com/account/zh/setting/account-overview",
        Region::Taiwan
    ));
    assert!(is_login_complete(
        "https://www.nexon.com/account/th/setting/account-overview",
        Region::Thailand
    ));
    assert!(is_login_complete(
        "https://www.nexon.com/account/en/setting/account-overview",
        Region::Sea
    ));

    // Account overview on the region's own domain.
    assert!(is_login_complete(
        "https://tw.nexon.com/account/zh/setting/account-overview",
        Region::Taiwan
    ));

    // Wrong language for the region should not count as complete.
    assert!(!is_login_complete(
        "https://www.nexon.com/account/en/setting/account-overview",
        Region::Taiwan
    ));
    // A different region's portal is not this region's landing page.
    assert!(!is_login_complete("https://www.nexon.com/main/en", Region::Taiwan));
}

#[test]
fn queries_and_slashes_do_not_matter_for_a_page() {
    assert!(url_matches_prefix("http://h/p/?x", "http://h/p"));
    assert!(url_matches_prefix("http://h/p#x/y", "http://h/p//"));
    assert!(url_matches_prefix("http://h/p/q", "http://h/p/"));
    assert!(!url_matches_prefix("http://h/pq", "http://h/p"));
    assert!(!url_matches_prefix("?http://h/p", "http://h/p"));
    assert!(url_matches_prefix("?", ""));
    for url in ["http://h/p", "http://h/p/q?x", "http://h/x", "#"] {
        for tail in ["", "?a/b", "#", "#?"] {
            let full = format!("{url}{tail}");
            for prefix in ["http://h/p", "http://h/", ""] {
                assert_eq!(url_matches_prefix(&full, prefix), url_matches_prefix(url, prefix));
            }
        }
    }
}

#[test]
fn cookies_make_a_header() {
    assert_eq!(cookie_header(&[]), "");
    assert_eq!(cookie_header(&owned(&[("a", "1")])), "a=1");
    assert_eq!(cookie_header(&owned(&[("a", "1"), ("b", ""), ("c", "3")])), "a=1; b=; c=3");
}

#[test]
fn cookies_are_asked_for_at_the_domain_and_the_portal() {
    assert_eq!(cookie_urls(Region::Global), vec!["https://www.nexon.com/"]);
    assert_eq!(
        cookie_urls(Region::Taiwan),
        vec!["https://tw.nexon.com/", "https://www.nexon.com/"]
    );
}

#[test]
fn the_first_cookie_of_a_name_wins() {
    assert_eq!(
        merge_cookies(owned(&[("a", "1"), ("b", "2"), ("a", "3"), ("c", "4"), ("b", "5")])),
        owned(&[("a", "1"), ("b", "2"), ("c", "4")])
    );
    let replies = vec![
        ("u".to_owned(), Ok(owned(&[("a", "1")]))),
        ("v".to_owned(), Err("gone".to_owned())),
        ("w".to_owned(), Ok(owned(&[("a", "2"), ("b", "3")]))),
    ];
    assert_eq!(capture_cookies(replies).unwrap(), owned(&[("a", "1"), ("b", "3")]));
}

#[test]
fn a_login_without_cookies_is_an_error() {
    let none = capture_cookies(vec![("u".to_owned(), Ok(vec![]))]).unwrap_err();
    assert!(matches!(none, CaptureError::NoCookies));
    assert_eq!(none.message(), "no cookies were found for the logged-in session");
    let failed = capture_cookies(vec![
        ("u".to_owned(), Err("first".to_owned())),
        ("v".to_owned(), Err("second".to_owned())),
        ("w".to_owned(), Ok(vec![])),
    ])
    .unwrap_err();
    assert_eq!(failed.message(), "failed to read cookies from WebView for v: second");
    assert_eq!(
        CaptureError::Closed.message(),
        "login window was closed before the login completed"
    );
}

#[test]
fn the_login_window_captures_once() {
    assert_eq!(window_step(false, WindowEvent::LoginComplete), WindowAction::Capture);
    assert_eq!(window_step(true, WindowEvent::LoginComplete), WindowAction::Wait);
    for settled in [false, true] {
        assert_eq!(window_step(settled, WindowEvent::CloseRequested), WindowAction::Leave);
        assert_eq!(window_step(settled, WindowEvent::Other), WindowAction::Wait);
    }
}

#[test]
fn a_closed_window_is_no_login() {
    assert_eq!(
        window_outcome(None).unwrap_err().message(),
        "login window was closed before the login completed"
    );
    let cookies = owned(&[("a", "1")]);
    assert_eq!(window_outcome(Some(Ok(cookies.clone()))).unwrap(), cookies);
    assert!(matches!(
        window_outcome(Some(Err(CaptureError::NoCookies))).unwrap_err(),
        CaptureError::NoCookies
    ));
}

#[test]
fn login_pages_follow_no_login() {
    for region in [Region::Global, Region::Taiwan, Region::Sea, Region::Thailand] {
        assert!(!is_login_complete(&region.login_url(), region));
        for prefix in region.completion_prefixes() {
            assert!(is_login_complete(&prefix, region));
            assert!(is_login_complete(&format!("{prefix}/deeper?x#y"), region));
        }
    }
}

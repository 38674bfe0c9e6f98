use pokerbots::accounts::{
    get_display_name_from_email, google_redirect_uri, login_provider_redirect, manage_team_nav_class,
    microsoft_login_url, microsoft_redirect_uri, signout_response, url_encode, validate_name,
    validate_password, validate_team_name, validate_update_profile_request, NavLocation,
    UpdateProfileRequest, BAD_REQUEST, NOT_ACCEPTABLE,
};
use pokerbots::matchplay::WhichBot;
use pokerbots::listing::{
    game_log_key, record_line, fill_members, parse_i32_range, parse_ids, pfp_endpoint, plan_bots_query, plan_teams_query,
    BotQuery, QueryError, Team, TeamInvite, TeamOrder, TeamQuery, TeamsQuerySort,
    TeamsQuerySortDirection, User, Window,
};

#[test]
fn team_names() {
    assert!(validate_team_name(&"Pokerbots".to_string()));
    assert!(validate_team_name(&"The A-Team 2".to_string()));
    assert!(validate_team_name(&"Équipe".to_string()));
    assert!(!validate_team_name(&"ab".to_string()));
    assert!(validate_team_name(&"abc".to_string()));
    assert!(validate_team_name(&"a".repeat(20)));
    assert!(!validate_team_name(&"a".repeat(21)));
    assert!(!validate_team_name(&"two  spaces".to_string()));
    assert!(!validate_team_name(&"bad_name".to_string()));
    assert!(!validate_team_name(&"semi;colon".to_string()));
    // the length is counted in bytes: ten two-byte letters fit, eleven do not
    assert!(validate_team_name(&"é".repeat(10)));
    assert!(!validate_team_name(&"é".repeat(11)));
}

#[test]
fn name_errors() {
    assert!(validate_name("Alice", "bad").is_ok());
    let e = validate_name("A!", "bad name").unwrap_err();
    assert_eq!(e.status_code, NOT_ACCEPTABLE);
    assert_eq!(e.status_code, 406);
    assert_eq!(e.message, "bad name");
    let e = validate_password("12345").unwrap_err();
    assert_eq!(e.status_code, BAD_REQUEST);
    assert_eq!(e.status_code, 400);
    assert_eq!(e.message, "Password must be at least 6 characters");
    assert!(validate_password("123456").is_ok());
}

#[test]
fn profile_errors_in_order() {
    let good = || UpdateProfileRequest {
        display_name: "Ally".to_string(),
        first_name: "Alice".to_string(),
        last_name: "Smith".to_string(),
        country: None,
        school: "McGill".to_string(),
    };
    assert!(validate_update_profile_request(&good()).is_ok());
    let mut r = good();
    r.first_name = "A".to_string();
    r.school = "?".to_string();
    let e = validate_update_profile_request(&r).unwrap_err();
    assert_eq!(e.status_code, 406);
    assert_eq!(
        e.message,
        "Invalid first name. It must be at most 20 characters and cannot contain consecutive spaces."
    );
    let mut r = good();
    r.last_name = "x  y".to_string();
    assert_eq!(
        validate_update_profile_request(&r).unwrap_err().message,
        "Invalid last name. It must be at most 20 characters and cannot contain consecutive spaces."
    );
    let mut r = good();
    r.school = "?".to_string();
    assert_eq!(
        validate_update_profile_request(&r).unwrap_err().message,
        "Invalid school name. It must be at most 20 characters and cannot contain consecutive spaces."
    );
    let mut r = good();
    r.display_name = "a".repeat(25);
    assert_eq!(
        validate_update_profile_request(&r).unwrap_err().message,
        "Invalid display name. It must be at most 20 characters and cannot contain consecutive spaces."
    );
}

#[test]
fn emails_and_links() {
    assert_eq!(get_display_name_from_email("alice@example.com"), "alice");
    assert_eq!(get_display_name_from_email("a@b@c"), "a");
    assert_eq!(get_display_name_from_email("nobody"), "nobody");
    assert_eq!(get_display_name_from_email("@x"), "");
    assert_eq!(microsoft_redirect_uri("https://poker.example"), "https://poker.example/login/microsoft");
    assert_eq!(google_redirect_uri("http://localhost:3000"), "http://localhost:3000/login/google");
    let r = signout_response();
    assert_eq!(r.message, "You have been signed out.");
    assert_eq!(r.message_type, "success");
    assert_eq!(manage_team_nav_class(NavLocation::ManageTeam), "nav-item selectable selected");
    assert_eq!(manage_team_nav_class(NavLocation::HomePage), "nav-item selectable ");
    assert_eq!(manage_team_nav_class(NavLocation::Leaderboard), "nav-item selectable ");
}

#[test]
fn url_encoding() {
    assert_eq!(url_encode("abc-XYZ_09.*"), "abc-XYZ_09.*");
    assert_eq!(url_encode("a b"), "a+b");
    assert_eq!(url_encode("/manage-team?x=1&y=2"), "%2Fmanage-team%3Fx%3D1%26y%3D2");
    assert_eq!(url_encode("é~"), "%C3%A9%7E");
    assert_eq!(url_encode(""), "");
}

#[test]
fn login_links() {
    let expected = "https://login.microsoftonline.com/common/oauth2/v2.0/authorize?client_id=abc\
&response_type=code&redirect_uri=https%3A%2F%2Fp.example%2Flogin%2Fmicrosoft\
&response_mode=query&scope=User.Read&state=%2Fmanage-team&prompt=select_account";
    assert_eq!(
        microsoft_login_url("abc", "https://p.example/login/microsoft", "/manage-team"),
        expected
    );
    assert_eq!(
        login_provider_redirect("microsoft", None, "abc", "https://p.example/login/microsoft"),
        Some(expected.to_string())
    );
    let with_state =
        login_provider_redirect("microsoft", Some("/leaderboard".to_string()), "id", "r");
    assert_eq!(
        with_state,
        Some(
            "https://login.microsoftonline.com/common/oauth2/v2.0/authorize?client_id=id\
&response_type=code&redirect_uri=r&response_mode=query&scope=User.Read&state=%2Fleaderboard\
&prompt=select_account"
                .to_string()
        )
    );
    assert_eq!(login_provider_redirect("google", None, "id", "r"), None);
}

#[test]
fn id_lists() {
    assert_eq!(parse_ids("1,2,3"), Some(vec![1, 2, 3]));
    assert_eq!(parse_ids("-5"), Some(vec![-5]));
    assert_eq!(parse_ids("+5,2147483647,-2147483648"), Some(vec![5, 2147483647, -2147483648]));
    assert_eq!(parse_ids("2147483648"), None);
    assert_eq!(parse_ids("1,,2"), None);
    assert_eq!(parse_ids(""), None);
    assert_eq!(parse_ids("1,x"), None);
    assert_eq!(parse_ids("1, 2"), None);
    assert_eq!(parse_i32_range("ab123cd", 2, 5), Some(123));
    assert_eq!(parse_i32_range("-", 0, 1), None);
}

#[test]
fn team_listing_plans() {
    let q = TeamQuery {
        ids: None,
        page_size: None,
        page: None,
        fill_members: None,
        sort: None,
        sort_direction: None,
        count: None,
    };
    let p = plan_teams_query(&q).ok().unwrap();
    assert_eq!(p.order, Some((TeamOrder::Score, false)));
    assert_eq!(p.window, Some(Window { limit: 10, offset: 0 }));
    assert_eq!(p.ids, None);
    assert!(!p.fill_members);
    let q = TeamQuery {
        ids: Some("4,5".to_string()),
        page_size: Some(500),
        page: Some(3),
        fill_members: Some(true),
        sort: Some(TeamsQuerySort::Created),
        sort_direction: Some(TeamsQuerySortDirection::Asc),
        count: Some(false),
    };
    let p = plan_teams_query(&q).ok().unwrap();
    assert_eq!(p.order, Some((TeamOrder::Id, true)));
    assert_eq!(p.window, Some(Window { limit: 100, offset: 300 }));
    assert_eq!(p.ids, Some(vec![4, 5]));
    assert!(p.fill_members);
    let q = TeamQuery {
        ids: None,
        page_size: Some(20),
        page: Some(2),
        fill_members: None,
        sort: Some(TeamsQuerySort::Score),
        sort_direction: Some(TeamsQuerySortDirection::Desc),
        count: Some(true),
    };
    let p = plan_teams_query(&q).ok().unwrap();
    assert_eq!(p.order, None);
    assert_eq!(p.window, None);
    let q = TeamQuery {
        ids: Some("x".to_string()),
        page_size: None,
        page: None,
        fill_members: None,
        sort: None,
        sort_direction: None,
        count: None,
    };
    assert_eq!(plan_teams_query(&q).err(), Some(QueryError::InvalidIds));
}

#[test]
fn bot_listing_plans() {
    let q = BotQuery { ids: None, team: Some(3), page_size: Some(5), page: Some(4), count: None, join_team: Some(true) };
    let p = plan_bots_query(&q).ok().unwrap();
    assert_eq!(p.team, Some(3));
    assert_eq!(p.window, Some(Window { limit: 5, offset: 20 }));
    assert!(p.join_team);
    assert_eq!(p.ids, None);
    let q = BotQuery { ids: Some("7".to_string()), team: None, page_size: None, page: None, count: Some(true), join_team: None };
    let p = plan_bots_query(&q).ok().unwrap();
    assert_eq!(p.window, None);
    assert_eq!(p.ids, Some(vec![7]));
    assert!(!p.join_team);
    let q = BotQuery { ids: Some("7,".to_string()), team: None, page_size: None, page: None, count: None, join_team: None };
    assert_eq!(plan_bots_query(&q).err(), Some(QueryError::InvalidIds));
}

#[test]
fn teams_with_members() {
    let teams = vec![
        Team { id: 1, team_name: "One".to_string(), owner: "a@x".to_string(), score: Some(10), active_bot: None },
        Team { id: 2, team_name: "Two".to_string(), owner: "c@x".to_string(), score: None, active_bot: Some(9) },
    ];
    let user = |email: &str, team: Option<i32>| User {
        email: email.to_string(),
        display_name: email.to_string(),
        team_id: team,
        is_admin: false,
    };
    let users = vec![user("a@x", Some(1)), user("b@x", None), user("c@x", Some(2)), user("d@x", Some(1))];
    let invites = vec![
        TeamInvite { invite_code: "i1".to_string(), teamid: 1, expires: 100 },
        TeamInvite { invite_code: "i2".to_string(), teamid: 2, expires: 200 },
    ];
    let listed = fill_members(teams, &users, &invites, Some(2));
    assert_eq!(listed.len(), 2);
    assert_eq!(listed[0].id, 1);
    assert_eq!(listed[0].team_name, "One");
    assert_eq!(listed[0].score, Some(10));
    let emails: Vec<&str> = listed[0].members.iter().map(|u| u.email.as_str()).collect();
    assert_eq!(emails, vec!["a@x", "d@x"]);
    assert!(listed[0].invites.is_none());
    assert_eq!(listed[1].active_bot, Some(9));
    assert_eq!(listed[1].members.len(), 1);
    let inv = listed[1].invites.as_ref().unwrap();
    assert_eq!(inv.len(), 1);
    assert_eq!(inv[0].invite_code, "i2");
}

#[test]
fn profile_picture_bucket() {
    assert_eq!(pfp_endpoint("pfps", ""), "https://pfps.s3.us-east-1.amazonaws.com");
    assert_eq!(pfp_endpoint("pfps", "eu-west-2"), "https://pfps.s3.eu-west-2.amazonaws.com");
}

#[test]
fn game_log_keys_and_record_lines() {
    assert_eq!(game_log_key(None, "ab12"), "public/ab12");
    assert_eq!(game_log_key(Some(WhichBot::Defender), "ab12"), "Defender/ab12");
    assert_eq!(game_log_key(Some(WhichBot::Challenger), "x"), "Challenger/x");
    let record = b"first\nsecond\n\nfourth";
    assert_eq!(record_line(record, 0), b"first".to_vec());
    assert_eq!(record_line(record, 1), b"second".to_vec());
    assert_eq!(record_line(record, 2), b"".to_vec());
    assert_eq!(record_line(record, 3), b"fourth".to_vec());
    assert_eq!(record_line(record, 4), b"".to_vec());
    assert_eq!(record_line(b"a\n", 1), b"".to_vec());
    assert_eq!(record_line(b"", 0), b"".to_vec());
}

#[test]
fn written_ids_read_back() {
    let lists: [&[i32]; 4] = [&[7], &[1, 2, 3], &[-5, 0, 2147483647], &[-2147483648, 10, -1]];
    for ids in lists {
        let text = ids.iter().map(|v| v.to_string()).collect::<Vec<_>>().join(",");
        assert_eq!(parse_ids(&text), Some(ids.to_vec()));
    }
}

#[test]
fn written_records_read_back() {
    let rows = ["{\"step\":0}", "", "{\"step\":2}"];
    let mut written = Vec::new();
    for r in rows {
        written.extend_from_slice(r.as_bytes());
        written.push(b'\n');
    }
    for (k, r) in rows.iter().enumerate() {
        assert_eq!(record_line(&written, k), r.as_bytes().to_vec());
    }
    assert_eq!(record_line(&written, 3), Vec::<u8>::new());
    assert_eq!(record_line(&written, 9), Vec::<u8>::new());
}

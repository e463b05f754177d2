use roblox_client::error::RobloxError;
use roblox_client::json::{Json, Number};
use roblox_client::responses::{
    contains_code, group_rank, group_ranks, owns_asset, user_id, user_roles, username,
};

fn num(n: i64) -> Json {
    if n >= 0 {
        Json::Number(Number::PosInt(n as u64))
    } else {
        Json::Number(Number::NegInt(n))
    }
}

fn text(s: &str) -> Json {
    Json::String(s.to_string())
}

fn object(entries: Vec<(&str, Json)>) -> Json {
    Json::Object(entries.into_iter().map(|(k, v)| (k.to_string(), v)).collect())
}

fn membership(group: i64, rank: i64) -> Json {
    object(vec![
        ("group", object(vec![("id", num(group)), ("name", text("g"))])),
        ("role", object(vec![("rank", num(rank)), ("name", text("r"))])),
    ])
}

fn role(rank: i64, id: &str) -> Json {
    object(vec![("id", text(id)), ("rank", num(rank)), ("memberCount", num(3))])
}

fn roles_body(roles: Vec<Json>) -> Json {
    object(vec![("groupId", num(7)), ("roles", Json::Array(roles))])
}

fn shown(v: &Json) -> String {
    format!("{:?}", v)
}

#[test]
fn user_roles_maps_each_group_to_its_rank() {
    let body = object(vec![(
        "data",
        Json::Array(vec![membership(10, 255), membership(20, 1)]),
    )]);
    let ranks = user_roles(&body).unwrap();
    assert_eq!(ranks.len(), 2);
    assert_eq!(ranks[&10], 255);
    assert_eq!(ranks[&20], 1);
}

#[test]
fn user_roles_later_duplicate_wins() {
    let body = object(vec![(
        "data",
        Json::Array(vec![membership(10, 5), membership(20, 1), membership(10, 9)]),
    )]);
    let ranks = user_roles(&body).unwrap();
    assert_eq!(ranks.len(), 2);
    assert_eq!(ranks[&10], 9);
    assert_eq!(ranks[&20], 1);
}

#[test]
fn user_roles_empty_data_gives_empty_map() {
    let body = object(vec![("data", Json::Array(vec![]))]);
    assert!(user_roles(&body).unwrap().is_empty());
}

#[test]
fn user_roles_without_data_is_missing_field() {
    let body = object(vec![("errors", Json::Array(vec![]))]);
    assert!(matches!(user_roles(&body), Err(RobloxError::MissingField)));
}

#[test]
fn user_roles_with_non_array_data_is_missing_field() {
    let body = object(vec![("data", text("nope"))]);
    assert!(matches!(user_roles(&body), Err(RobloxError::MissingField)));
    assert!(matches!(user_roles(&Json::Null), Err(RobloxError::MissingField)));
}

#[test]
fn user_roles_with_incomplete_entry_is_missing_field() {
    let broken = object(vec![("group", object(vec![("id", num(30))]))]);
    let body = object(vec![("data", Json::Array(vec![membership(10, 5), broken]))]);
    assert!(matches!(user_roles(&body), Err(RobloxError::MissingField)));
    let text_rank = object(vec![
        ("group", object(vec![("id", num(30))])),
        ("role", object(vec![("rank", text("5"))])),
    ]);
    let body = object(vec![("data", Json::Array(vec![text_rank]))]);
    assert!(matches!(user_roles(&body), Err(RobloxError::MissingField)));
}

#[test]
fn username_reads_the_field() {
    let body = object(vec![("Id", num(1)), ("Username", text("builderman"))]);
    assert_eq!(username(&body).unwrap(), "builderman");
}

#[test]
fn username_missing_or_not_text_is_missing_field() {
    let body = object(vec![("Id", num(1))]);
    assert!(matches!(username(&body), Err(RobloxError::MissingField)));
    let body = object(vec![("Username", num(4))]);
    assert!(matches!(username(&body), Err(RobloxError::MissingField)));
}

#[test]
fn user_id_present_and_numeric() {
    let body = object(vec![("Id", num(156)), ("Username", text("builderman"))]);
    assert_eq!(user_id(&body), Some(156));
    let body = object(vec![("Id", num(-3))]);
    assert_eq!(user_id(&body), Some(-3));
}

#[test]
fn user_id_absent_or_not_integer_is_none() {
    let body = object(vec![("success", Json::Bool(false))]);
    assert_eq!(user_id(&body), None);
    let body = object(vec![("Id", text("156"))]);
    assert_eq!(user_id(&body), None);
    let body = object(vec![("Id", Json::Number(Number::PosInt(u64::MAX)))]);
    assert_eq!(user_id(&body), None);
    let body = object(vec![("Id", Json::Number(Number::FloatBits(1.5f64.to_bits())))]);
    assert_eq!(user_id(&body), None);
}

#[test]
fn owns_asset_by_data() {
    assert!(!owns_asset(&object(vec![("previousPageCursor", Json::Null)])));
    assert!(!owns_asset(&object(vec![("data", Json::Array(vec![]))])));
    assert!(owns_asset(&object(vec![("data", Json::Array(vec![object(vec![])]))])));
    assert!(!owns_asset(&object(vec![("data", text("x"))])));
}

#[test]
fn contains_code_finds_literal_substring() {
    let page = "<html><div class=\"blurb\">verify me: ABC123 thanks</div></html>";
    assert!(contains_code(page, "ABC123"));
    assert!(!contains_code(page, "abc123"));
    assert!(!contains_code(page, "ABC124"));
    assert!(contains_code("ABC123", "ABC123"));
    assert!(!contains_code("ABC12", "ABC123"));
    assert!(contains_code(page, ""));
    assert!(contains_code("h\u{e9}llo ABC123", "ABC123"));
}

#[test]
fn group_rank_returns_first_match() {
    let body = roles_body(vec![
        object(vec![("rank", num(1))]),
        object(vec![("rank", num(5)), ("id", text("x"))]),
        object(vec![("rank", num(5)), ("id", text("y"))]),
    ]);
    let found = group_rank(body, 5).unwrap();
    assert_eq!(shown(&found), shown(&object(vec![("rank", num(5)), ("id", text("x"))])));
}

#[test]
fn group_rank_returns_record_unchanged() {
    let wanted = role(3, "mod");
    let body = roles_body(vec![role(1, "guest"), role(3, "mod"), role(255, "owner")]);
    let found = group_rank(body, 3).unwrap();
    assert_eq!(shown(&found), shown(&wanted));
}

#[test]
fn group_rank_missing_rank_counts_as_zero() {
    let unranked = object(vec![("id", text("z"))]);
    let body = roles_body(vec![role(1, "a"), unranked]);
    let found = group_rank(body, 0).unwrap();
    assert_eq!(shown(&found), shown(&object(vec![("id", text("z"))])));
}

#[test]
fn group_rank_none_when_absent_or_unmatched() {
    assert!(group_rank(roles_body(vec![role(1, "a"), role(2, "b")]), 7).is_none());
    assert!(group_rank(object(vec![("groupId", num(7))]), 1).is_none());
    assert!(group_rank(object(vec![("roles", text("x"))]), 1).is_none());
}

#[test]
fn group_ranks_keeps_band_in_order() {
    let body = roles_body(vec![
        object(vec![("rank", num(1))]),
        object(vec![("rank", num(2))]),
        object(vec![("rank", num(3))]),
        object(vec![("rank", num(5))]),
    ]);
    let kept = group_ranks(body, 2, 4).unwrap();
    assert_eq!(kept.len(), 2);
    assert_eq!(shown(&kept[0]), shown(&object(vec![("rank", num(2))])));
    assert_eq!(shown(&kept[1]), shown(&object(vec![("rank", num(3))])));
}

#[test]
fn group_ranks_band_bounds_are_inclusive() {
    let body = roles_body(vec![role(1, "a"), role(2, "b"), role(4, "c"), role(5, "d")]);
    let kept = group_ranks(body, 2, 4).unwrap();
    assert_eq!(kept.len(), 2);
    assert_eq!(shown(&kept[0]), shown(&role(2, "b")));
    assert_eq!(shown(&kept[1]), shown(&role(4, "c")));
}

#[test]
fn group_ranks_empty_when_nothing_in_range() {
    let body = roles_body(vec![role(1, "a"), role(9, "b")]);
    assert!(group_ranks(body, 2, 4).unwrap().is_empty());
    assert!(group_ranks(object(vec![]), 2, 4).unwrap().is_empty());
}

#[test]
fn group_ranks_missing_rank_is_missing_field() {
    let body = roles_body(vec![role(3, "a"), object(vec![("id", text("z"))])]);
    assert!(matches!(group_ranks(body, 2, 4), Err(RobloxError::MissingField)));
}

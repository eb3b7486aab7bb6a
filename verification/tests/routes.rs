use credential_relay::bytes::{
    copy_bytes, find_byte, has_prefix, parse_decimal, parse_seconds, same_bytes, same_name, slice,
};
use credential_relay::route::{
    derive_route_key, path_part, route_key_from, strip_version_prefix, RouteKey,
};

fn b(s: &str) -> Vec<u8> {
    s.as_bytes().to_vec()
}

#[test]
fn strip_removes_leading_version_prefix() {
    assert_eq!(strip_version_prefix(&b("/api/v8/ping")), b("/ping"));
    assert_eq!(strip_version_prefix(&b("/api/v8")), b(""));
    assert_eq!(strip_version_prefix(&b("/api/v8/guilds/1?limit=2")), b("/guilds/1?limit=2"));
}

#[test]
fn strip_leaves_other_targets_alone() {
    assert_eq!(strip_version_prefix(&b("/ping")), b("/ping"));
    assert_eq!(strip_version_prefix(&b("")), b(""));
    assert_eq!(strip_version_prefix(&b("/api/v")), b("/api/v"));
    assert_eq!(strip_version_prefix(&b("/x/api/v8/ping")), b("/x/api/v8/ping"));
}

#[test]
fn strip_removes_the_prefix_only_once() {
    assert_eq!(strip_version_prefix(&b("/api/v8/api/v8/ping")), b("/api/v8/ping"));
}

#[test]
fn path_part_stops_at_first_question_mark() {
    assert_eq!(path_part(&b("/guilds/1?limit=2&x=?")), b("/guilds/1"));
    assert_eq!(path_part(&b("/guilds/1")), b("/guilds/1"));
    assert_eq!(path_part(&b("?a")), b(""));
    assert_eq!(path_part(&b("")), b(""));
}

#[test]
fn route_key_from_names_bucket_or_catch_all() {
    assert_eq!(route_key_from(Some(b("Gateway"))), RouteKey::Bucket(b("Gateway")));
    assert_eq!(route_key_from(None), RouteKey::Unclassified);
}

#[test]
fn known_route_gets_its_bucket() {
    assert_eq!(derive_route_key(&b("GET"), &b("/gateway")), RouteKey::Bucket(b("Gateway")));
    assert_eq!(
        derive_route_key(&b("GET"), &b("/channels/123/messages")),
        RouteKey::Bucket(b("ChannelsIdMessages(123)"))
    );
}

#[test]
fn version_prefix_does_not_change_the_key() {
    let with = derive_route_key(&b("GET"), &b("/api/v8/guilds/42/members"));
    let without = derive_route_key(&b("GET"), &b("/guilds/42/members"));
    assert_eq!(with, without);
    assert_eq!(with, RouteKey::Bucket(b("GuildsIdMembers(42)")));
    assert!(with.same(&without));
}

#[test]
fn query_string_does_not_change_the_key() {
    let plain = derive_route_key(&b("GET"), &b("/guilds/42/members"));
    let queried = derive_route_key(&b("GET"), &b("/guilds/42/members?limit=1000"));
    assert_eq!(plain, queried);
}

#[test]
fn path_parameters_in_major_position_separate_keys() {
    let a = derive_route_key(&b("GET"), &b("/channels/1/messages"));
    let c = derive_route_key(&b("GET"), &b("/channels/2/messages"));
    assert_ne!(a, c);
    assert!(!a.same(&c));
}

#[test]
fn minor_path_parameters_share_a_key() {
    let a = derive_route_key(&b("GET"), &b("/users/1"));
    let c = derive_route_key(&b("GET"), &b("/users/2"));
    assert_eq!(a, c);
}

#[test]
fn message_routes_are_keyed_by_method() {
    let get = derive_route_key(&b("GET"), &b("/channels/1/messages/9"));
    let delete = derive_route_key(&b("DELETE"), &b("/channels/1/messages/9"));
    assert_ne!(get, delete);
    assert_ne!(get, RouteKey::Unclassified);
}

#[test]
fn unknown_route_is_unclassified() {
    assert_eq!(derive_route_key(&b("GET"), &b("/ping")), RouteKey::Unclassified);
    assert_eq!(derive_route_key(&b("GET"), &b("/api/v8/ping")), RouteKey::Unclassified);
    assert_eq!(derive_route_key(&b("GET"), &b("")), RouteKey::Unclassified);
    assert_eq!(derive_route_key(&b("GET"), &b("/channels/notanumber")), RouteKey::Unclassified);
}

#[test]
fn unusable_method_or_path_is_unclassified() {
    assert_eq!(derive_route_key(&b("G E T"), &b("/gateway")), RouteKey::Unclassified);
    assert_eq!(derive_route_key(&b("GET"), &vec![0x2f, 0xff, 0xfe]), RouteKey::Unclassified);
}

#[test]
fn doubly_prefixed_target_is_stripped_once() {
    assert_eq!(derive_route_key(&b("GET"), &b("/api/v8/api/v8/gateway")), RouteKey::Unclassified);
    assert_eq!(derive_route_key(&b("GET"), &b("/api/v8/gateway")), RouteKey::Bucket(b("Gateway")));
}

#[test]
fn route_key_duplicate_is_equal() {
    let key = derive_route_key(&b("GET"), &b("/gateway/bot"));
    assert_eq!(key.duplicate(), key);
    assert_eq!(RouteKey::Unclassified.duplicate(), RouteKey::Unclassified);
    assert!(!key.same(&RouteKey::Unclassified));
    assert!(RouteKey::Unclassified.same(&RouteKey::Unclassified));
}

#[test]
fn parse_decimal_reads_whole_numbers() {
    assert_eq!(parse_decimal(&b("5")), Some(5));
    assert_eq!(parse_decimal(&b("0")), Some(0));
    assert_eq!(parse_decimal(&b("007")), Some(7));
    assert_eq!(parse_decimal(&b("18446744073709551615")), Some(u64::MAX));
}

#[test]
fn parse_decimal_rejects_everything_else() {
    assert_eq!(parse_decimal(&b("")), None);
    assert_eq!(parse_decimal(&b("5.0")), None);
    assert_eq!(parse_decimal(&b("-1")), None);
    assert_eq!(parse_decimal(&b(" 5")), None);
    assert_eq!(parse_decimal(&b("18446744073709551616")), None);
    assert_eq!(parse_decimal(&b("99999999999999999999999")), None);
}

#[test]
fn names_compare_without_case() {
    assert!(same_name(&b("X-Spam"), &b("x-spam")));
    assert!(same_name(&b("AUTHORIZATION"), &b("authorization")));
    assert!(!same_name(&b("x-spam"), &b("x-spam2")));
    assert!(!same_name(&b("x_spam"), &b("x-spam")));
    assert!(!same_name(&b("@"), &b("`")));
}

#[test]
fn bytes_compare_exactly() {
    assert!(same_bytes(&b("abc"), &b("abc")));
    assert!(!same_bytes(&b("abc"), &b("abC")));
    assert!(!same_bytes(&b("abc"), &b("ab")));
    assert!(has_prefix(&b("/api/v8/x"), &b("/api/v8")));
    assert!(!has_prefix(&b("/api"), &b("/api/v8")));
    assert!(has_prefix(&b("abc"), &b("")));
}

#[test]
fn parse_seconds_reads_whole_and_fractional_numbers() {
    assert_eq!(parse_seconds(&b("5")), Some(5));
    assert_eq!(parse_seconds(&b("5.0")), Some(5));
    assert_eq!(parse_seconds(&b("5.01")), Some(6));
    assert_eq!(parse_seconds(&b("0.5")), Some(1));
    assert_eq!(parse_seconds(&b("18446744073709551615")), Some(u64::MAX));
    assert_eq!(parse_seconds(&b("18446744073709551615.9")), Some(u64::MAX));
    assert_eq!(parse_seconds(&b("18446744073709551614.9")), Some(u64::MAX));
}

#[test]
fn parse_seconds_rejects_everything_else() {
    assert_eq!(parse_seconds(&b("")), None);
    assert_eq!(parse_seconds(&b(".")), None);
    assert_eq!(parse_seconds(&b(".5")), None);
    assert_eq!(parse_seconds(&b("5.")), None);
    assert_eq!(parse_seconds(&b("5.1.2")), None);
    assert_eq!(parse_seconds(&b("5.1s")), None);
    assert_eq!(parse_seconds(&b("-5.1")), None);
    assert_eq!(parse_seconds(&b("18446744073709551616.0")), None);
}

#[test]
fn find_byte_and_slice_cut_as_told() {
    assert_eq!(find_byte(&b("a?b?c"), b'?'), 1);
    assert_eq!(find_byte(&b("abc"), b'?'), 3);
    assert_eq!(find_byte(&b(""), b'?'), 0);
    assert_eq!(slice(&b("abcdef"), 2, 4), b("cd"));
    assert_eq!(slice(&b("abcdef"), 3, 3), b(""));
    assert_eq!(copy_bytes(&b("abc")), b("abc"));
}

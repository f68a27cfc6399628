use chat_rules::settings::{initial_settings, SettingsStruct};
use chat_rules::utils::http::Headers;
use chat_rules::utils::websocket::{add_user, admitted_ip, get_ip, is_closed_connection, get_user_by_id, is_multi_connecting, remove_closed_users, User};

fn user(ip: &str, id: u64) -> User<u32> {
    User { websocket: id as u32, true_ip: ip.to_string(), id }
}

#[test]
fn server_starts_letting_several_connections_in() {
    assert!(initial_settings().ignore_multiple_connections_per_ip);
}

#[test]
fn ip_from_forwarding_header_first() {
    let mut h = Headers::new();
    h.insert(String::from("CF-Connecting-IP"), String::from("1.2.3.4"));
    assert_eq!(get_ip(&h, Some(String::from("10.0.0.1"))), Some(String::from("1.2.3.4")));
}

#[test]
fn ip_from_connection_otherwise() {
    let h = Headers::new();
    assert_eq!(get_ip(&h, Some(String::from("10.0.0.1"))), Some(String::from("10.0.0.1")));
    assert_eq!(get_ip(&h, None), None);
}

#[test]
fn multi_connecting_ignored_by_default_settings() {
    let users = vec![user("1.1.1.1", 1)];
    assert!(!is_multi_connecting(&users, &String::from("1.1.1.1"), &initial_settings()));
}

#[test]
fn multi_connecting_detected_when_enforced() {
    let users = vec![user("1.1.1.1", 1), user("2.2.2.2", 2)];
    let strict = SettingsStruct { ignore_multiple_connections_per_ip: false };
    assert!(is_multi_connecting(&users, &String::from("2.2.2.2"), &strict));
    assert!(!is_multi_connecting(&users, &String::from("3.3.3.3"), &strict));
}

#[test]
fn added_user_is_found_by_id() {
    let mut users: Vec<User<u32>> = Vec::new();
    let id = add_user(&mut users, 7, String::from("9.9.9.9"));
    assert_eq!(users.len(), 1);
    let u = get_user_by_id(&mut users, id).unwrap();
    assert_eq!(u.true_ip, "9.9.9.9");
    u.true_ip = String::from("changed");
    assert_eq!(users[0].true_ip, "changed");
}

#[test]
fn get_user_by_id_finds_first_match_or_none() {
    let mut users = vec![user("a", 5), user("b", 6), user("c", 5)];
    assert_eq!(get_user_by_id(&mut users, 5).unwrap().true_ip, "a");
    assert!(get_user_by_id(&mut users, 9).is_none());
}

#[test]
fn closed_users_are_removed() {
    let mut users = vec![user("a", 0), user("b", 1), user("c", 2), user("d", 3)];
    remove_closed_users(&mut users, &vec![0, 2]);
    let ids: Vec<u64> = users.iter().map(|u| u.id).collect();
    assert_eq!(ids, vec![1, 3]);
}

#[test]
fn neighbouring_closed_users_are_both_removed() {
    let mut users = vec![user("a", 0), user("b", 1), user("c", 2), user("d", 3)];
    remove_closed_users(&mut users, &vec![0, 1]);
    let ids: Vec<u64> = users.iter().map(|u| u.id).collect();
    assert_eq!(ids, vec![2, 3]);
}

#[test]
fn removing_closed_users_shrinks_by_their_number() {
    let mut users: Vec<User<u32>> = (0..6).map(|i| user("x", i)).collect();
    remove_closed_users(&mut users, &vec![1, 2, 5]);
    assert_eq!(users.len(), 3);
    let ids: Vec<u64> = users.iter().map(|u| u.id).collect();
    assert_eq!(ids, vec![0, 3, 4]);
    remove_closed_users(&mut users, &vec![]);
    assert_eq!(users.len(), 3);
}

#[test]
fn admitted_ip_needs_a_known_new_address() {
    let users = vec![user("1.1.1.1", 1)];
    let strict = SettingsStruct { ignore_multiple_connections_per_ip: false };
    let mut h = Headers::new();
    h.insert(String::from("CF-Connecting-IP"), String::from("1.1.1.1"));
    assert_eq!(admitted_ip(&h, None, &users, &strict), None);
    assert_eq!(admitted_ip(&h, None, &users, &initial_settings()), Some(String::from("1.1.1.1")));
    let empty = Headers::new();
    assert_eq!(admitted_ip(&empty, None, &users, &strict), None);
    assert_eq!(admitted_ip(&empty, Some(String::from("2.2.2.2")), &users, &strict), Some(String::from("2.2.2.2")));
}

#[test]
fn closed_connection_is_told_by_its_error_text() {
    assert!(is_closed_connection("Trying to work with closed connection"));
    assert!(!is_closed_connection("Connection reset without closing handshake"));
    assert!(!is_closed_connection(""));
}

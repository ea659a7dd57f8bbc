use todo_service::Store;
use todo_service::Todo;
use todo_service::decode_todo;
use todo_service::encode_greeting;
use todo_service::encode_todo;
use todo_service::encode_todos;
use todo_service::handle_create;
use todo_service::handle_delete;
use todo_service::handle_list;
use todo_service::handle_root;
use todo_service::handle_toggle;
use todo_service::parse_create;

#[test]
fn create_assigns_sequential_ids() {
    let mut store = Store::new();
    let titles = ["a", "b", "c", "d"];
    for (k, title) in titles.iter().enumerate() {
        let t = store.create(String::from(*title));
        assert_eq!(t.id, k as u64 + 1);
        assert_eq!(t.title, *title);
        assert!(!t.completed);
    }
    let listed = store.list();
    assert_eq!(listed.len(), 4);
    for (k, t) in listed.iter().enumerate() {
        assert_eq!(t.id, k as u64 + 1);
        assert_eq!(t.title, titles[k]);
        assert!(!t.completed);
    }
}

#[test]
fn toggle_twice_restores_flag() {
    let mut store = Store::new();
    store.create(String::from("walk the dog"));
    let once = store.toggle(1).unwrap();
    assert!(once.completed);
    let twice = store.toggle(1).unwrap();
    assert!(!twice.completed);
    assert_eq!(twice.title, "walk the dog");
    let listed = store.list();
    assert_eq!(listed.len(), 1);
    assert!(!listed[0].completed);
}

#[test]
fn deleted_id_is_not_found() {
    let mut store = Store::new();
    store.create(String::from("a"));
    store.create(String::from("b"));
    assert!(store.delete(1));
    assert!(store.toggle(1).is_none());
    assert!(!store.delete(1));
    let listed = store.list();
    assert_eq!(listed.len(), 1);
    assert_eq!(listed[0].id, 2);
}

#[test]
fn list_after_zero_creates_is_empty() {
    let store = Store::new();
    let r = handle_list(&store);
    assert_eq!(r.status, 200);
    assert_eq!(r.body, "[]");
}

#[test]
fn scenario_create_buy_milk() {
    let mut store = Store::new();
    let r = handle_create(&mut store, "{\"title\":\"buy milk\"}");
    assert_eq!(r.status, 201);
    assert_eq!(r.body, "{\"id\":1,\"title\":\"buy milk\",\"completed\":false}");
}

#[test]
fn scenario_toggle_buy_milk() {
    let mut store = Store::new();
    handle_create(&mut store, "{\"title\":\"buy milk\"}");
    let r = handle_toggle(&mut store, 1);
    assert_eq!(r.status, 200);
    assert_eq!(r.body, "{\"id\":1,\"title\":\"buy milk\",\"completed\":true}");
}

#[test]
fn scenario_delete_then_list_empty() {
    let mut store = Store::new();
    handle_create(&mut store, "{\"title\":\"buy milk\"}");
    let r = handle_delete(&mut store, 1);
    assert_eq!(r.status, 204);
    assert_eq!(r.body, "");
    let l = handle_list(&store);
    assert_eq!(l.status, 200);
    assert_eq!(l.body, "[]");
}

#[test]
fn scenario_toggle_missing_is_404() {
    let mut store = Store::new();
    let r = handle_toggle(&mut store, 99);
    assert_eq!(r.status, 404);
    assert_eq!(r.body, "");
}

#[test]
fn scenario_root_greeting() {
    let r = handle_root();
    assert_eq!(r.status, 200);
    assert_eq!(r.body, "{\"message\":\"Hi\"}");
    assert_eq!(encode_greeting(), "{\"message\":\"Hi\"}");
}

#[test]
fn delete_missing_is_404() {
    let mut store = Store::new();
    store.create(String::from("a"));
    let r = handle_delete(&mut store, 2);
    assert_eq!(r.status, 404);
    assert_eq!(
        handle_list(&store).body,
        "[{\"id\":1,\"title\":\"a\",\"completed\":false}]"
    );
}

#[test]
fn bad_bodies_yield_400_and_change_nothing() {
    let mut store = Store::new();
    let bad = [
        "",
        "   ",
        "{",
        "{}",
        "[]",
        "null",
        "\"title\"",
        "{\"title\"}",
        "{\"title\":}",
        "{\"title\":5}",
        "{\"title\":true}",
        "{\"title\":null}",
        "{\"title\":[\"a\"]}",
        "{\"title\":\"a\"",
        "{\"title\":\"a\"} x",
        "{\"title\":\"a\",}",
        "{\"title\":\"a\",\"title\":\"b\"}",
        "{\"name\":\"a\"}",
        "{\"title\":\"\\q\"}",
        "{\"title\":\"\\uD800\"}",
        "{\"title\":\"a\" \"b\":1}",
        "{\"n\":01,\"title\":\"a\"}",
    ];
    for body in bad.iter() {
        let r = handle_create(&mut store, body);
        assert_eq!(r.status, 400, "body {:?} was accepted", body);
        assert_eq!(r.body, "");
    }
    assert_eq!(handle_list(&store).body, "[]");
}

#[test]
fn extra_members_are_ignored() {
    let mut store = Store::new();
    let body = "{\"x\": [1, 2.5e3, {\"y\": null, \"z\": [[]]}, true], \"title\": \"t\", \"n\": -0.5}";
    let r = handle_create(&mut store, body);
    assert_eq!(r.status, 201);
    assert_eq!(r.body, "{\"id\":1,\"title\":\"t\",\"completed\":false}");
}

#[test]
fn whitespace_around_object_is_accepted() {
    assert_eq!(
        parse_create(" \t\r\n { \"title\" : \"x\" } \n").as_deref(),
        Some("x")
    );
}

#[test]
fn empty_title_is_accepted() {
    let mut store = Store::new();
    let r = handle_create(&mut store, "{\"title\":\"\"}");
    assert_eq!(r.status, 201);
    assert_eq!(r.body, "{\"id\":1,\"title\":\"\",\"completed\":false}");
}

#[test]
fn escapes_decode_and_reencode() {
    let decoded = parse_create("{\"title\":\"a\\\"b\\\\c\\nd\\t\\u0041\\u00e9\\u0007\"}").unwrap();
    assert_eq!(decoded, "a\"b\\c\nd\tA\u{e9}\u{7}");
    let mut store = Store::new();
    let todo = store.create(decoded);
    let body = encode_todo(&todo);
    assert_eq!(
        body,
        "{\"id\":1,\"title\":\"a\\\"b\\\\c\\nd\\tA\u{e9}\\u0007\",\"completed\":false}"
    );
}

#[test]
fn surrogate_escape_is_rejected() {
    assert!(parse_create("{\"title\":\"\\ud834\\udd1e\"}").is_none());
    assert!(parse_create("{\"title\":\"\\uDFFF\"}").is_none());
}

#[test]
fn created_todo_round_trips_through_a_json_parser() {
    let mut store = Store::new();
    let r = handle_create(&mut store, "{\"title\":\"tabs\\tand \\\"quotes\\\"\"}");
    assert_eq!(r.status, 201);
    let v: serde_json::Value = serde_json::from_str(&r.body).unwrap();
    assert_eq!(v.get("id").and_then(|x| x.as_u64()), Some(1));
    assert_eq!(
        v.get("title").and_then(|x| x.as_str()),
        Some("tabs\tand \"quotes\"")
    );
    assert_eq!(v.get("completed").and_then(|x| x.as_bool()), Some(false));
    assert_eq!(v.as_object().map(|o| o.len()), Some(3));
}

#[test]
fn encoded_list_round_trips_through_a_json_parser() {
    let mut store = Store::new();
    store.create(String::from("first"));
    store.create(String::from("second\n\u{1}"));
    store.toggle(2);
    let listed = store.list();
    let body = encode_todos(&listed);
    assert_eq!(
        body,
        "[{\"id\":1,\"title\":\"first\",\"completed\":false},{\"id\":2,\"title\":\"second\\n\\u0001\",\"completed\":true}]"
    );
    let v: serde_json::Value = serde_json::from_str(&body).unwrap();
    let items = v.as_array().unwrap();
    assert_eq!(items.len(), 2);
    assert_eq!(items[1].get("title").and_then(|x| x.as_str()), Some("second\n\u{1}"));
    assert_eq!(items[1].get("completed").and_then(|x| x.as_bool()), Some(true));
}

#[test]
fn encoded_todo_decodes_back() {
    let mut store = Store::new();
    let created = store.create(String::from("milk \"and\" eggs\n\u{3}"));
    let toggled = store.toggle(1).unwrap();
    for t in [created, toggled] {
        let back = decode_todo(&encode_todo(&t)).unwrap();
        assert_eq!(back.id, t.id);
        assert_eq!(back.title, t.title);
        assert_eq!(back.completed, t.completed);
    }
}

#[test]
fn decode_todo_rejects_malformed_objects() {
    assert!(decode_todo("").is_none());
    assert!(decode_todo("{\"id\":1,\"title\":\"a\",\"completed\":false} ").is_none());
    assert!(decode_todo("{\"id\":x,\"title\":\"a\",\"completed\":false}").is_none());
    assert!(
        decode_todo("{\"id\":18446744073709551616,\"title\":\"a\",\"completed\":false}").is_none()
    );
    assert!(decode_todo("{\"id\":1,\"title\":\"a\",\"completed\":maybe}").is_none());
    assert!(decode_todo("{\"id\":1,\"title\":a,\"completed\":true}").is_none());
    let max = decode_todo("{\"id\":18446744073709551615,\"title\":\"\",\"completed\":true}")
        .unwrap();
    assert_eq!(max.id, u64::MAX);
    assert_eq!(max.title, "");
    assert!(max.completed);
}

#[test]
fn create_after_delete_takes_a_fresh_id() {
    let mut store = Store::new();
    store.create(String::from("a"));
    store.create(String::from("b"));
    store.delete(1);
    let t = store.create(String::from("c"));
    assert_eq!(t.id, 3);
    let listed = store.list();
    let ids: Vec<u64> = listed.iter().map(|t| t.id).collect();
    assert_eq!(ids, vec![2, 3]);
}

#[test]
fn toggle_keeps_other_todos_unchanged() {
    let mut store = Store::new();
    store.create(String::from("a"));
    store.create(String::from("b"));
    store.create(String::from("c"));
    let t = store.toggle(2).unwrap();
    assert_eq!((t.id, t.completed), (2, true));
    let listed = store.list();
    assert_eq!(listed.len(), 3);
    assert!(!listed[0].completed && listed[1].completed && !listed[2].completed);
    assert_eq!(listed[0].title, "a");
    assert_eq!(listed[2].title, "c");
}

#[test]
fn delete_keeps_order_of_the_rest() {
    let mut store = Store::new();
    for title in ["a", "b", "c", "d"] {
        store.create(String::from(title));
    }
    assert!(store.delete(2));
    let listed = store.list();
    let ids: Vec<u64> = listed.iter().map(|t| t.id).collect();
    assert_eq!(ids, vec![1, 3, 4]);
    let titles: Vec<&str> = listed.iter().map(|t| t.title.as_str()).collect();
    assert_eq!(titles, vec!["a", "c", "d"]);
}

#[test]
fn parse_create_accepts_only_a_string_title() {
    assert_eq!(parse_create("{\"title\":\"ok\"}").as_deref(), Some("ok"));
    assert!(parse_create("{\"title\":{\"inner\":\"x\"}}").is_none());
    assert!(parse_create("{\"other\":\"x\"}").is_none());
}

#[test]
fn store_can_always_create_in_practice() {
    let store = Store::new();
    assert!(store.can_create());
}

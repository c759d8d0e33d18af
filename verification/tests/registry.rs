use ros_core_rs::param_tree::ParamValue;
use ros_core_rs::registry::Registry;

fn fresh() -> Registry {
    Registry::new("http://0.0.0.0:11311".to_string(), "test-run-id".to_string())
}

fn dict(entries: Vec<(&str, ParamValue)>) -> ParamValue {
    ParamValue::Dict(entries.into_iter().map(|(k, v)| (k.to_string(), v)).collect())
}

#[test]
fn publisher_before_subscriber() {
    let mut r = fresh();
    let (code, msg, subs, ups, sh) =
        r.register_publisher("/talker", "/chatter", "std_msgs/String", "http://a:1");
    assert_eq!(code, 1);
    assert_eq!(msg, "");
    assert!(subs.is_empty());
    assert!(ups.is_empty());
    assert!(sh.is_none());

    let (code, msg, pubs, sh) =
        r.register_subscriber("/listener", "/chatter", "std_msgs/String", "http://b:2");
    assert_eq!(code, 1);
    assert_eq!(msg, "");
    assert_eq!(pubs, vec!["http://a:1".to_string()]);
    assert!(sh.is_none());

    let (code, _, (pubs, subs, services)) = r.get_system_state("/x");
    assert_eq!(code, 1);
    assert_eq!(pubs.len(), 1);
    assert_eq!(pubs[0].0, "/chatter");
    assert_eq!(pubs[0].1, vec!["/talker".to_string()]);
    assert_eq!(subs.len(), 1);
    assert_eq!(subs[0].0, "/chatter");
    assert_eq!(subs[0].1, vec!["/listener".to_string()]);
    assert!(services.is_empty());
}

#[test]
fn subscriber_before_publisher_with_callback() {
    let mut r = fresh();
    let (code, _, pubs, _) =
        r.register_subscriber("/listener", "/chatter", "std_msgs/String", "http://b:2");
    assert_eq!(code, 1);
    assert!(pubs.is_empty());

    let (code, _, subs, ups, _) =
        r.register_publisher("/talker", "/chatter", "std_msgs/String", "http://a:1");
    assert_eq!(code, 1);
    assert_eq!(subs, vec!["http://b:2".to_string()]);
    assert_eq!(ups.len(), 1);
    assert_eq!(ups[0].node_id, "/listener");
    assert_eq!(ups[0].api_uri, "http://b:2");
    assert_eq!(ups[0].caller_id, "/talker");
    assert_eq!(ups[0].topic, "/chatter");
    assert_eq!(ups[0].publisher_apis, vec!["http://a:1".to_string()]);
}

#[test]
fn node_rebinding_asks_old_instance_to_shut_down() {
    let mut r = fresh();
    let (_, _, _, _, sh) = r.register_publisher("/n", "/t", "T", "http://x:1");
    assert!(sh.is_none());
    let (_, _, _, _, sh) = r.register_publisher("/n", "/t", "T", "http://x:2");
    let sh = sh.expect("re-binding must request a shutdown");
    assert_eq!(sh.api_uri, "http://x:1");
    assert_eq!(sh.node_id, "/n");
    assert_eq!(sh.reason, "[/n] Reason: new node registered with same name");

    let (code, msg, api) = r.lookup_node("/q", "/n");
    assert_eq!(code, 1);
    assert_eq!(msg, "");
    assert_eq!(api, "http://x:2");
}

#[test]
fn parameter_set_with_nested_subscriber() {
    let mut r = fresh();
    let value = dict(vec![("b", dict(vec![("c", ParamValue::Int(7))]))]);
    let (code, _, zero, ups) = r.set_param("/n", "/a", value);
    assert_eq!(code, 1);
    assert_eq!(zero, 0);
    assert!(ups.is_empty());

    let (code, _, value, _) = r.subscribe_param("/s", "http://s:1", "/a/b/c");
    assert_eq!(code, 1);
    assert_eq!(value, ParamValue::Int(7));

    let deeper = dict(vec![("c", ParamValue::Int(9)), ("d", ParamValue::Int(1))]);
    let (code, _, _, ups) = r.set_param("/n", "/a/b", deeper);
    assert_eq!(code, 1);
    assert_eq!(ups.len(), 1);
    assert_eq!(ups[0].api_uri, "http://s:1");
    assert_eq!(ups[0].caller_id, "/n");
    assert_eq!(ups[0].param, "/a/b/c");
    assert_eq!(ups[0].value, ParamValue::Int(9));

    let (code, _, value) = r.get_param("/q", "/a/b/d");
    assert_eq!(code, 1);
    assert_eq!(value, ParamValue::Int(1));
}

#[test]
fn search_param_finds_closest_ancestor() {
    let mut r = fresh();
    let (_, _, _, ups) = r.set_param("/setter", "/foo/gain", ParamValue::Double((3.14f64).to_bits()));
    assert!(ups.is_empty());
    let (code, msg, name) = r.search_param("/foo/bar/baz", "gain");
    assert_eq!(code, 1);
    assert_eq!(msg, "");
    assert_eq!(name, "/foo/gain");
}

#[test]
fn empty_set_cleanup() {
    let mut r = fresh();
    r.register_subscriber("/only", "/t", "T", "http://o:1");
    let (code, _, n) = r.unregister_subscriber("/only", "/t", "http://o:1");
    assert_eq!(code, 1);
    assert_eq!(n, 1);
    let (_, _, (_, subs, _)) = r.get_system_state("/q");
    assert!(!subs.iter().any(|row| row.0 == "/t"));
}

#[test]
fn unregister_of_unknown_entities_returns_zero() {
    let mut r = fresh();
    let (code, _, n) = r.unregister_subscriber("/a", "/t", "http://a:1");
    assert_eq!((code, n), (1, 0));
    let (code, _, n) = r.unregister_publisher("/a", "/t", "http://a:1");
    assert_eq!((code, n), (1, 0));
    let (code, _, n) = r.unregister_service("/a", "/s", "rosrpc://a:1");
    assert_eq!((code, n), (1, 0));
    let (code, _, n) = r.unsubscribe_param("/a", "http://a:1", "/k");
    assert_eq!((code, n), (1, 0));
}

#[test]
fn unregister_last_publisher_removes_the_topic() {
    let mut r = fresh();
    r.register_publisher("/p", "/t", "T", "http://p:1");
    let (code, _, n) = r.unregister_publisher("/p", "/t", "http://p:1");
    assert_eq!((code, n), (1, 1));
    let (_, _, listed) = r.get_published_topics("/q", "");
    assert!(!listed.iter().any(|row| row.0 == "/t"));
    let (_, _, (pubs, _, _)) = r.get_system_state("/q");
    assert!(!pubs.iter().any(|row| row.0 == "/t"));
}

#[test]
fn services_register_lookup_unregister() {
    let mut r = fresh();
    let (code, _, zero, sh) =
        r.register_service("/node", "/add_two_ints", "rosrpc://n:9000", "http://n:1");
    assert_eq!((code, zero), (1, 0));
    assert!(sh.is_none());

    let (code, msg, api) = r.lookup_service("/q", "/add_two_ints");
    assert_eq!(code, 1);
    assert_eq!(msg, "");
    assert_eq!(api, "rosrpc://n:9000");

    let (code, msg, api) = r.lookup_service("/q", "/nope");
    assert_eq!(code, 0);
    assert_eq!(msg, "`no providers for service \"{service}\"`");
    assert_eq!(api, "");

    let (code, _, n) = r.unregister_service("/node", "/add_two_ints", "rosrpc://n:9000");
    assert_eq!((code, n), (1, 1));
    let (code, _, _) = r.lookup_service("/q", "/add_two_ints");
    assert_eq!(code, 0);
}

#[test]
fn unregister_one_of_two_providers_counts_the_removal() {
    let mut r = fresh();
    r.register_service("/a", "/s", "rosrpc://a:1", "http://a:1");
    r.register_service("/b", "/s", "rosrpc://b:1", "http://b:1");
    // a non-provider of an existing service is not counted
    let (code, _, n) = r.unregister_service("/c", "/s", "rosrpc://c:1");
    assert_eq!((code, n), (1, 0));
    // the caller's registration is removed and counted, the service stays
    let (code, _, n) = r.unregister_service("/a", "/s", "rosrpc://a:1");
    assert_eq!((code, n), (1, 1));
    let (code, _, api) = r.lookup_service("/q", "/s");
    assert_eq!(code, 1);
    assert_eq!(api, "rosrpc://b:1");
    // removing the last provider is counted too, and takes the service with it
    let (code, _, n) = r.unregister_service("/b", "/s", "rosrpc://b:1");
    assert_eq!((code, n), (1, 1));
    let (code, _, _) = r.lookup_service("/q", "/s");
    assert_eq!(code, 0);
}

#[test]
fn lookup_node_not_found_message() {
    let r = fresh();
    let (code, msg, api) = r.lookup_node("/q", "/ghost");
    assert_eq!(code, 0);
    assert_eq!(msg, "node /ghost not found");
    assert_eq!(api, "");
}

#[test]
fn get_param_error_message() {
    let r = fresh();
    let (code, msg, value) = r.get_param("/q", "/missing");
    assert_eq!(code, -1);
    assert_eq!(msg, "Parameter [/missing] is not set");
    assert_eq!(value, ParamValue::Int(0));
}

#[test]
fn param_names_are_set() {
    let mut r = fresh();
    r.set_param("/n", "/a/b", ParamValue::Int(1));
    r.set_param("/n", "/c", ParamValue::Bool(false));
    let (code, _, names) = r.get_param_names("/q");
    assert_eq!(code, 1);
    assert!(names.contains(&"/run_id".to_string()));
    assert!(names.contains(&"/a/b".to_string()));
    assert!(names.contains(&"/c".to_string()));
    for name in names {
        let (code, _, has) = r.has_param("/q", name.as_str());
        assert_eq!(code, 1);
        assert!(has);
        let (code, _, _) = r.get_param("/q", name.as_str());
        assert_eq!(code, 1);
    }
}

#[test]
fn set_delete_has_round_trip() {
    let mut r = fresh();
    r.set_param("/n", "/x/y", ParamValue::Str("v".to_string()));
    let (_, _, value) = r.get_param("/n", "/x/y");
    assert_eq!(value, ParamValue::Str("v".to_string()));
    let (code, _, zero) = r.delete_param("/n", "/x/y");
    assert_eq!((code, zero), (1, 0));
    let (_, _, has) = r.has_param("/n", "/x/y");
    assert!(!has);
}

#[test]
fn latest_registration_wins() {
    let mut r = fresh();
    r.register_subscriber("/n", "/t", "T", "http://first:1");
    r.register_publisher("/n", "/t", "T", "http://second:2");
    let (_, _, api) = r.lookup_node("/q", "/n");
    assert_eq!(api, "http://second:2");
}

#[test]
fn subscribe_param_replaces_and_unsubscribes() {
    let mut r = fresh();
    let (_, _, value, _) = r.subscribe_param("/s", "http://s:1", "/k");
    assert_eq!(value, ParamValue::Str(String::new()));
    // a re-subscription of the same node and key replaces the old entry
    r.subscribe_param("/s", "http://s:2", "/k");
    let (_, _, _, ups) = r.set_param("/w", "/k", ParamValue::Int(5));
    assert_eq!(ups.len(), 1);
    assert_eq!(ups[0].api_uri, "http://s:2");
    assert_eq!(ups[0].value, ParamValue::Int(5));

    let (code, _, n) = r.unsubscribe_param("/s", "http://s:2", "/k");
    assert_eq!((code, n), (1, 1));
    let (_, _, _, ups) = r.set_param("/w", "/k", ParamValue::Int(6));
    assert!(ups.is_empty());
}

#[test]
fn prefix_related_keys_are_notified_with_current_values() {
    let mut r = fresh();
    r.set_param("/n", "/a/b", ParamValue::Int(1));
    r.subscribe_param("/up", "http://up:1", "/a");
    // writing deeper notifies the subscriber of the ancestor key
    let (_, _, _, ups) = r.set_param("/n", "/a/b", ParamValue::Int(2));
    assert_eq!(ups.len(), 1);
    assert_eq!(ups[0].param, "/a");
    assert_eq!(ups[0].value, dict(vec![("b", ParamValue::Int(2))]));
    // a write on an unrelated key notifies nobody
    let (_, _, _, ups) = r.set_param("/n", "/zz", ParamValue::Int(3));
    assert!(ups.is_empty());
}

#[test]
fn topic_types_record_first_publisher() {
    let mut r = fresh();
    r.register_publisher("/p1", "/t", "TypeA", "http://p1:1");
    r.register_publisher("/p2", "/t", "TypeB", "http://p2:1");
    let (_, _, types) = r.get_topic_types("/q");
    assert_eq!(types, vec![("/t".to_string(), "TypeA".to_string())]);
    let (_, _, listed) = r.get_published_topics("/q", "");
    assert_eq!(listed, vec![("/t".to_string(), "TypeA".to_string())]);
}

#[test]
fn get_uri_returns_the_master_url() {
    let r = fresh();
    let (code, _, uri) = r.get_uri("/q");
    assert_eq!(code, 1);
    assert_eq!(uri, "http://0.0.0.0:11311");
}

#[test]
fn system_state_sorts_node_ids() {
    let mut r = fresh();
    r.register_publisher("/zeta", "/t", "T", "http://z:1");
    r.register_publisher("/alpha", "/t", "T", "http://a:1");
    let (_, _, (pubs, _, _)) = r.get_system_state("/q");
    assert_eq!(pubs.len(), 1);
    assert_eq!(pubs[0].1, vec!["/alpha".to_string(), "/zeta".to_string()]);
}

#[test]
fn relative_and_private_names_resolve_against_caller() {
    let mut r = fresh();
    // relative name: resolved in the caller's parent namespace
    r.register_publisher("/ns/node", "chatter", "T", "http://n:1");
    let (_, _, (pubs, _, _)) = r.get_system_state("/q");
    assert_eq!(pubs[0].0, "/ns/chatter");
    // private name: resolved under the caller itself
    let mut r2 = fresh();
    r2.set_param("/ns/node", "~p", ParamValue::Int(4));
    let (code, _, v) = r2.get_param("/q", "/ns/node/p");
    assert_eq!(code, 1);
    assert_eq!(v, ParamValue::Int(4));
}

use ros_core_rs::endpoints::MasterEndpoints;
use ros_core_rs::names::{one_is_prefix_of_the_other, resolve};
use ros_core_rs::run_id::{fresh_registry, node_id_from_ip_link};

#[test]
fn resolve_empty_key() {
    assert_eq!(resolve("/caller", ""), "");
}

#[test]
fn resolve_global_key() {
    assert_eq!(resolve("/caller", "/a/b"), "/a/b");
}

#[test]
fn resolve_private_key() {
    assert_eq!(resolve("/ns/node", "~p"), "/ns/node/p");
}

#[test]
fn resolve_relative_key() {
    assert_eq!(resolve("/ns/node", "topic"), "/ns/topic");
    assert_eq!(resolve("bare", "topic"), "topic");
}

#[test]
fn prefix_relation() {
    assert!(one_is_prefix_of_the_other("/a", "/a/b"));
    assert!(one_is_prefix_of_the_other("/a/b", "/a"));
    assert!(one_is_prefix_of_the_other("/a", "/ab"));
    assert!(one_is_prefix_of_the_other("", "/x"));
    assert!(!one_is_prefix_of_the_other("/a/b", "/a/c"));
}

#[test]
fn endpoint_wire_names() {
    assert_eq!(MasterEndpoints::RegisterService.as_str(), "registerService");
    assert_eq!(MasterEndpoints::UnRegisterService.as_str(), "unregisterService");
    assert_eq!(MasterEndpoints::RegisterSubscriber.as_str(), "registerSubscriber");
    assert_eq!(MasterEndpoints::UnregisterSubscriber.as_str(), "unregisterSubscriber");
    assert_eq!(MasterEndpoints::RegisterPublisher.as_str(), "registerPublisher");
    assert_eq!(MasterEndpoints::UnregisterPublisher.as_str(), "unregisterPublisher");
    assert_eq!(MasterEndpoints::LookupNode.as_str(), "lookupNode");
    assert_eq!(MasterEndpoints::GetPublishedTopics.as_str(), "getPublishedTopics");
    assert_eq!(MasterEndpoints::GetTopicTypes.as_str(), "getTopicTypes");
    assert_eq!(MasterEndpoints::GetSystemState.as_str(), "getSystemState");
    assert_eq!(MasterEndpoints::GetUri.as_str(), "getUri");
    assert_eq!(MasterEndpoints::LookupService.as_str(), "lookupService");
    assert_eq!(MasterEndpoints::DeleteParam.as_str(), "deleteParam");
    assert_eq!(MasterEndpoints::SetParam.as_str(), "setParam");
    assert_eq!(MasterEndpoints::GetParam.as_str(), "getParam");
    assert_eq!(MasterEndpoints::SearchParam.as_str(), "searchParam");
    assert_eq!(MasterEndpoints::SubscribeParam.as_str(), "subscribeParam");
    assert_eq!(MasterEndpoints::UnsubscribeParam.as_str(), "unsubscribeParam");
    assert_eq!(MasterEndpoints::HasParam.as_str(), "hasParam");
    assert_eq!(MasterEndpoints::GetParamNames.as_str(), "getParamNames");
    assert_eq!(MasterEndpoints::SystemMultiCall.as_str(), "system.multicall");
    assert_eq!(MasterEndpoints::GetPid.as_str(), "getPid");
    assert_eq!(MasterEndpoints::Default.as_str(), "");
}

#[test]
fn node_id_parsed_from_ip_link_output() {
    let out = "1: lo: <LOOPBACK,UP,LOWER_UP> mtu 65536\n    \
               link/loopback 00:00:00:00:00:00 brd 00:00:00:00:00:00\n\
               2: eth0: <BROADCAST,MULTICAST,UP,LOWER_UP> mtu 1500\n    \
               link/ether aa:bb:0c:1d:2e:ff brd ff:ff:ff:ff:ff:ff\n";
    let mac = node_id_from_ip_link(out).unwrap();
    assert_eq!(mac, vec![0xaa, 0xbb, 0x0c, 0x1d, 0x2e, 0xff]);
}

#[test]
fn node_id_absent_or_malformed() {
    assert!(node_id_from_ip_link("nothing here").is_none());
    assert!(node_id_from_ip_link("link/ether").is_none());
    assert!(node_id_from_ip_link("link/ether aa:bb:cc").is_none());
    assert!(node_id_from_ip_link("link/ether aa:bb:cc:dd:ee:zz").is_none());
    assert!(node_id_from_ip_link("link/ether 1aa:bb:cc:dd:ee:ff0").is_none());
}

#[test]
fn fresh_registry_seeds_a_run_id() {
    let r = fresh_registry(
        "http://0.0.0.0:11311".to_string(),
        Some(vec![1, 2, 3, 4, 5, 6]),
    );
    let (code, _, names) = r.get_param_names("/q");
    assert_eq!(code, 1);
    assert_eq!(names, vec!["/run_id".to_string()]);
    let (code, _, value) = r.get_param("/q", "/run_id");
    assert_eq!(code, 1);
    match value {
        ros_core_rs::param_tree::ParamValue::Str(s) => assert_eq!(s.chars().count(), 36),
        other => panic!("run_id should be a string, got {:?}", other),
    }
}

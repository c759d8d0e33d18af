//! The method names of the master's XML-RPC interface, in exact wire form.

use vstd::prelude::*;

verus! {

/// The endpoints that the master serves, one per RPC method, plus a
/// default used for any unknown method name.
pub enum MasterEndpoints {
    RegisterService,
    UnRegisterService,
    RegisterSubscriber,
    UnregisterSubscriber,
    RegisterPublisher,
    UnregisterPublisher,
    LookupNode,
    GetPublishedTopics,
    GetTopicTypes,
    GetSystemState,
    GetUri,
    LookupService,
    DeleteParam,
    SetParam,
    GetParam,
    SearchParam,
    SubscribeParam,
    UnsubscribeParam,
    HasParam,
    GetParamNames,
    SystemMultiCall,
    GetPid,
    Default,
}

impl MasterEndpoints {
    /// The wire name of the endpoint: the method-name string that clients
    /// put in their XML-RPC requests.
    pub open spec fn spec_name(self) -> Seq<char> {
        match self {
            MasterEndpoints::RegisterService => "registerService"@,
            MasterEndpoints::UnRegisterService => "unregisterService"@,
            MasterEndpoints::RegisterSubscriber => "registerSubscriber"@,
            MasterEndpoints::UnregisterSubscriber => "unregisterSubscriber"@,
            MasterEndpoints::RegisterPublisher => "registerPublisher"@,
            MasterEndpoints::UnregisterPublisher => "unregisterPublisher"@,
            MasterEndpoints::LookupNode => "lookupNode"@,
            MasterEndpoints::GetPublishedTopics => "getPublishedTopics"@,
            MasterEndpoints::GetTopicTypes => "getTopicTypes"@,
            MasterEndpoints::GetSystemState => "getSystemState"@,
            MasterEndpoints::GetUri => "getUri"@,
            MasterEndpoints::LookupService => "lookupService"@,
            MasterEndpoints::DeleteParam => "deleteParam"@,
            MasterEndpoints::SetParam => "setParam"@,
            MasterEndpoints::GetParam => "getParam"@,
            MasterEndpoints::SearchParam => "searchParam"@,
            MasterEndpoints::SubscribeParam => "subscribeParam"@,
            MasterEndpoints::UnsubscribeParam => "unsubscribeParam"@,
            MasterEndpoints::HasParam => "hasParam"@,
            MasterEndpoints::GetParamNames => "getParamNames"@,
            MasterEndpoints::SystemMultiCall => "system.multicall"@,
            MasterEndpoints::GetPid => "getPid"@,
            MasterEndpoints::Default => ""@,
        }
    }

    /// Returns the wire name of the endpoint.
    pub fn as_str(&self) -> (r: &'static str)
        ensures
            r@ == self.spec_name(),
    {
        match self {
            MasterEndpoints::RegisterService => "registerService",
            MasterEndpoints::UnRegisterService => "unregisterService",
            MasterEndpoints::RegisterSubscriber => "registerSubscriber",
            MasterEndpoints::UnregisterSubscriber => "unregisterSubscriber",
            MasterEndpoints::RegisterPublisher => "registerPublisher",
            MasterEndpoints::UnregisterPublisher => "unregisterPublisher",
            MasterEndpoints::LookupNode => "lookupNode",
            MasterEndpoints::GetPublishedTopics => "getPublishedTopics",
            MasterEndpoints::GetTopicTypes => "getTopicTypes",
            MasterEndpoints::GetSystemState => "getSystemState",
            MasterEndpoints::GetUri => "getUri",
            MasterEndpoints::LookupService => "lookupService",
            MasterEndpoints::DeleteParam => "deleteParam",
            MasterEndpoints::SetParam => "setParam",
            MasterEndpoints::GetParam => "getParam",
            MasterEndpoints::SearchParam => "searchParam",
            MasterEndpoints::SubscribeParam => "subscribeParam",
            MasterEndpoints::UnsubscribeParam => "unsubscribeParam",
            MasterEndpoints::HasParam => "hasParam",
            MasterEndpoints::GetParamNames => "getParamNames",
            MasterEndpoints::SystemMultiCall => "system.multicall",
            MasterEndpoints::GetPid => "getPid",
            MasterEndpoints::Default => "",
        }
    }
}

} // verus!

use routing::authority::Authority;
use routing::data::{Data, DataRequest, DestinationAddress, InterfaceError, ResponseError, SourceAddress};
use routing::name_type::NameType;
use routing::node_interface::{get_outcome, CreatePersonas, Interface, MethodCall};
use routing::refresh::{DedupPolicy, RefreshAggregator};

fn name(b: u8) -> NameType {
    NameType::new([b; 64])
}

struct Recorder {
    refreshes: Vec<(u64, Vec<Vec<u8>>)>,
    store: Vec<Data>,
}

impl Interface for Recorder {
    fn handle_get(
        &mut self,
        data_request: DataRequest,
        _our_authority: Authority,
        from_authority: Authority,
        _from_address: SourceAddress,
    ) -> Result<Vec<MethodCall>, InterfaceError> {
        let mut actions = Vec::new();
        for d in self.store.iter() {
            if d.name == data_request.name {
                actions.push(MethodCall::Reply { data: d.clone() });
            }
        }
        if actions.is_empty() {
            if let Some(n) = from_authority.scoped_name() {
                actions.push(MethodCall::Forward { destination: n });
            }
        }
        get_outcome(actions)
    }

    fn handle_put(
        &mut self,
        _our_authority: Authority,
        _from_authority: Authority,
        _from_address: SourceAddress,
        _dest_address: DestinationAddress,
        data: Data,
    ) -> Result<Vec<MethodCall>, InterfaceError> {
        self.store.push(data);
        Ok(Vec::new())
    }

    fn handle_post(
        &mut self,
        _our_authority: Authority,
        _from_authority: Authority,
        _from_address: SourceAddress,
        _dest_address: DestinationAddress,
        _data: Data,
    ) -> Result<Vec<MethodCall>, InterfaceError> {
        Err(InterfaceError::Response(ResponseError::InvalidRequest))
    }

    fn handle_refresh(&mut self, type_tag: u64, _from_group: NameType, payloads: Vec<Vec<u8>>) {
        self.refreshes.push((type_tag, payloads));
    }

    fn handle_get_response(&mut self, _from_address: NameType, _response: Data) -> Vec<MethodCall> {
        Vec::new()
    }

    fn handle_put_response(
        &mut self,
        _from_authority: Authority,
        _from_address: SourceAddress,
        _response: ResponseError,
    ) -> Vec<MethodCall> {
        Vec::new()
    }

    fn handle_post_response(
        &mut self,
        _from_authority: Authority,
        _from_address: SourceAddress,
        _response: ResponseError,
    ) -> Vec<MethodCall> {
        Vec::new()
    }

    fn handle_churn(&mut self, close_group: Vec<NameType>) -> Vec<MethodCall> {
        close_group.into_iter().map(|n| MethodCall::Forward { destination: n }).collect()
    }

    fn handle_cache_get(
        &mut self,
        _data_request: DataRequest,
        _data_location: NameType,
        _from_address: NameType,
    ) -> Result<MethodCall, InterfaceError> {
        Err(InterfaceError::Response(ResponseError::NoData))
    }

    fn handle_cache_put(
        &mut self,
        _from_authority: Authority,
        _from_address: NameType,
        data: Data,
    ) -> Result<MethodCall, InterfaceError> {
        Ok(MethodCall::Put { destination: data.name, content: data })
    }
}

struct Factory;

impl CreatePersonas<Recorder> for Factory {
    fn create_personas(&mut self) -> Recorder {
        Recorder { refreshes: Vec::new(), store: Vec::new() }
    }
}

fn source() -> SourceAddress {
    SourceAddress { from_node: name(9), from_group: None, reply_to: None }
}

#[test]
fn empty_actions_are_an_interface_error() {
    assert!(matches!(get_outcome(Vec::new()), Err(InterfaceError::Abort)));
}

#[test]
fn found_actions_are_returned_unchanged() {
    let r = get_outcome(vec![MethodCall::Forward { destination: name(3) }]).unwrap();
    assert_eq!(r.len(), 1);
    assert!(matches!(r[0], MethodCall::Forward { destination } if destination == name(3)));
}

#[test]
fn unresolvable_get_is_an_error_not_an_empty_list() {
    let mut node = Factory.create_personas();
    let req = DataRequest { name: name(1), type_tag: 0 };
    let r = node.handle_get(req, Authority::ManagedNode, Authority::Client, source());
    assert!(matches!(r, Err(InterfaceError::Abort)));
}

#[test]
fn get_forwards_or_replies() {
    let mut node = Factory.create_personas();
    let req = DataRequest { name: name(1), type_tag: 0 };
    let r = node.handle_get(req, Authority::ManagedNode, Authority::NaeManager(name(4)), source()).unwrap();
    assert!(matches!(r[0], MethodCall::Forward { destination } if destination == name(4)));
    let dest = DestinationAddress { dest: name(1), reply_to: None };
    let data = Data { name: name(1), content: vec![1, 2] };
    node.handle_put(Authority::ManagedNode, Authority::Client, source(), dest, data).unwrap();
    let r = node.handle_get(req, Authority::ManagedNode, Authority::Client, source()).unwrap();
    assert!(matches!(&r[0], MethodCall::Reply { data } if data.content == vec![1, 2]));
}

#[test]
fn quorum_hands_payloads_to_handle_refresh_once() {
    let mut node = Factory.create_personas();
    let mut agg = RefreshAggregator::new(2, 10, DedupPolicy::BySender);
    assert!(!agg.receive(&mut node, 5, name(1), name(10), vec![1], 0));
    assert!(!agg.receive(&mut node, 5, name(1), name(10), vec![1], 1));
    assert!(node.refreshes.is_empty());
    assert!(agg.receive(&mut node, 5, name(1), name(11), vec![2], 2));
    assert_eq!(node.refreshes, vec![(5, vec![vec![1], vec![2]])]);
}

#[test]
fn names_compare_by_bytes() {
    let mut b = [0u8; 64];
    b[63] = 1;
    assert!(name(0) == name(0));
    assert!(name(0) != NameType::new(b));
    assert!(name(0).same_as(&name(0)));
    assert!(!name(0).same_as(&NameType::new(b)));
}

#[test]
fn only_name_scoped_authorities_carry_a_name() {
    assert!(Authority::ClientManager(name(1)).scoped_name() == Some(name(1)));
    assert!(Authority::NaeManager(name(2)).scoped_name() == Some(name(2)));
    assert!(Authority::OurCloseGroup(name(3)).scoped_name() == Some(name(3)));
    assert!(Authority::NodeManager(name(4)).scoped_name() == Some(name(4)));
    assert!(Authority::ManagedNode.scoped_name().is_none());
    assert!(Authority::Client.scoped_name().is_none());
    assert!(Authority::Unknown.scoped_name().is_none());
}

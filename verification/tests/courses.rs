use mirage::handler::Exit;
use mirage::ip::SocketAddr;
use mirage::session::{FlowSetup, PassAction, PassEvent, PassStage, Passage, SetupAction, SetupEvent, SetupStage};
use mirage::transparent_udp::FlowSink;

#[test]
fn a_tunnel_is_opened_with_the_target_and_the_payload() {
    let mut p = Passage::new("h:1".to_string(), vec![9]);
    assert_eq!(p.target_message(), vec![0, 3, b'h', b':', b'1']);
    assert_eq!(p.on(PassEvent::Exit(Some(Exit::Tunnel(2)))), PassAction::TakeTunnel(2));
    assert_eq!(p.on(PassEvent::Done), PassAction::SendTarget);
    assert_eq!(p.on(PassEvent::Done), PassAction::SendPayload);
    assert_eq!(p.on(PassEvent::Done), PassAction::RelayTunnel);
    assert_eq!(p.on(PassEvent::Done), PassAction::Close);
}

#[test]
fn a_direct_connection_needs_no_message() {
    let mut p = Passage::new("h:1".to_string(), Vec::new());
    assert_eq!(p.on(PassEvent::Exit(Some(Exit::Direct))), PassAction::Connect);
    assert_eq!(p.on(PassEvent::Done), PassAction::RelayDirect);
    let mut q = Passage::new("h:1".to_string(), vec![1]);
    q.on(PassEvent::Exit(Some(Exit::Direct)));
    assert_eq!(q.on(PassEvent::Done), PassAction::WritePayload);
    assert_eq!(q.on(PassEvent::Done), PassAction::RelayDirect);
}

#[test]
fn whatever_fails_closes_the_connection() {
    for e in [PassEvent::Exit(None), PassEvent::Exit(Some(Exit::Refused)), PassEvent::Failed] {
        let mut p = Passage::new("h:1".to_string(), Vec::new());
        assert_eq!(p.on(e), PassAction::Close);
        assert_eq!(p.stage, PassStage::Over);
    }
    let mut p = Passage::new("h:1".to_string(), Vec::new());
    p.on(PassEvent::Exit(Some(Exit::Tunnel(0))));
    assert_eq!(p.on(PassEvent::Failed), PassAction::Close);
}

#[test]
fn a_direct_flow_is_set_up_in_order() {
    let mut f = FlowSetup::new(Some("h".to_string()), 53);
    assert!(matches!(f.on(SetupEvent::Exit(Some(Exit::Direct))), SetupAction::Resolve(h, 53) if h == "h"));
    let a = SocketAddr::V4([1, 2, 3, 4], 53);
    assert!(matches!(f.on(SetupEvent::Resolved(a)), SetupAction::Connect(t) if t == a));
    assert!(matches!(f.on(SetupEvent::Done), SetupAction::AcquireReply));
    assert!(matches!(f.on(SetupEvent::Done), SetupAction::Run(FlowSink::Direct)));
    assert_eq!(f.stage, SetupStage::Running(FlowSink::Direct));
}

#[test]
fn a_flow_through_a_tunnel_is_set_up_in_order() {
    let mut f = FlowSetup::new(Some("h".to_string()), 53);
    assert!(matches!(f.on(SetupEvent::Exit(Some(Exit::Tunnel(1)))), SetupAction::TakeTunnel(1)));
    assert!(matches!(f.on(SetupEvent::Done), SetupAction::SendSentinel));
    assert!(matches!(f.on(SetupEvent::Done), SetupAction::AcquireReply));
    assert!(matches!(f.on(SetupEvent::Failed), SetupAction::Drop));
}

#[test]
fn a_flow_without_a_name_is_dropped() {
    let mut f = FlowSetup::new(None, 53);
    assert!(matches!(f.on(SetupEvent::Exit(Some(Exit::Direct))), SetupAction::Drop));
    let mut g = FlowSetup::new(Some("h".to_string()), 53);
    g.on(SetupEvent::Exit(Some(Exit::Direct)));
    assert!(matches!(g.on(SetupEvent::Resolved(SocketAddr::V6([0; 16], 53, 0))), SetupAction::Drop));
}

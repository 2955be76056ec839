use bitswarm::peer::manager::PeerCommand;
use bitswarm::peer::message::Message;

#[test]
fn test_peer_command_debug() {
    let cmd = PeerCommand::SendMessage(Message::Choke);
    assert!(format!("{:?}", cmd).contains("Choke"));
    let cmd = PeerCommand::Disconnect;
    assert_eq!(format!("{:?}", cmd), "Disconnect");
}


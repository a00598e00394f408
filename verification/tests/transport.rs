use lnp_presentation::inet::Transport;

#[test]
fn test_transport() {
    assert_eq!(Transport::Tcp.to_str(), "tcp");
    assert_eq!(Transport::Udp.to_str(), "udp");
    assert_eq!(Transport::Quic.to_str(), "quic");
    assert_eq!(Transport::Mtcp.to_str(), "mtcp");

    assert_eq!(Transport::from_str("tcp").unwrap(), Transport::Tcp);
    assert_eq!(Transport::from_str("Tcp").unwrap(), Transport::Tcp);
    assert_eq!(Transport::from_str("TCP").unwrap(), Transport::Tcp);
    assert_eq!(Transport::from_str("udp").unwrap(), Transport::Udp);
    assert_eq!(Transport::from_str("quic").unwrap(), Transport::Quic);
    assert_eq!(Transport::from_str("mtcp").unwrap(), Transport::Mtcp);
    assert!(Transport::from_str("xtp").is_err());
}

#[test]
fn default_transport() {
    assert_eq!(Transport::default(), Transport::Tcp);
}

use token_ring::message::HotPotato;
use token_ring::message::HotPotatoState;
use token_ring::peer::Peer;
use token_ring::server::Bootstrap;
use token_ring::server::Server;

fn fresh_peer(own: &str, coordinator: &str, next: &str) -> Peer {
    Peer::new(own.to_string(), coordinator.to_string(), next.to_string())
}

fn holding(peer: &Peer) -> bool {
    matches!(peer.hot_potato_state, HotPotatoState::Holding(_))
}

#[test]
fn new_peer_holds_nothing() {
    let peer = fresh_peer("127.0.0.1:9001", "127.0.0.1:9000", "127.0.0.1:9002");
    assert_eq!(peer.address, "127.0.0.1:9001");
    assert_eq!(peer.server_address, "127.0.0.1:9000");
    assert_eq!(peer.next_peer_address, "127.0.0.1:9002");
    assert!(!holding(&peer));
}

#[test]
fn server_keeps_its_configuration() {
    let server = Server::new("127.0.0.1:9000".to_string(), 3);
    assert_eq!(server.own_address, "127.0.0.1:9000");
    assert_eq!(server.number_of_peers, 3);
}

#[test]
fn malformed_frame_makes_no_transition() {
    let mut peer = fresh_peer("a", "c", "n");
    assert!(!peer.receive_token_line(""));
    assert!(!holding(&peer));
    assert!(!peer.receive_token_line("{\"bad\":1}"));
    assert!(!holding(&peer));
    // Later well-formed frames keep being processed.
    assert!(peer.receive_token_line("true"));
    assert_eq!(peer.hot_potato_state, HotPotatoState::Holding(HotPotato(true)));
}

#[test]
fn forwarder_only_sends_while_holding() {
    let mut peer = fresh_peer("a", "c", "n");
    // A wake without a token in hand sends nothing.
    assert_eq!(peer.throw_hot_potato(), None);
    assert!(!holding(&peer));
    // A wake while holding emits the encoded token and reverts the state.
    assert!(peer.receive_token_line("true"));
    assert_eq!(peer.throw_hot_potato(), Some("true".to_string()));
    assert!(!holding(&peer));
    // The wake was consumed: a spurious second wake sends nothing.
    assert_eq!(peer.throw_hot_potato(), None);
}

#[test]
fn barrier_releases_only_when_full() {
    let mut bootstrap = Bootstrap::new(2);
    assert!(!bootstrap.released());
    bootstrap.arrive();
    assert!(!bootstrap.released());
    bootstrap.arrive();
    assert!(bootstrap.released());
}

#[test]
fn exactly_one_handler_sends_the_initial_token() {
    let mut bootstrap = Bootstrap::new(3);
    bootstrap.arrive();
    bootstrap.arrive();
    bootstrap.arrive();
    assert!(bootstrap.released());
    let mut token_lines: usize = 0;
    for _ in 0..3 {
        let (start_line, token_line) = bootstrap.handler_signals();
        assert_eq!(start_line, "true");
        if let Some(line) = token_line {
            assert_eq!(line, "true");
            token_lines += 1;
        }
    }
    assert_eq!(token_lines, 1);
}

#[test]
fn three_peer_ring_scenario() {
    // Coordinator C with peer-count 3; peers wired P0 -> P1 -> P2 -> P0.
    let mut bootstrap = Bootstrap::new(3);
    let mut peers = vec![
        fresh_peer("p0", "c", "p1"),
        fresh_peer("p1", "c", "p2"),
        fresh_peer("p2", "c", "p0"),
    ];

    // All three connect; no handler signals before the third arrival.
    for _ in 0..3 {
        assert!(!bootstrap.released());
        bootstrap.arrive();
    }
    assert!(bootstrap.released());

    // Once released, every handler sends a StartFlag; exactly one also
    // sends the initial-token frame, and that peer transitions to Holding.
    let mut initial_holder: Option<usize> = None;
    for (i, peer) in peers.iter_mut().enumerate() {
        let (start_line, token_line) = bootstrap.handler_signals();
        assert!(Peer::expect_start_flag(Some(&start_line)).is_ok());
        if let Some(line) = token_line {
            assert!(peer.receive_token_line(&line));
            assert_eq!(initial_holder, None);
            initial_holder = Some(i);
        }
    }
    let first = initial_holder.unwrap();
    assert_eq!(first, 0);

    // The token circulates 0 -> 1 -> 2 -> 0 -> ... : after its hold delay
    // each holder sends the token to its successor, whose state becomes
    // Holding while the sender's reverts to NotHolding; no two peers ever
    // hold it at once.
    let mut at: usize = first;
    for _ in 0..7 {
        let line = peers[at].throw_hot_potato().expect("holder must forward");
        let next = (at + 1) % 3;
        assert!(peers[next].receive_token_line(&line));
        assert!(!holding(&peers[at]));
        assert!(holding(&peers[next]));
        let holders = peers.iter().filter(|p| holding(p)).count();
        assert_eq!(holders, 1);
        at = next;
    }
    // One observation per peer per lap, in cyclic order.
    assert_eq!(at, 7 % 3);
}

use ocastaproxy::websocket::{
    handshake, relay_step, upstream_host, upstream_url, CloseFrame, ProxyData, RelayAction, RelayEvent,
    WsMessage,
};

fn p(k: &str, v: &str) -> (String, String) {
    (k.to_string(), v.to_string())
}

#[test]
fn last_value_wins() {
    let data = ProxyData::new(vec![p("a", "1"), p("origin", "https://o.org"), p("a", "2")]);
    assert_eq!(data.get("a"), Some("2".to_string()));
    assert_eq!(data.get("b"), None);
    assert_eq!(data.origin(), "https://o.org");
    assert_eq!(data.passed_on(), vec![p("a", "2"), p("origin", "https://o.org")]);
}

#[test]
fn origin_defaults_to_empty() {
    assert_eq!(ProxyData::new(vec![]).origin(), "");
}

#[test]
fn upstream_address_has_the_parameters() {
    let data = ProxyData::new(vec![p("a", "2"), p("origin", "https://o")]);
    assert_eq!(
        upstream_url("wss://echo.example.com/ws", &data),
        Some("wss://echo.example.com/ws?a=2&origin=https%3A%2F%2Fo".to_string())
    );
    assert_eq!(upstream_url("no url", &data), None);
    assert_eq!(upstream_host("wss://echo.example.com/ws?a=2"), "echo.example.com");
}

#[test]
fn handshake_is_built() {
    let data = ProxyData::new(vec![p("origin", "https://o.org")]);
    let headers = vec![("host".to_string(), b"localhost:8080".to_vec())];
    let hs = handshake("wss://echo.example.com/ws", &data, &headers).unwrap();
    assert_eq!(hs.url, "wss://echo.example.com/ws?origin=https%3A%2F%2Fo.org");
    assert_eq!(hs.headers, vec![("host".to_string(), b"echo.example.com".to_vec())]);
}

#[test]
fn relay_forwards_and_closes() {
    assert_eq!(
        relay_step(RelayEvent::FromClient(WsMessage::Text("hi".to_string()))),
        RelayAction::ToServer { message: WsMessage::Text("hi".to_string()), last: false }
    );
    assert_eq!(
        relay_step(RelayEvent::FromServer(WsMessage::Close(Some(CloseFrame { code: 1000, reason: "bye".to_string() })))),
        RelayAction::ToClient { message: WsMessage::Close(None), last: true }
    );
    assert_eq!(
        relay_step(RelayEvent::FromServer(WsMessage::Frame)),
        RelayAction::ToClient { message: WsMessage::Close(None), last: true }
    );
    assert_eq!(
        relay_step(RelayEvent::FromClient(WsMessage::Ping(vec![1, 2]))),
        RelayAction::ToServer { message: WsMessage::Ping(vec![1, 2]), last: false }
    );
    assert_eq!(relay_step(RelayEvent::Ended), RelayAction::Stop);
}

#[test]
fn relay_keeps_order_and_stops_at_close() {
    let events = vec![
        RelayEvent::FromClient(WsMessage::Text("a".to_string())),
        RelayEvent::FromServer(WsMessage::Binary(vec![1])),
        RelayEvent::FromClient(WsMessage::Ping(vec![2])),
        RelayEvent::FromServer(WsMessage::Frame),
        RelayEvent::FromClient(WsMessage::Text("late".to_string())),
    ];
    let mut up = vec![];
    let mut down = vec![];
    for e in events {
        match relay_step(e) {
            RelayAction::ToServer { message, last } => {
                up.push(message);
                if last {
                    break;
                }
            }
            RelayAction::ToClient { message, last } => {
                down.push(message);
                if last {
                    break;
                }
            }
            RelayAction::Stop => break,
        }
    }
    assert_eq!(up, vec![WsMessage::Text("a".to_string()), WsMessage::Ping(vec![2])]);
    assert_eq!(down, vec![WsMessage::Binary(vec![1]), WsMessage::Close(None)]);
}

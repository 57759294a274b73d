use drone_net::logger::{LogLevel, Logger};
use drone_net::messages::browser_messages::BrowserRequest;
use drone_net::messages::chat_messages::{ChatRequest, ChatResponse};
use drone_net::messages::commander_messages::{SimControllerEvent, SimControllerResponseWrapper};
use drone_net::messages::general_messages::{ServerType, ServerTypeResponse};

#[test]
fn logger_emits_by_level_and_flag() {
    let quiet = Logger::new(String::from("Chat Client"), 4, false);
    assert!(quiet.should_emit(&LogLevel::INFO));
    assert!(!quiet.should_emit(&LogLevel::DEBUG));
    assert!(quiet.should_emit(&LogLevel::ERROR));

    let chatty = Logger::new(String::from("Chat Client"), 4, true);
    assert!(chatty.should_emit(&LogLevel::DEBUG));

    assert!(!quiet.uses_error_stream(&LogLevel::INFO));
    assert!(!quiet.uses_error_stream(&LogLevel::DEBUG));
    assert!(quiet.uses_error_stream(&LogLevel::ERROR));

    assert_eq!(quiet.node_id(), 4);
    assert_eq!(quiet.node_type(), &String::from("Chat Client"));
}

#[test]
fn message_envelopes_carry_their_payloads() {
    let req = BrowserRequest::TextFileRequest(3);
    assert!(matches!(req, BrowserRequest::TextFileRequest(3)));

    let chat = ChatRequest::SendMessage {
        from: 1,
        to: 2,
        message: String::from("hi"),
    };
    match chat {
        ChatRequest::SendMessage { from, to, message } => {
            assert_eq!((from, to, message.as_str()), (1, 2, "hi"));
        }
        _ => panic!("unexpected variant"),
    }

    let resp = ChatResponse::ClientList(vec![1, 2, 3]);
    assert!(matches!(resp, ChatResponse::ClientList(ref v) if v.len() == 3));

    let event = SimControllerEvent::PacketSent {
        session_id: 8,
        packet_type: String::from("fragment"),
    };
    let wrapped = SimControllerResponseWrapper::Event(event);
    assert!(matches!(wrapped, SimControllerResponseWrapper::Event(_)));

    let st = ServerTypeResponse::ServerType(ServerType::Media);
    assert!(matches!(
        st,
        ServerTypeResponse::ServerType(ServerType::Media)
    ));
}

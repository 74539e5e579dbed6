use defect_session::client::{
    ClientError, ClientSession, Phase, SocketEvent, SocketSession, TemplateApp,
};
use defect_session::types::{
    AnnotationData, AnnotationEvent, ClientToServer, Defect, FaceKey, ImageData, Point, SamEvent,
    ServerToClient,
};

fn pt(x: f32, y: f32) -> Point {
    Point { x_bits: x.to_bits(), y_bits: y.to_bits() }
}

fn listing() -> ServerToClient {
    ServerToClient::FolderContents(vec![
        FaceKey { prefix: "a".to_string(), is_narrow: false },
        FaceKey { prefix: "c".to_string(), is_narrow: false },
    ])
}

fn initial_load() -> ServerToClient {
    ServerToClient::InitialLoad(
        FaceKey { prefix: "a".to_string(), is_narrow: false },
        ImageData { width: 1, height: 1, rgb: vec![1, 2, 3] },
        AnnotationData { polygons: vec![] },
    )
}

fn update(classes: &[&str]) -> ServerToClient {
    ServerToClient::ServerUpdated(AnnotationData {
        polygons: classes
            .iter()
            .map(|c| Defect { polygon: vec![pt(1.0, 1.0)], class: c.to_string() })
            .collect(),
    })
}

#[test]
fn client_follows_server_messages() {
    let mut c = ClientSession::new();
    c.handle_msg(update(&["ignored"]));
    assert!(c.annotation_sess.is_none());
    c.handle_msg(listing());
    assert_eq!(c.folder_contents.as_ref().map(|v| v.len()), Some(2));
    c.handle_msg(initial_load());
    c.handle_msg(update(&["knot", "crack"]));
    let sess = c.annotation_sess.as_ref().expect("active face");
    assert_eq!(sess.key.prefix, "a");
    assert_eq!(sess.image.rgb, vec![1, 2, 3]);
    assert_eq!(sess.annotations.polygons.len(), 2);
    assert_eq!(sess.annotations.polygons[1].class, "crack");
}

#[test]
fn client_gestures_make_requests() {
    let mut c = ClientSession::new();
    c.set_folder_path("/share".to_string());
    match c.load_folder_request() {
        ClientToServer::LoadFolder(p) => assert_eq!(p, "/share"),
        _ => panic!("expected a folder request"),
    }
    assert!(c.select_key(0).is_none());
    assert!(c.click(pt(1.0, 2.0)).is_none());
    c.handle_msg(listing());
    match c.select_key(1) {
        Some(ClientToServer::LoadKey(k)) => assert_eq!(k.prefix, "c"),
        _ => panic!("expected a key request"),
    }
    assert!(c.select_key(2).is_none());
    c.handle_msg(initial_load());
    match c.click(pt(1.0, 2.0)) {
        Some(ClientToServer::Annotate(AnnotationEvent::Sam(SamEvent::Click(p, positive)))) => {
            assert_eq!(p, pt(1.0, 2.0));
            assert!(positive);
        }
        _ => panic!("expected a click request"),
    }
    c.pick_face();
    assert!(c.annotation_sess.is_none());
    assert!(c.folder_contents.is_some());
    c.pick_folder();
    assert!(c.folder_contents.is_none());
    assert_eq!(c.folder_path, "/share");
}

#[test]
fn socket_events() {
    let mut s = SocketSession::new();
    assert!(!s.is_open);
    assert!(s.receive(SocketEvent::Opened).is_ok());
    assert!(s.is_open);
    assert!(s.receive(SocketEvent::Other).is_ok());
    assert!(s.receive(SocketEvent::Binary(listing().serialize())).is_ok());
    assert!(s.data.folder_contents.is_some());
    assert!(matches!(s.receive(SocketEvent::Binary(vec![9])), Err(ClientError::Decode(_))));
    assert!(matches!(s.receive(SocketEvent::Closed), Err(ClientError::Closed)));
    match s.receive(SocketEvent::Error("reset".to_string())) {
        Err(ClientError::Transport(e)) => assert_eq!(e, "reset"),
        _ => panic!("expected a transport error"),
    }
}

#[test]
fn app_phases_and_reconnect() {
    let mut app = TemplateApp::new(Ok(()));
    assert_eq!(app.phase(), Phase::Connecting);
    app.update(SocketEvent::Opened);
    assert_eq!(app.phase(), Phase::NoFolder);
    app.update(SocketEvent::Binary(listing().serialize()));
    assert_eq!(app.phase(), Phase::FolderListed);
    app.update(SocketEvent::Binary(initial_load().serialize()));
    assert_eq!(app.phase(), Phase::AnnotationActive);
    app.update(SocketEvent::Closed);
    assert_eq!(app.phase(), Phase::Error);
    app.update(SocketEvent::Opened);
    assert_eq!(app.phase(), Phase::Error);
    app.reconnect(Ok(()));
    assert_eq!(app.phase(), Phase::Connecting);
    let failed = TemplateApp::new(Err("refused".to_string()));
    assert_eq!(failed.phase(), Phase::Error);
}

#[test]
fn failed_events_keep_client_state() {
    let mut s = SocketSession::new();
    assert!(s.receive(SocketEvent::Opened).is_ok());
    assert!(s.receive(SocketEvent::Binary(listing().serialize())).is_ok());
    assert!(s.receive(SocketEvent::Binary(initial_load().serialize())).is_ok());
    let mut truncated = update(&["knot"]).serialize();
    truncated.pop();
    for event in [
        SocketEvent::Binary(truncated),
        SocketEvent::Closed,
        SocketEvent::Error("reset".to_string()),
    ] {
        assert!(s.receive(event).is_err());
        assert!(s.is_open);
        assert_eq!(s.data.folder_contents.as_ref().map(|v| v.len()), Some(2));
        let sess = s.data.annotation_sess.as_ref().expect("active face");
        assert_eq!(sess.key.prefix, "a");
        assert!(sess.annotations.polygons.is_empty());
    }
}

use defect_session::server::{
    face_keys, ok_or_log_error, polygon_to_defect, BoardFaceSession, ClientSession, ServerState,
    Step, Work,
};
use defect_session::types::{
    AnnotationData, AnnotationEvent, ClientToServer, Defect, FaceKey, ImageData, Point, SamEvent,
    ServerToClient,
};

fn pt(x: f32, y: f32) -> Point {
    Point { x_bits: x.to_bits(), y_bits: y.to_bits() }
}

fn key(p: &str) -> FaceKey {
    FaceKey { prefix: p.to_string(), is_narrow: false }
}

fn image() -> ImageData {
    ImageData { width: 2, height: 2, rgb: vec![7; 12] }
}

fn square() -> Vec<Point> {
    vec![pt(0.0, 0.0), pt(4.0, 0.0), pt(4.0, 4.0), pt(0.0, 4.0)]
}

fn new_defect(class: &str) -> ClientToServer {
    ClientToServer::Annotate(AnnotationEvent::NewDefect(Defect {
        polygon: vec![pt(1.0, 1.0), pt(2.0, 1.0), pt(2.0, 2.0)],
        class: class.to_string(),
    }))
}

fn annotation_count(s: &ClientSession<u32>) -> Option<usize> {
    match &s.state {
        ServerState::FaceLoaded { face, .. } => Some(face.ann.polygons.len()),
        _ => None,
    }
}

fn select_folder(s: &mut ClientSession<u32>, names: &[&str]) -> Option<ServerToClient> {
    match s.handle_response(ClientToServer::LoadFolder("/share".to_string())) {
        Step::Perform(Work::ListFolder(p)) => {
            assert_eq!(p, "/share");
            let entries = names.iter().map(|n| Some(n.to_string())).collect();
            s.folder_listed(p, Some(entries))
        }
        _ => panic!("expected a listing work item"),
    }
}

fn load_face(s: &mut ClientSession<u32>, prefix: &str, features: u32) -> Option<ServerToClient> {
    let (k, folder, file_name) = match s.handle_response(ClientToServer::LoadKey(key(prefix))) {
        Step::Perform(Work::LoadImage { key, folder, file_name }) => (key, folder, file_name),
        _ => panic!("expected an image work item"),
    };
    assert_eq!(folder, "/share");
    assert_eq!(file_name, format!("{prefix}.tiff"));
    let k2 = FaceKey { prefix: k.prefix.clone(), is_narrow: k.is_narrow };
    match s.image_loaded(k, Some(image())) {
        Step::Perform(Work::EncodeImage { key, image }) => {
            assert_eq!(key.prefix, k2.prefix);
            s.image_encoded(key, image, Some(features))
        }
        _ => panic!("expected an encode work item"),
    }
}

#[test]
fn folder_filter_keeps_tiff_files() {
    let mut s: ClientSession<u32> = ClientSession::new(false);
    match select_folder(&mut s, &["a.tiff", "b.png", "c.tiff"]) {
        Some(ServerToClient::FolderContents(keys)) => {
            assert_eq!(keys.len(), 2);
            assert_eq!(keys[0].prefix, "a");
            assert_eq!(keys[1].prefix, "c");
            assert!(!keys[0].is_narrow && !keys[1].is_narrow);
        }
        _ => panic!("expected folder contents"),
    }
    match &s.state {
        ServerState::FolderSelected { folder, listing } => {
            assert_eq!(folder, "/share");
            assert_eq!(listing.len(), 2);
        }
        _ => panic!("expected a selected folder"),
    }
}

#[test]
fn folder_filter_edge_names() {
    let entries = vec![
        Some(".tiff".to_string()),
        None,
        Some("x.tiff.bak".to_string()),
        Some("y.TIFF".to_string()),
        Some("z.tif".to_string()),
        Some("w.tiff".to_string()),
    ];
    let keys = face_keys(&entries, true);
    assert_eq!(keys.len(), 2);
    assert_eq!(keys[0].prefix, "");
    assert_eq!(keys[1].prefix, "w");
    assert!(keys[0].is_narrow && keys[1].is_narrow);
}

#[test]
fn unreadable_folder_selects_it_without_reply() {
    let mut s: ClientSession<u32> = ClientSession::new(false);
    assert!(s.folder_listed("/missing".to_string(), None).is_none());
    match &s.state {
        ServerState::FolderSelected { folder, listing } => {
            assert_eq!(folder, "/missing");
            assert!(listing.is_empty());
        }
        _ => panic!("expected a selected folder"),
    }
}

#[test]
fn annotate_without_face_is_dropped() {
    let mut s: ClientSession<u32> = ClientSession::new(false);
    let events = vec![
        ClientToServer::Annotate(AnnotationEvent::Sam(SamEvent::Click(pt(10.0, 20.0), true))),
        new_defect("knot"),
        ClientToServer::Annotate(AnnotationEvent::Delete(0)),
    ];
    for e in events {
        assert!(matches!(s.handle_response(e), Step::NoReply));
        assert!(matches!(s.state, ServerState::NoFolder));
    }
    select_folder(&mut s, &["a.tiff"]);
    assert!(matches!(s.handle_response(new_defect("knot")), Step::NoReply));
    match &s.state {
        ServerState::FolderSelected { listing, .. } => assert_eq!(listing.len(), 1),
        _ => panic!("state changed"),
    }
}

#[test]
fn load_key_without_folder_is_dropped() {
    let mut s: ClientSession<u32> = ClientSession::new(false);
    assert!(matches!(s.handle_response(ClientToServer::LoadKey(key("a"))), Step::NoReply));
    assert!(matches!(s.state, ServerState::NoFolder));
}

#[test]
fn reload_resets_annotations() {
    let mut s: ClientSession<u32> = ClientSession::new(false);
    select_folder(&mut s, &["a.tiff", "b.tiff"]);
    load_face(&mut s, "a", 1);
    assert!(matches!(s.handle_response(new_defect("knot")), Step::Reply(_)));
    assert!(matches!(s.handle_response(new_defect("crack")), Step::Reply(_)));
    assert_eq!(annotation_count(&s), Some(2));
    match load_face(&mut s, "b", 2) {
        Some(ServerToClient::InitialLoad(k, img, ann)) => {
            assert_eq!(k.prefix, "b");
            assert_eq!(img.width, 2);
            assert!(ann.polygons.is_empty());
        }
        _ => panic!("expected an initial load"),
    }
    assert_eq!(annotation_count(&s), Some(0));
    assert_eq!(s.features(), Some(&2));
}

#[test]
fn click_becomes_defect() {
    let mut s: ClientSession<u32> = ClientSession::new(false);
    select_folder(&mut s, &["a.tiff"]);
    load_face(&mut s, "a", 9);
    let click = ClientToServer::Annotate(AnnotationEvent::Sam(SamEvent::Click(pt(10.0, 20.0), true)));
    match s.handle_response(click) {
        Step::Perform(Work::Segment { point, is_positive }) => {
            assert_eq!(point, pt(10.0, 20.0));
            assert!(is_positive);
        }
        _ => panic!("expected a segmentation work item"),
    }
    assert_eq!(s.features(), Some(&9));
    match s.segmented(Some(square())) {
        Some(ServerToClient::ServerUpdated(ann)) => {
            assert_eq!(ann.polygons.len(), 1);
            assert_eq!(ann.polygons[0].polygon, square());
            assert_eq!(ann.polygons[0].class, "some class idk");
        }
        _ => panic!("expected an update"),
    }
}

#[test]
fn failed_segmentation_changes_nothing() {
    let mut s: ClientSession<u32> = ClientSession::new(false);
    select_folder(&mut s, &["a.tiff"]);
    load_face(&mut s, "a", 9);
    assert!(s.segmented(None).is_none());
    assert_eq!(annotation_count(&s), Some(0));
}

#[test]
fn delete_and_edit_out_of_range_are_dropped() {
    let mut s: ClientSession<u32> = ClientSession::new(false);
    select_folder(&mut s, &["a.tiff"]);
    load_face(&mut s, "a", 1);
    assert!(matches!(
        s.handle_response(ClientToServer::Annotate(AnnotationEvent::Delete(0))),
        Step::NoReply
    ));
    s.handle_response(new_defect("knot"));
    let edit = ClientToServer::Annotate(AnnotationEvent::EditDefect(
        1,
        Defect { polygon: vec![], class: "x".to_string() },
    ));
    assert!(matches!(s.handle_response(edit), Step::NoReply));
    assert!(matches!(
        s.handle_response(ClientToServer::Annotate(AnnotationEvent::Delete(usize::MAX))),
        Step::NoReply
    ));
    assert_eq!(annotation_count(&s), Some(1));
}

#[test]
fn delete_and_edit_in_range() {
    let mut s: ClientSession<u32> = ClientSession::new(false);
    select_folder(&mut s, &["a.tiff"]);
    load_face(&mut s, "a", 1);
    s.handle_response(new_defect("first"));
    s.handle_response(new_defect("second"));
    let edit = ClientToServer::Annotate(AnnotationEvent::EditDefect(
        0,
        Defect { polygon: vec![], class: "edited".to_string() },
    ));
    match s.handle_response(edit) {
        Step::Reply(ServerToClient::ServerUpdated(ann)) => {
            assert_eq!(ann.polygons.len(), 2);
            assert_eq!(ann.polygons[0].class, "edited");
            assert_eq!(ann.polygons[1].class, "second");
        }
        _ => panic!("expected an update"),
    }
    match s.handle_response(ClientToServer::Annotate(AnnotationEvent::Delete(0))) {
        Step::Reply(ServerToClient::ServerUpdated(ann)) => {
            assert_eq!(ann.polygons.len(), 1);
            assert_eq!(ann.polygons[0].class, "second");
        }
        _ => panic!("expected an update"),
    }
}

#[test]
fn bounding_box_is_dropped() {
    let mut s: ClientSession<u32> = ClientSession::new(false);
    select_folder(&mut s, &["a.tiff"]);
    load_face(&mut s, "a", 1);
    let bbox = ClientToServer::Annotate(AnnotationEvent::Sam(SamEvent::BoundingBox(
        pt(0.0, 0.0),
        pt(1.0, 1.0),
    )));
    assert!(matches!(s.handle_response(bbox), Step::NoReply));
}

#[test]
fn bad_image_is_not_encoded() {
    let s: ClientSession<u32> = ClientSession::new(false);
    let bad = ImageData { width: 3, height: 3, rgb: vec![0; 4] };
    assert!(matches!(s.image_loaded(key("a"), Some(bad)), Step::NoReply));
    assert!(matches!(s.image_loaded(key("a"), None), Step::NoReply));
}

#[test]
fn failed_encoding_keeps_previous_face() {
    let mut s: ClientSession<u32> = ClientSession::new(false);
    select_folder(&mut s, &["a.tiff"]);
    load_face(&mut s, "a", 1);
    s.handle_response(new_defect("knot"));
    assert!(s.image_encoded(key("b"), image(), None).is_none());
    assert_eq!(annotation_count(&s), Some(1));
    assert_eq!(s.features(), Some(&1));
}

#[test]
fn ok_or_log_error_keeps_value() {
    let ok: Result<u32, String> = Ok(4);
    let err: Result<u32, String> = Err("no".to_string());
    assert_eq!(ok_or_log_error(ok), Some(4));
    assert_eq!(ok_or_log_error(err), None);
}

#[test]
fn board_face_session_holds_parts() {
    let f = BoardFaceSession::new(AnnotationData { polygons: vec![polygon_to_defect(square())] }, 5u8);
    assert_eq!(f.xs, 5);
    assert_eq!(f.ann.polygons[0].class, "some class idk");
}

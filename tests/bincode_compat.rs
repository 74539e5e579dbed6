use defect_session::types::{
    AnnotationData, AnnotationEvent, ClientToServer, Defect, FaceKey, ImageData, Point, SamEvent,
    ServerToClient,
};
use defect_session::varint::push_varint;

fn standard<E: bincode::Encode>(v: E) -> Vec<u8> {
    bincode::encode_to_vec(v, bincode::config::standard()).unwrap()
}

fn pt(x: f32, y: f32) -> Point {
    Point { x_bits: x.to_bits(), y_bits: y.to_bits() }
}

#[test]
fn varint_matches_bincode() {
    for v in [0u64, 1, 250, 251, 300, 65535, 65536, 4_294_967_295, 4_294_967_296, u64::MAX] {
        let mut out = vec![];
        push_varint(&mut out, v);
        assert_eq!(out, standard(v));
    }
}

#[test]
fn requests_match_bincode() {
    let folder = ClientToServer::LoadFolder("/share/bräde".to_string());
    assert_eq!(folder.serialize(), standard((0u32, "/share/bräde".to_string())));

    let key = ClientToServer::LoadKey(FaceKey { prefix: "k1".to_string(), is_narrow: true });
    assert_eq!(key.serialize(), standard((1u32, ("k1".to_string(), true))));

    let click = ClientToServer::Annotate(AnnotationEvent::Sam(SamEvent::Click(pt(10.0, 20.0), true)));
    assert_eq!(click.serialize(), standard((2u32, (0u32, (0u32, ((10.0f32, 20.0f32), true))))));

    let bbox = ClientToServer::Annotate(AnnotationEvent::Sam(SamEvent::BoundingBox(
        pt(1.0, 2.0),
        pt(3.5, 4.5),
    )));
    assert_eq!(bbox.serialize(), standard((2u32, (0u32, (1u32, ((1.0f32, 2.0f32), (3.5f32, 4.5f32)))))));

    let edit = ClientToServer::Annotate(AnnotationEvent::EditDefect(
        70_000,
        Defect { polygon: vec![pt(1.0, 2.0), pt(3.0, 4.0)], class: "knot".to_string() },
    ));
    let polygon = vec![(1.0f32, 2.0f32), (3.0f32, 4.0f32)];
    assert_eq!(edit.serialize(), standard((2u32, (3u32, (70_000usize, (polygon, "knot".to_string()))))));

    let delete = ClientToServer::Annotate(AnnotationEvent::Delete(usize::MAX));
    assert_eq!(delete.serialize(), standard((2u32, (2u32, usize::MAX))));
}

#[test]
fn replies_match_bincode() {
    let listing = ServerToClient::FolderContents(vec![
        FaceKey { prefix: "a".to_string(), is_narrow: false },
        FaceKey { prefix: "c".to_string(), is_narrow: false },
    ]);
    let keys = vec![("a".to_string(), false), ("c".to_string(), false)];
    assert_eq!(listing.serialize(), standard((0u32, keys)));

    let load = ServerToClient::InitialLoad(
        FaceKey { prefix: "a".to_string(), is_narrow: false },
        ImageData { width: 300, height: 1, rgb: vec![9; 900] },
        AnnotationData { polygons: vec![] },
    );
    let empty: Vec<(Vec<(f32, f32)>, String)> = vec![];
    assert_eq!(
        load.serialize(),
        standard((1u32, ("a".to_string(), false), (300u32, 1u32, vec![9u8; 900]), empty))
    );

    let updated = ServerToClient::ServerUpdated(AnnotationData {
        polygons: vec![Defect { polygon: vec![pt(0.5, 0.25)], class: "some class idk".to_string() }],
    });
    let defects = vec![(vec![(0.5f32, 0.25f32)], "some class idk".to_string())];
    assert_eq!(updated.serialize(), standard((2u32, defects)));
}

#[test]
fn bincode_bytes_decode() {
    let bytes = standard((2u32, (3u32, (5usize, (vec![(1.0f32, 1.0f32)], "x".to_string())))));
    match ClientToServer::deserialize(&bytes) {
        Ok(ClientToServer::Annotate(AnnotationEvent::EditDefect(i, d))) => {
            assert_eq!(i, 5);
            assert_eq!(d.polygon, vec![pt(1.0, 1.0)]);
            assert_eq!(d.class, "x");
        }
        _ => panic!("expected an edit"),
    }
}

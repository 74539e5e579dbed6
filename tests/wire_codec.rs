use defect_session::types::{
    AnnotationData, AnnotationEvent, ClientToServer, Defect, FaceKey, ImageData, Point, SamEvent,
    ServerToClient,
};
use defect_session::varint::{push_varint, read_varint};
use defect_session::wire::DecodeError;

fn pt(x: f32, y: f32) -> Point {
    Point { x_bits: x.to_bits(), y_bits: y.to_bits() }
}

fn defect(points: &[(f32, f32)], class: &str) -> Defect {
    Defect { polygon: points.iter().map(|&(x, y)| pt(x, y)).collect(), class: class.to_string() }
}

fn same_defect(a: &Defect, b: &Defect) -> bool {
    a.polygon == b.polygon && a.class == b.class
}

fn same_annotations(a: &AnnotationData, b: &AnnotationData) -> bool {
    a.polygons.len() == b.polygons.len()
        && a.polygons.iter().zip(b.polygons.iter()).all(|(x, y)| same_defect(x, y))
}

fn same_key(a: &FaceKey, b: &FaceKey) -> bool {
    a.prefix == b.prefix && a.is_narrow == b.is_narrow
}

fn same_request(a: &ClientToServer, b: &ClientToServer) -> bool {
    match (a, b) {
        (ClientToServer::LoadFolder(x), ClientToServer::LoadFolder(y)) => x == y,
        (ClientToServer::LoadKey(x), ClientToServer::LoadKey(y)) => same_key(x, y),
        (ClientToServer::Annotate(x), ClientToServer::Annotate(y)) => match (x, y) {
            (AnnotationEvent::Sam(p), AnnotationEvent::Sam(q)) => p == q,
            (AnnotationEvent::NewDefect(p), AnnotationEvent::NewDefect(q)) => same_defect(p, q),
            (AnnotationEvent::Delete(i), AnnotationEvent::Delete(j)) => i == j,
            (AnnotationEvent::EditDefect(i, p), AnnotationEvent::EditDefect(j, q)) => {
                i == j && same_defect(p, q)
            }
            _ => false,
        },
        _ => false,
    }
}

fn same_reply(a: &ServerToClient, b: &ServerToClient) -> bool {
    match (a, b) {
        (ServerToClient::FolderContents(x), ServerToClient::FolderContents(y)) => {
            x.len() == y.len() && x.iter().zip(y.iter()).all(|(p, q)| same_key(p, q))
        }
        (ServerToClient::InitialLoad(k, i, n), ServerToClient::InitialLoad(l, j, m)) => {
            same_key(k, l)
                && i.width == j.width
                && i.height == j.height
                && i.rgb == j.rgb
                && same_annotations(n, m)
        }
        (ServerToClient::ServerUpdated(x), ServerToClient::ServerUpdated(y)) => {
            same_annotations(x, y)
        }
        _ => false,
    }
}

fn requests() -> Vec<ClientToServer> {
    vec![
        ClientToServer::LoadFolder("/share/boards".to_string()),
        ClientToServer::LoadFolder(String::new()),
        ClientToServer::LoadFolder("bräde ✓".to_string()),
        ClientToServer::LoadKey(FaceKey { prefix: "20250306_054339".to_string(), is_narrow: true }),
        ClientToServer::LoadKey(FaceKey { prefix: String::new(), is_narrow: false }),
        ClientToServer::Annotate(AnnotationEvent::Sam(SamEvent::Click(pt(10.0, 20.0), true))),
        ClientToServer::Annotate(AnnotationEvent::Sam(SamEvent::Click(pt(-1.5, 0.0), false))),
        ClientToServer::Annotate(AnnotationEvent::Sam(SamEvent::BoundingBox(
            pt(1.0, 2.0),
            pt(300.25, 400.5),
        ))),
        ClientToServer::Annotate(AnnotationEvent::NewDefect(defect(
            &[(0.0, 0.0), (5.0, 0.0), (5.0, 5.0)],
            "knot",
        ))),
        ClientToServer::Annotate(AnnotationEvent::NewDefect(defect(&[], ""))),
        ClientToServer::Annotate(AnnotationEvent::Delete(0)),
        ClientToServer::Annotate(AnnotationEvent::Delete(251)),
        ClientToServer::Annotate(AnnotationEvent::Delete(usize::MAX)),
        ClientToServer::Annotate(AnnotationEvent::EditDefect(
            usize::MAX,
            defect(&[(1.0, 1.0)], "crack"),
        )),
        ClientToServer::Annotate(AnnotationEvent::EditDefect(70_000, defect(&[], "split"))),
    ]
}

fn replies() -> Vec<ServerToClient> {
    vec![
        ServerToClient::FolderContents(vec![]),
        ServerToClient::FolderContents(vec![
            FaceKey { prefix: "a".to_string(), is_narrow: false },
            FaceKey { prefix: "c".to_string(), is_narrow: true },
        ]),
        ServerToClient::InitialLoad(
            FaceKey { prefix: "a".to_string(), is_narrow: false },
            ImageData { width: 2, height: 1, rgb: vec![1, 2, 3, 4, 5, 6] },
            AnnotationData { polygons: vec![] },
        ),
        ServerToClient::InitialLoad(
            FaceKey { prefix: String::new(), is_narrow: true },
            ImageData { width: 0, height: 0, rgb: vec![] },
            AnnotationData { polygons: vec![defect(&[(1.0, 2.0)], "x")] },
        ),
        ServerToClient::ServerUpdated(AnnotationData { polygons: vec![] }),
        ServerToClient::ServerUpdated(AnnotationData {
            polygons: vec![
                defect(&[(0.0, 0.0), (1.0, 0.0), (1.0, 1.0), (0.0, 1.0)], "some class idk"),
                defect(&[], ""),
            ],
        }),
    ]
}

#[test]
fn request_round_trip() {
    for m in requests() {
        let bytes = m.serialize();
        let back = ClientToServer::deserialize(&bytes).expect("decodes");
        assert!(same_request(&m, &back));
    }
}

#[test]
fn reply_round_trip() {
    for m in replies() {
        let bytes = m.serialize();
        let back = ServerToClient::deserialize(&bytes).expect("decodes");
        assert!(same_reply(&m, &back));
    }
}

#[test]
fn load_folder_bytes() {
    let m = ClientToServer::LoadFolder("ab".to_string());
    assert_eq!(m.serialize(), vec![0, 2, b'a', b'b']);
}

#[test]
fn multibyte_string_bytes() {
    let m = ClientToServer::LoadFolder("é".to_string());
    assert_eq!(m.serialize(), vec![0, 2, 0xc3, 0xa9]);
}

#[test]
fn click_bytes() {
    let m = ClientToServer::Annotate(AnnotationEvent::Sam(SamEvent::Click(pt(1.0, 2.0), true)));
    assert_eq!(m.serialize(), vec![2, 0, 0, 0, 0, 0x80, 0x3f, 0, 0, 0, 0x40, 1]);
}

#[test]
fn varint_boundaries() {
    let cases: Vec<(u64, Vec<u8>)> = vec![
        (0, vec![0]),
        (250, vec![250]),
        (251, vec![251, 251, 0]),
        (65535, vec![251, 255, 255]),
        (65536, vec![252, 0, 0, 1, 0]),
        (4_294_967_296, vec![253, 0, 0, 0, 0, 1, 0, 0, 0]),
        (u64::MAX, vec![253, 255, 255, 255, 255, 255, 255, 255, 255]),
    ];
    for (v, expected) in cases {
        let mut out = vec![];
        push_varint(&mut out, v);
        assert_eq!(out, expected);
        assert_eq!(read_varint(&out, 0), Some((v, expected.len())));
    }
}

#[test]
fn non_canonical_varint_refused() {
    assert_eq!(read_varint(&[251, 5, 0], 0), None);
    assert_eq!(read_varint(&[252, 0, 1, 0, 0], 0), None);
    assert_eq!(read_varint(&[254, 0], 0), None);
    assert!(ClientToServer::deserialize(&[2, 2, 251, 5, 0]).is_err());
}

#[test]
fn delete_bytes() {
    let m = ClientToServer::Annotate(AnnotationEvent::Delete(300));
    assert_eq!(m.serialize(), vec![2, 2, 251, 0x2c, 0x01]);
}

#[test]
fn folder_contents_bytes() {
    let m = ServerToClient::FolderContents(vec![FaceKey { prefix: "a".to_string(), is_narrow: true }]);
    assert_eq!(m.serialize(), vec![0, 1, 1, b'a', 1]);
}

#[test]
fn truncated_requests_fail() {
    for m in requests() {
        let bytes = m.serialize();
        for n in 0..bytes.len() {
            assert_eq!(ClientToServer::deserialize(&bytes[..n]).err(), Some(DecodeError));
        }
    }
}

#[test]
fn truncated_replies_fail() {
    for m in replies() {
        let bytes = m.serialize();
        for n in 0..bytes.len() {
            assert!(ServerToClient::deserialize(&bytes[..n]).is_err());
        }
    }
}

#[test]
fn trailing_bytes_fail() {
    let mut bytes = ClientToServer::Annotate(AnnotationEvent::Delete(3)).serialize();
    bytes.push(0);
    assert!(ClientToServer::deserialize(&bytes).is_err());
}

#[test]
fn unknown_tags_fail() {
    assert!(ClientToServer::deserialize(&[3]).is_err());
    assert!(ClientToServer::deserialize(&[2, 4, 0]).is_err());
    assert!(ClientToServer::deserialize(&[2, 0, 2]).is_err());
    assert!(ServerToClient::deserialize(&[3, 0]).is_err());
}

#[test]
fn invalid_bool_fails() {
    assert!(ClientToServer::deserialize(&[1, 1, b'a', 2]).is_err());
    assert!(ClientToServer::deserialize(&[1, 1, b'a', 1]).is_ok());
}

#[test]
fn invalid_utf8_fails() {
    assert!(ClientToServer::deserialize(&[0, 2, 0xc3, 0x28]).is_err());
    assert!(ClientToServer::deserialize(&[0, 1, 0xff]).is_err());
}

#[test]
fn length_past_end_fails() {
    assert!(ClientToServer::deserialize(&[0, 5, b'a', b'b']).is_err());
    assert!(ServerToClient::deserialize(&[2, 3, 0, 0]).is_err());
}

#[test]
fn image_size_mismatch_fails() {
    let m = ServerToClient::InitialLoad(
        FaceKey { prefix: "a".to_string(), is_narrow: false },
        ImageData { width: 2, height: 2, rgb: vec![0; 5] },
        AnnotationData { polygons: vec![] },
    );
    assert!(ServerToClient::deserialize(&m.serialize()).is_err());
}

#[test]
fn corrupted_bytes_never_panic() {
    for m in requests() {
        let bytes = m.serialize();
        for i in 0..bytes.len() {
            for v in [0u8, 1, 2, 3, 250, 251, 252, 253, 255] {
                let mut b = bytes.clone();
                b[i] = v;
                let _ = ClientToServer::deserialize(&b);
            }
        }
    }
}

#[test]
fn image_well_formed() {
    assert!(ImageData { width: 2, height: 3, rgb: vec![0; 18] }.is_well_formed());
    assert!(!ImageData { width: 2, height: 3, rgb: vec![0; 17] }.is_well_formed());
    assert!(!ImageData { width: u32::MAX, height: u32::MAX, rgb: vec![] }.is_well_formed());
}

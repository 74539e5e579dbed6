//! The values exchanged between client and server, and their models.
use vstd::prelude::*;

verus! {

/// A point in image-pixel coordinates. Each coordinate is held as the bit
/// pattern of an IEEE-754 single-precision number.
#[derive(Clone, Copy, Debug, PartialEq, Eq, Structural)]
pub struct Point {
    pub x_bits: u32,
    pub y_bits: u32,
}

/// An RGB image sent over the wire: row-major, three bytes per pixel.
pub struct ImageData {
    pub width: u32,
    pub height: u32,
    pub rgb: Vec<u8>,
}

/// One annotated defect: a polygon and a class label.
pub struct Defect {
    pub polygon: Vec<Point>,
    pub class: String,
}

/// The annotation set of one loaded face.
pub struct AnnotationData {
    pub polygons: Vec<Defect>,
}

/// Refers to a specific face of a board.
pub struct FaceKey {
    /// Prefix to the file name.
    pub prefix: String,
    /// Whether this face is narrow or wide.
    pub is_narrow: bool,
}

/// A prompt for the segmentation backend.
#[derive(Clone, Copy, Debug, PartialEq, Eq, Structural)]
pub enum SamEvent {
    /// True if positive click, false if negative click.
    Click(Point, bool),
    /// The user used the bounding box tool.
    BoundingBox(Point, Point),
}

/// An edit of the annotation set.
pub enum AnnotationEvent {
    Sam(SamEvent),
    NewDefect(Defect),
    Delete(usize),
    EditDefect(usize, Defect),
}

/// Protocol messages sent from client to server.
pub enum ClientToServer {
    /// Set the folder for the current session.
    LoadFolder(String),
    /// Load the face with the given key from the selected folder.
    LoadKey(FaceKey),
    /// Annotation events.
    Annotate(AnnotationEvent),
}

/// Protocol messages sent from server to client.
pub enum ServerToClient {
    /// Returned contents of a folder.
    FolderContents(Vec<FaceKey>),
    /// Image and annotations of a freshly loaded face.
    InitialLoad(FaceKey, ImageData, AnnotationData),
    /// The annotation set after an annotation event.
    ServerUpdated(AnnotationData),
}

pub ghost struct FaceKeyModel {
    pub prefix: Seq<char>,
    pub is_narrow: bool,
}

pub ghost struct DefectModel {
    pub polygon: Seq<Point>,
    pub class: Seq<char>,
}

pub ghost struct ImageModel {
    pub width: u32,
    pub height: u32,
    pub rgb: Seq<u8>,
}

pub ghost enum EventModel {
    Sam(SamEvent),
    NewDefect(DefectModel),
    Delete(usize),
    EditDefect(usize, DefectModel),
}

pub ghost enum RequestModel {
    LoadFolder(Seq<char>),
    LoadKey(FaceKeyModel),
    Annotate(EventModel),
}

pub ghost enum ReplyModel {
    FolderContents(Seq<FaceKeyModel>),
    InitialLoad(FaceKeyModel, ImageModel, Seq<DefectModel>),
    ServerUpdated(Seq<DefectModel>),
}

impl View for FaceKey {
    type V = FaceKeyModel;

    open spec fn view(&self) -> FaceKeyModel {
        FaceKeyModel { prefix: self.prefix@, is_narrow: self.is_narrow }
    }
}

impl View for Defect {
    type V = DefectModel;

    open spec fn view(&self) -> DefectModel {
        DefectModel { polygon: self.polygon@, class: self.class@ }
    }
}

impl View for AnnotationData {
    type V = Seq<DefectModel>;

    open spec fn view(&self) -> Seq<DefectModel> {
        defects_view(self.polygons@)
    }
}

impl View for ImageData {
    type V = ImageModel;

    open spec fn view(&self) -> ImageModel {
        ImageModel { width: self.width, height: self.height, rgb: self.rgb@ }
    }
}

impl View for AnnotationEvent {
    type V = EventModel;

    open spec fn view(&self) -> EventModel {
        match self {
            AnnotationEvent::Sam(e) => EventModel::Sam(*e),
            AnnotationEvent::NewDefect(d) => EventModel::NewDefect(d@),
            AnnotationEvent::Delete(i) => EventModel::Delete(*i),
            AnnotationEvent::EditDefect(i, d) => EventModel::EditDefect(*i, d@),
        }
    }
}

impl View for ClientToServer {
    type V = RequestModel;

    open spec fn view(&self) -> RequestModel {
        match self {
            ClientToServer::LoadFolder(p) => RequestModel::LoadFolder(p@),
            ClientToServer::LoadKey(k) => RequestModel::LoadKey(k@),
            ClientToServer::Annotate(e) => RequestModel::Annotate(e@),
        }
    }
}

/// The models of a sequence of defects.
pub open spec fn defects_view(v: Seq<Defect>) -> Seq<DefectModel> {
    v.map_values(|d: Defect| d@)
}

/// The models of a sequence of face keys.
pub open spec fn keys_view(keys: Seq<FaceKey>) -> Seq<FaceKeyModel> {
    keys.map_values(|k: FaceKey| k@)
}

impl View for ServerToClient {
    type V = ReplyModel;

    open spec fn view(&self) -> ReplyModel {
        match self {
            ServerToClient::FolderContents(ks) => ReplyModel::FolderContents(keys_view(ks@)),
            ServerToClient::InitialLoad(k, i, a) => ReplyModel::InitialLoad(k@, i@, a@),
            ServerToClient::ServerUpdated(a) => ReplyModel::ServerUpdated(a@),
        }
    }
}

impl ImageModel {
    /// The pixel buffer holds exactly three bytes for each pixel.
    pub open spec fn wf(self) -> bool {
        self.rgb.len() == self.width as int * self.height as int * 3
    }
}

impl ImageData {
    /// Checks that the pixel buffer holds exactly three bytes for each pixel.
    pub fn is_well_formed(&self) -> (r: bool)
        ensures
            r == self@.wf(),
    {
        let w = self.width as u64;
        let h = self.height as u64;
        assert(w * h <= 0xffff_ffffu64 * 0xffff_ffffu64) by (nonlinear_arith)
            requires
                w <= 0xffff_ffffu64,
                h <= 0xffff_ffffu64,
        ;
        let n: u64 = w * h;
        assert(self@.wf() <==> self.rgb@.len() == n as int * 3);
        let len = self.rgb.len();
        len % 3 == 0 && (len / 3) as u64 == n
    }
}

/// A copy of a face key.
pub fn copy_key(k: &FaceKey) -> (r: FaceKey)
    ensures
        r@ == k@,
{
    FaceKey { prefix: k.prefix.clone(), is_narrow: k.is_narrow }
}

/// A copy of a polygon.
pub fn copy_points(v: &Vec<Point>) -> (r: Vec<Point>)
    ensures
        r@ == v@,
{
    let mut r: Vec<Point> = Vec::new();
    let mut i: usize = 0;
    while i < v.len()
        invariant
            i <= v.len(),
            r@ == v@.subrange(0, i as int),
        decreases v.len() - i,
    {
        r.push(v[i]);
        i += 1;
    }
    assert(r@ =~= v@);
    r
}

/// A copy of a defect.
pub fn copy_defect(d: &Defect) -> (r: Defect)
    ensures
        r@ == d@,
{
    Defect { polygon: copy_points(&d.polygon), class: d.class.clone() }
}

/// A copy of an annotation set.
pub fn copy_annotations(a: &AnnotationData) -> (r: AnnotationData)
    ensures
        r@ == a@,
{
    let mut out: Vec<Defect> = Vec::new();
    let mut i: usize = 0;
    while i < a.polygons.len()
        invariant
            i <= a.polygons.len(),
            out@.len() == i,
            forall|j: int| 0 <= j < i ==> (#[trigger] out@[j])@ == a.polygons@[j]@,
        decreases a.polygons.len() - i,
    {
        let d = copy_defect(&a.polygons[i]);
        out.push(d);
        i += 1;
    }
    let r = AnnotationData { polygons: out };
    assert(r@ =~= a@);
    r
}

} // verus!

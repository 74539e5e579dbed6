//! The server side of a connection: which folder is selected, which face is
//! loaded, and its annotation set. Work that needs the filesystem or the
//! segmentation backend is handed out as a `Work` item; its outcome comes back
//! through the method that the item names (`folder_listed`, `image_loaded`,
//! `image_encoded`, `segmented`), which decides the reply.
use vstd::prelude::*;
use vstd::string::StringExecFns;
use crate::types::{
    AnnotationData, AnnotationEvent, ClientToServer, Defect, DefectModel, EventModel, FaceKey,
    FaceKeyModel, ImageData, ImageModel, Point, ReplyModel, RequestModel, SamEvent,
    ServerToClient, copy_annotations, copy_key, keys_view,
};

verus! {

/// The file-name ending of a face image.
pub open spec fn face_suffix() -> Seq<char> {
    seq!['.', 't', 'i', 'f', 'f']
}

/// Whether `s` ends with `suf`.
pub open spec fn ends_with(s: Seq<char>, suf: Seq<char>) -> bool {
    suf.len() <= s.len() && s.subrange(s.len() - suf.len(), s.len() as int) == suf
}

/// The face keys of a directory listing, in listing order: the entries whose
/// name ends with the face suffix, with that suffix stripped. `None` stands for
/// an entry that could not be read or whose name is not valid text.
pub open spec fn listing_keys(names: Seq<Option<Seq<char>>>, narrow: bool) -> Seq<FaceKeyModel>
    decreases names.len(),
{
    if names.len() == 0 {
        Seq::empty()
    } else {
        let rest = listing_keys(names.drop_last(), narrow);
        match names.last() {
            Some(n) => if ends_with(n, face_suffix()) {
                rest.push(
                    FaceKeyModel { prefix: n.subrange(0, n.len() - face_suffix().len()), is_narrow: narrow },
                )
            } else {
                rest
            },
            None => rest,
        }
    }
}

/// The label given to a defect found by the segmentation backend.
pub open spec fn placeholder_class() -> Seq<char> {
    seq!['s', 'o', 'm', 'e', ' ', 'c', 'l', 'a', 's', 's', ' ', 'i', 'd', 'k']
}

/// Relies on str::strip_suffix: the part before `suffix`, exactly when `s`
/// ends with it.
#[verifier::external_body]
fn strip_suffix(s: &str, suffix: &str) -> (r: Option<String>)
    ensures
        r is Some <==> ends_with(s@, suffix@),
        r matches Some(p) ==> p@ + suffix@ == s@,
{
    s.strip_suffix(suffix).map(|p| p.to_string())
}

/// The face image of one board face and its annotation set.
pub struct BoardFaceSession<F> {
    /// The segmentation backend's encoding of the image.
    pub xs: F,
    pub ann: AnnotationData,
}

impl<F> BoardFaceSession<F> {
    pub fn new(ann: AnnotationData, xs: F) -> (r: Self)
        ensures
            r.xs == xs,
            r.ann@ == ann@,
    {
        BoardFaceSession { xs, ann }
    }
}

/// The phase of a server session.
pub enum ServerState<F> {
    NoFolder,
    FolderSelected { folder: String, listing: Vec<FaceKey> },
    FaceLoaded { folder: String, listing: Vec<FaceKey>, key: FaceKey, face: BoardFaceSession<F> },
}

pub ghost enum StateModel<F> {
    NoFolder,
    FolderSelected { folder: Seq<char>, listing: Seq<FaceKeyModel> },
    FaceLoaded {
        folder: Seq<char>,
        listing: Seq<FaceKeyModel>,
        key: FaceKeyModel,
        features: F,
        annotations: Seq<DefectModel>,
    },
}

impl<F> View for ServerState<F> {
    type V = StateModel<F>;

    open spec fn view(&self) -> StateModel<F> {
        match self {
            ServerState::NoFolder => StateModel::NoFolder,
            ServerState::FolderSelected { folder, listing } => StateModel::FolderSelected {
                folder: folder@,
                listing: keys_view(listing@),
            },
            ServerState::FaceLoaded { folder, listing, key, face } => StateModel::FaceLoaded {
                folder: folder@,
                listing: keys_view(listing@),
                key: key@,
                features: face.xs,
                annotations: face.ann@,
            },
        }
    }
}

/// Outside work that a request needs before it can be answered.
pub enum Work {
    /// List the entries of a directory, then call `folder_listed`.
    ListFolder(String),
    /// Load the image `file_name` of directory `folder`, then call `image_loaded`.
    LoadImage { key: FaceKey, folder: String, file_name: String },
    /// Encode a loaded image with the segmentation backend, then call `image_encoded`.
    EncodeImage { key: FaceKey, image: ImageData },
    /// Run the segmentation backend on the cached features with one point
    /// prompt, then call `segmented`.
    Segment { point: Point, is_positive: bool },
}

pub ghost enum WorkModel {
    ListFolder(Seq<char>),
    LoadImage { key: FaceKeyModel, folder: Seq<char>, file_name: Seq<char> },
    EncodeImage { key: FaceKeyModel, image: ImageModel },
    Segment { point: Point, is_positive: bool },
}

impl View for Work {
    type V = WorkModel;

    open spec fn view(&self) -> WorkModel {
        match self {
            Work::ListFolder(p) => WorkModel::ListFolder(p@),
            Work::LoadImage { key, folder, file_name } => WorkModel::LoadImage {
                key: key@,
                folder: folder@,
                file_name: file_name@,
            },
            Work::EncodeImage { key, image } => WorkModel::EncodeImage { key: key@, image: image@ },
            Work::Segment { point, is_positive } => WorkModel::Segment {
                point: *point,
                is_positive: *is_positive,
            },
        }
    }
}

/// What the transport does after a request or a completed piece of work.
pub enum Step {
    /// Send this message to the client.
    Reply(ServerToClient),
    /// Send nothing.
    NoReply,
    /// Perform this work and report its outcome.
    Perform(Work),
}

pub ghost enum StepModel {
    Reply(ReplyModel),
    NoReply,
    Perform(WorkModel),
}

impl View for Step {
    type V = StepModel;

    open spec fn view(&self) -> StepModel {
        match self {
            Step::Reply(m) => StepModel::Reply(m@),
            Step::NoReply => StepModel::NoReply,
            Step::Perform(w) => StepModel::Perform(w@),
        }
    }
}

/// The selected folder of a state, if any.
pub open spec fn folder_of<F>(s: StateModel<F>) -> Option<Seq<char>> {
    match s {
        StateModel::NoFolder => None,
        StateModel::FolderSelected { folder, .. } => Some(folder),
        StateModel::FaceLoaded { folder, .. } => Some(folder),
    }
}

/// The cached folder listing of a state (empty when no folder is selected).
pub open spec fn listing_of<F>(s: StateModel<F>) -> Seq<FaceKeyModel> {
    match s {
        StateModel::NoFolder => Seq::empty(),
        StateModel::FolderSelected { listing, .. } => listing,
        StateModel::FaceLoaded { listing, .. } => listing,
    }
}

/// The state with its annotation set replaced (only meaningful with a face loaded).
pub open spec fn with_annotations<F>(s: StateModel<F>, a: Seq<DefectModel>) -> StateModel<F> {
    match s {
        StateModel::FaceLoaded { folder, listing, key, features, .. } => StateModel::FaceLoaded {
            folder,
            listing,
            key,
            features,
            annotations: a,
        },
        _ => s,
    }
}

/// The annotation set after applying an edit, or `None` when the edit does
/// not change the set directly (a segmentation prompt) or names a position
/// past its end.
pub open spec fn apply_edit(a: Seq<DefectModel>, e: EventModel) -> Option<Seq<DefectModel>> {
    match e {
        EventModel::Sam(_) => None,
        EventModel::NewDefect(d) => Some(a.push(d)),
        EventModel::Delete(i) => if i < a.len() {
            Some(a.remove(i as int))
        } else {
            None
        },
        EventModel::EditDefect(i, d) => if i < a.len() {
            Some(a.update(i as int, d))
        } else {
            None
        },
    }
}

/// The effect of a request: the next state and the step.
pub open spec fn request_step<F>(s: StateModel<F>, m: RequestModel) -> (StateModel<F>, StepModel) {
    match m {
        RequestModel::LoadFolder(p) => (s, StepModel::Perform(WorkModel::ListFolder(p))),
        RequestModel::LoadKey(k) => match folder_of(s) {
            Some(folder) => (
                s,
                StepModel::Perform(
                    WorkModel::LoadImage { key: k, folder, file_name: k.prefix + face_suffix() },
                ),
            ),
            None => (s, StepModel::NoReply),
        },
        RequestModel::Annotate(e) => match s {
            StateModel::FaceLoaded { annotations, .. } => match e {
                EventModel::Sam(SamEvent::Click(point, is_positive)) => (
                    s,
                    StepModel::Perform(WorkModel::Segment { point, is_positive }),
                ),
                _ => match apply_edit(annotations, e) {
                    Some(a) => (with_annotations(s, a), StepModel::Reply(ReplyModel::ServerUpdated(a))),
                    None => (s, StepModel::NoReply),
                },
            },
            _ => (s, StepModel::NoReply),
        },
    }
}

/// The models of the entries of a directory listing.
pub open spec fn entries_view(v: Seq<Option<String>>) -> Seq<Option<Seq<char>>> {
    v.map_values(|o: Option<String>| match o {
        Some(n) => Some(n@),
        None => None,
    })
}

/// The state after a directory listing: the folder is selected, with the
/// face keys of the listing, or none when it could not be listed.
pub open spec fn listed_state<F>(
    folder: Seq<char>,
    names: Option<Seq<Option<Seq<char>>>>,
    narrow: bool,
) -> StateModel<F> {
    StateModel::FolderSelected {
        folder,
        listing: match names {
            Some(n) => listing_keys(n, narrow),
            None => Seq::empty(),
        },
    }
}

/// The effect of a loaded image: it goes on to the segmentation backend when
/// it is present and well formed.
pub open spec fn loaded_step(key: FaceKeyModel, image: Option<ImageModel>) -> StepModel {
    match image {
        Some(i) => if i.wf() {
            StepModel::Perform(WorkModel::EncodeImage { key, image: i })
        } else {
            StepModel::NoReply
        },
        None => StepModel::NoReply,
    }
}

/// The effect of an encoded image: with features and a selected folder the
/// face becomes the loaded one, with an empty annotation set; otherwise
/// nothing changes.
pub open spec fn encoded_step<F>(
    s: StateModel<F>,
    key: FaceKeyModel,
    image: ImageModel,
    features: Option<F>,
) -> (StateModel<F>, Option<ReplyModel>) {
    match (features, folder_of(s)) {
        (Some(f), Some(folder)) => (
            StateModel::FaceLoaded {
                folder,
                listing: listing_of(s),
                key,
                features: f,
                annotations: Seq::empty(),
            },
            Some(ReplyModel::InitialLoad(key, image, Seq::empty())),
        ),
        _ => (s, None),
    }
}

/// The effect of a segmentation result: its polygon becomes a new defect of
/// the loaded face.
pub open spec fn segmented_step<F>(s: StateModel<F>, polygon: Option<Seq<Point>>) -> (
    StateModel<F>,
    Option<ReplyModel>,
) {
    match (s, polygon) {
        (StateModel::FaceLoaded { annotations, .. }, Some(p)) => {
            let a = annotations.push(DefectModel { polygon: p, class: placeholder_class() });
            (with_annotations(s, a), Some(ReplyModel::ServerUpdated(a)))
        },
        _ => (s, None),
    }
}

/// The face keys of a directory listing.
pub fn face_keys(entries: &Vec<Option<String>>, narrow: bool) -> (r: Vec<FaceKey>)
    ensures
        keys_view(r@) == listing_keys(entries_view(entries@), narrow),
{
    let suffix = ".tiff";
    proof {
        reveal_strlit(".tiff");
    }
    assert(suffix@ =~= face_suffix());
    let mut out: Vec<FaceKey> = Vec::new();
    let mut i: usize = 0;
    while i < entries.len()
        invariant
            i <= entries.len(),
            suffix@ == face_suffix(),
            keys_view(out@) =~= listing_keys(entries_view(entries@).subrange(0, i as int), narrow),
        decreases entries.len() - i,
    {
        let ghost names = entries_view(entries@).subrange(0, i + 1);
        assert(names.drop_last() =~= entries_view(entries@).subrange(0, i as int));
        match &entries[i] {
            Some(name) => {
                match strip_suffix(name.as_str(), suffix) {
                    Some(prefix) => {
                        assert(prefix@ =~= name@.subrange(0, name@.len() - 5));
                        out.push(FaceKey { prefix, is_narrow: narrow });
                    },
                    None => {},
                }
            },
            None => {},
        }
        assert(keys_view(out@) =~= listing_keys(names, narrow));
        i += 1;
    }
    assert(entries_view(entries@).subrange(0, i as int) =~= entries_view(entries@));
    out
}

/// A new defect holding a polygon found by the segmentation backend.
pub fn polygon_to_defect(polygon: Vec<Point>) -> (r: Defect)
    ensures
        r@ == (DefectModel { polygon: polygon@, class: placeholder_class() }),
{
    let class = "some class idk";
    proof {
        reveal_strlit("some class idk");
    }
    let r = Defect { polygon, class: class.to_owned() };
    assert(r.class@ =~= placeholder_class());
    r
}

/// The face keys of a listing are those of its entries, one entry at a time
/// and in listing order: an entry named `p` followed by the face suffix gives
/// the key `p` with the session's narrow flag, and any other entry gives none.
pub proof fn lemma_listing_keys_concat(a: Seq<Option<Seq<char>>>, b: Seq<Option<Seq<char>>>, narrow: bool)
    ensures
        listing_keys(a + b, narrow) == listing_keys(a, narrow) + listing_keys(b, narrow),
    decreases b.len(),
{
    if b.len() == 0 {
        assert(a + b =~= a);
        assert(listing_keys(a, narrow) + listing_keys(b, narrow) =~= listing_keys(a, narrow));
    } else {
        assert((a + b).drop_last() =~= a + b.drop_last());
        lemma_listing_keys_concat(a, b.drop_last(), narrow);
        assert((a + b).last() == b.last());
        match b.last() {
            Some(n) => if ends_with(n, face_suffix()) {
                assert(listing_keys(a, narrow) + listing_keys(b, narrow) =~= (listing_keys(a, narrow)
                    + listing_keys(b.drop_last(), narrow)).push(
                    FaceKeyModel { prefix: n.subrange(0, n.len() - face_suffix().len()), is_narrow: narrow },
                ));
            },
            None => {},
        }
    }
}

/// What one directory entry contributes to a folder listing.
pub proof fn lemma_listing_keys_single(e: Option<Seq<char>>, narrow: bool)
    ensures
        listing_keys(seq![e], narrow) == match e {
            Some(n) => if ends_with(n, face_suffix()) {
                seq![FaceKeyModel { prefix: n.subrange(0, n.len() - face_suffix().len()), is_narrow: narrow }]
            } else {
                Seq::empty()
            },
            None => Seq::empty(),
        },
{
    assert(seq![e].drop_last() =~= Seq::<Option<Seq<char>>>::empty());
    assert(listing_keys(Seq::<Option<Seq<char>>>::empty(), narrow) =~= Seq::empty());
    match e {
        Some(n) => if ends_with(n, face_suffix()) {
            assert(Seq::<FaceKeyModel>::empty().push(
                FaceKeyModel { prefix: n.subrange(0, n.len() - face_suffix().len()), is_narrow: narrow },
            ) =~= seq![FaceKeyModel { prefix: n.subrange(0, n.len() - face_suffix().len()), is_narrow: narrow }]);
        },
        None => {},
    }
}

/// An annotation request while no face is loaded yields no reply and leaves
/// the state as it was.
pub proof fn lemma_annotate_needs_face<F>(s: StateModel<F>, e: EventModel)
    requires
        !(s is FaceLoaded),
    ensures
        request_step(s, RequestModel::Annotate(e)) == (s, StepModel::NoReply),
{
}

/// Loading a face discards the annotations of the face loaded before: the
/// new face starts with no defects, whatever the old one held.
pub proof fn lemma_reload_resets_annotations<F>(
    s: StateModel<F>,
    key: FaceKeyModel,
    image: ImageModel,
    features: F,
)
    requires
        s is FaceLoaded,
    ensures
        encoded_step(s, key, image, Some(features)).0 matches StateModel::FaceLoaded {
            key: k,
            annotations,
            ..
        } && k == key && annotations.len() == 0,
        encoded_step(s, key, image, Some(features)).1 == Some(
            ReplyModel::InitialLoad(key, image, Seq::empty()),
        ),
{
}

/// After a face is reloaded, the next new defect forms the whole annotation
/// set: the old face's defects are discarded, not merged, and the cached
/// features are those of the new face.
pub proof fn lemma_reload_then_new_defect<F>(
    s: StateModel<F>,
    key: FaceKeyModel,
    image: ImageModel,
    features: F,
    d: DefectModel,
)
    requires
        s is FaceLoaded,
    ensures
        request_step(
            encoded_step(s, key, image, Some(features)).0,
            RequestModel::Annotate(EventModel::NewDefect(d)),
        ).1 == StepModel::Reply(ReplyModel::ServerUpdated(seq![d])),
        request_step(
            encoded_step(s, key, image, Some(features)).0,
            RequestModel::Annotate(EventModel::NewDefect(d)),
        ).0 matches StateModel::FaceLoaded { features: f, annotations, .. } && f == features
            && annotations == seq![d],
{
    assert(Seq::<DefectModel>::empty().push(d) =~= seq![d]);
}

/// A deletion or an edit at a position past the end of the annotation set
/// changes nothing and yields no reply.
pub proof fn lemma_edit_out_of_range<F>(s: StateModel<F>, i: usize, d: DefectModel)
    requires
        s matches StateModel::FaceLoaded { annotations, .. } && i >= annotations.len(),
    ensures
        request_step(s, RequestModel::Annotate(EventModel::Delete(i))) == (s, StepModel::NoReply),
        request_step(s, RequestModel::Annotate(EventModel::EditDefect(i, d))) == (
            s,
            StepModel::NoReply,
        ),
{
}

/// A segmentation result on a loaded face appends exactly one defect, which
/// holds the found polygon, and echoes the whole set.
pub proof fn lemma_click_appends_defect<F>(s: StateModel<F>, p: Seq<Point>)
    requires
        s is FaceLoaded,
    ensures
        segmented_step(s, Some(p)).0 matches StateModel::FaceLoaded { annotations, .. } && (
        annotations.len() == s->annotations.len() + 1 && annotations.last() == (DefectModel {
            polygon: p,
            class: placeholder_class(),
        })),
        segmented_step(s, Some(p)).1 == Some(
            ReplyModel::ServerUpdated(segmented_step(s, Some(p)).0->annotations),
        ),
{
}

/// The value of a collaborator's result, or `None` when it failed; the
/// failure itself is reported by the caller.
pub fn ok_or_log_error<T, E>(r: Result<T, E>) -> (o: Option<T>)
    ensures
        match r {
            Ok(v) => o == Some(v),
            Err(_) => o is None,
        },
{
    match r {
        Ok(v) => Some(v),
        Err(_) => None,
    }
}

/// The session of one connected client.
pub struct ClientSession<F> {
    pub state: ServerState<F>,
    /// The narrow flag given to every face key of a folder listing.
    pub default_narrow: bool,
}

impl<F> ClientSession<F> {
    /// A session with no folder selected.
    pub fn new(default_narrow: bool) -> (r: Self)
        ensures
            r.state@ == StateModel::<F>::NoFolder,
            r.default_narrow == default_narrow,
    {
        ClientSession { state: ServerState::NoFolder, default_narrow }
    }

    /// Validates and applies one request. Annotation requests are dropped
    /// with no reply while no face is loaded, and so are deletions and edits
    /// at a position past the end of the annotation set.
    pub fn handle_response(&mut self, msg: ClientToServer) -> (r: Step)
        ensures
            (final(self).state@, r@) == request_step(old(self).state@, msg@),
            final(self).default_narrow == old(self).default_narrow,
    {
        let ghost s0 = self.state@;
        let mut st = ServerState::NoFolder;
        core::mem::swap(&mut self.state, &mut st);
        match msg {
            ClientToServer::LoadFolder(p) => {
                self.state = st;
                Step::Perform(Work::ListFolder(p))
            },
            ClientToServer::LoadKey(key) => {
                let folder = match &st {
                    ServerState::NoFolder => None,
                    ServerState::FolderSelected { folder, .. } => Some(folder.clone()),
                    ServerState::FaceLoaded { folder, .. } => Some(folder.clone()),
                };
                self.state = st;
                match folder {
                    Some(folder) => {
                        let mut file_name = key.prefix.clone();
                        let suffix = ".tiff";
                        proof {
                            reveal_strlit(".tiff");
                        }
                        file_name.append(suffix);
                        assert(file_name@ =~= key.prefix@ + face_suffix());
                        Step::Perform(Work::LoadImage { key, folder, file_name })
                    },
                    None => Step::NoReply,
                }
            },
            ClientToServer::Annotate(e) => {
                match st {
                    ServerState::FaceLoaded { folder, listing, key, face } => {
                        let mut ann = face.ann;
                        let xs = face.xs;
                        let ghost a0 = ann@;
                        let step = match e {
                            AnnotationEvent::Sam(SamEvent::Click(point, is_positive)) => {
                                Step::Perform(Work::Segment { point, is_positive })
                            },
                            AnnotationEvent::Sam(SamEvent::BoundingBox(_, _)) => Step::NoReply,
                            AnnotationEvent::NewDefect(d) => {
                                ann.polygons.push(d);
                                assert(ann@ =~= a0.push(d@));
                                Step::Reply(ServerToClient::ServerUpdated(copy_annotations(&ann)))
                            },
                            AnnotationEvent::Delete(i) => {
                                if i < ann.polygons.len() {
                                    let _gone = ann.polygons.remove(i);
                                    assert(ann@ =~= a0.remove(i as int));
                                    Step::Reply(
                                        ServerToClient::ServerUpdated(copy_annotations(&ann)),
                                    )
                                } else {
                                    Step::NoReply
                                }
                            },
                            AnnotationEvent::EditDefect(i, d) => {
                                if i < ann.polygons.len() {
                                    let _gone = ann.polygons.remove(i);
                                    ann.polygons.insert(i, d);
                                    assert(ann@ =~= a0.update(i as int, d@));
                                    Step::Reply(
                                        ServerToClient::ServerUpdated(copy_annotations(&ann)),
                                    )
                                } else {
                                    Step::NoReply
                                }
                            },
                        };
                        self.state = ServerState::FaceLoaded {
                            folder,
                            listing,
                            key,
                            face: BoardFaceSession { xs, ann },
                        };
                        step
                    },
                    other => {
                        self.state = other;
                        Step::NoReply
                    },
                }
            },
        }
    }

    /// Completes a `ListFolder` work item: `entries` is the directory's
    /// listing in enumeration order, or `None` when it could not be read.
    pub fn folder_listed(&mut self, folder: String, entries: Option<Vec<Option<String>>>) -> (r:
        Option<ServerToClient>)
        ensures
            final(self).state@ == listed_state::<F>(
                folder@,
                match entries {
                    Some(v) => Some(entries_view(v@)),
                    None => None,
                },
                old(self).default_narrow,
            ),
            final(self).default_narrow == old(self).default_narrow,
            match entries {
                Some(v) => r matches Some(m) && m@ == ReplyModel::FolderContents(
                    listing_keys(entries_view(v@), old(self).default_narrow),
                ),
                None => r is None,
            },
    {
        match entries {
            Some(v) => {
                let keys = face_keys(&v, self.default_narrow);
                let mut copy: Vec<FaceKey> = Vec::new();
                let mut i: usize = 0;
                while i < keys.len()
                    invariant
                        i <= keys.len(),
                        copy@.len() == i,
                        forall|j: int| 0 <= j < i ==> (#[trigger] copy@[j])@ == keys@[j]@,
                    decreases keys.len() - i,
                {
                    copy.push(copy_key(&keys[i]));
                    i += 1;
                }
                assert(keys_view(copy@) =~= keys_view(keys@));
                self.state = ServerState::FolderSelected { folder, listing: keys };
                Some(ServerToClient::FolderContents(copy))
            },
            None => {
                self.state = ServerState::FolderSelected { folder, listing: Vec::new() };
                assert(keys_view(Seq::<FaceKey>::empty()) =~= Seq::empty());
                None
            },
        }
    }

    /// Completes a `LoadImage` work item: `image` is the loaded image, or
    /// `None` when it could not be read or decoded.
    pub fn image_loaded(&self, key: FaceKey, image: Option<ImageData>) -> (r: Step)
        ensures
            r@ == loaded_step(
                key@,
                match image {
                    Some(i) => Some(i@),
                    None => None,
                },
            ),
    {
        match image {
            Some(i) => {
                if i.is_well_formed() {
                    Step::Perform(Work::EncodeImage { key, image: i })
                } else {
                    Step::NoReply
                }
            },
            None => Step::NoReply,
        }
    }

    /// Completes an `EncodeImage` work item: `features` is the segmentation
    /// backend's encoding of `image`, or `None` when encoding failed.
    pub fn image_encoded(&mut self, key: FaceKey, image: ImageData, features: Option<F>) -> (r:
        Option<ServerToClient>)
        ensures
            (final(self).state@, match r {
                Some(m) => Some(m@),
                None => None,
            }) == encoded_step(old(self).state@, key@, image@, features),
            final(self).default_narrow == old(self).default_narrow,
    {
        let mut st = ServerState::NoFolder;
        core::mem::swap(&mut self.state, &mut st);
        match features {
            Some(f) => match st {
                ServerState::NoFolder => {
                    self.state = ServerState::NoFolder;
                    None
                },
                ServerState::FolderSelected { folder, listing } | ServerState::FaceLoaded {
                    folder,
                    listing,
                    ..
                } => {
                    let reply_key = copy_key(&key);
                    let empty = AnnotationData { polygons: Vec::new() };
                    assert(empty@ =~= Seq::empty());
                    self.state = ServerState::FaceLoaded {
                        folder,
                        listing,
                        key,
                        face: BoardFaceSession::new(empty, f),
                    };
                    let fresh = AnnotationData { polygons: Vec::new() };
                    assert(fresh@ =~= Seq::empty());
                    Some(ServerToClient::InitialLoad(reply_key, image, fresh))
                },
            },
            None => {
                self.state = st;
                None
            },
        }
    }

    /// Completes a `Segment` work item: `polygon` is the region that the
    /// segmentation backend found, or `None` when it failed.
    pub fn segmented(&mut self, polygon: Option<Vec<Point>>) -> (r: Option<ServerToClient>)
        ensures
            (final(self).state@, match r {
                Some(m) => Some(m@),
                None => None,
            }) == segmented_step(
                old(self).state@,
                match polygon {
                    Some(p) => Some(p@),
                    None => None,
                },
            ),
            final(self).default_narrow == old(self).default_narrow,
    {
        let mut st = ServerState::NoFolder;
        core::mem::swap(&mut self.state, &mut st);
        match (st, polygon) {
            (ServerState::FaceLoaded { folder, listing, key, face }, Some(p)) => {
                let mut ann = face.ann;
                let ghost a0 = ann@;
                let d = polygon_to_defect(p);
                ann.polygons.push(d);
                assert(ann@ =~= a0.push(d@));
                let reply = copy_annotations(&ann);
                self.state = ServerState::FaceLoaded {
                    folder,
                    listing,
                    key,
                    face: BoardFaceSession { xs: face.xs, ann },
                };
                Some(ServerToClient::ServerUpdated(reply))
            },
            (other, _) => {
                self.state = other;
                None
            },
        }
    }

    /// The cached features of the loaded face, for a `Segment` work item.
    pub fn features(&self) -> (r: Option<&F>)
        ensures
            match self.state@ {
                StateModel::FaceLoaded { features, .. } => r == Some(&features),
                _ => r is None,
            },
    {
        match &self.state {
            ServerState::FaceLoaded { face, .. } => Some(&face.xs),
            _ => None,
        }
    }
}

} // verus!

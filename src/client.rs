//! The client side of a connection: the connection phase, the folder
//! listing and the replica of the loaded face's annotations. The client never
//! changes its replica on its own: it shows what the server last confirmed.
use vstd::prelude::*;
use crate::types::{
    AnnotationData, AnnotationEvent, ClientToServer, DefectModel, FaceKey, FaceKeyModel, ImageData,
    ImageModel, Point, ReplyModel, RequestModel, EventModel, SamEvent, ServerToClient, copy_key,
    keys_view,
};
use crate::wire::{DecodeError, decode_reply};

verus! {

/// The face being annotated: its key, the image, and the annotation set the
/// server last sent.
pub struct AnnotationSession {
    pub key: FaceKey,
    pub annotations: AnnotationData,
    pub image: ImageData,
}

pub ghost struct AnnotationModel {
    pub key: FaceKeyModel,
    pub annotations: Seq<DefectModel>,
    pub image: ImageModel,
}

impl View for AnnotationSession {
    type V = AnnotationModel;

    open spec fn view(&self) -> AnnotationModel {
        AnnotationModel { key: self.key@, annotations: self.annotations@, image: self.image@ }
    }
}

/// What the client shows while connected.
pub struct ClientSession {
    /// The face keys of the chosen folder, once the server has listed it.
    pub folder_contents: Option<Vec<FaceKey>>,
    pub annotation_sess: Option<AnnotationSession>,
    /// The folder path typed by the user.
    pub folder_path: String,
}

pub ghost struct ClientModel {
    pub folder_contents: Option<Seq<FaceKeyModel>>,
    pub annotation: Option<AnnotationModel>,
    pub folder_path: Seq<char>,
}

impl View for ClientSession {
    type V = ClientModel;

    open spec fn view(&self) -> ClientModel {
        ClientModel {
            folder_contents: match self.folder_contents {
                Some(v) => Some(keys_view(v@)),
                None => None,
            },
            annotation: match self.annotation_sess {
                Some(a) => Some(a@),
                None => None,
            },
            folder_path: self.folder_path@,
        }
    }
}

/// The client state after a server message.
pub open spec fn client_after(c: ClientModel, m: ReplyModel) -> ClientModel {
    match m {
        ReplyModel::FolderContents(keys) => ClientModel { folder_contents: Some(keys), ..c },
        ReplyModel::InitialLoad(key, image, annotations) => ClientModel {
            annotation: Some(AnnotationModel { key, annotations, image }),
            ..c
        },
        ReplyModel::ServerUpdated(annotations) => match c.annotation {
            Some(a) => ClientModel { annotation: Some(AnnotationModel { annotations, ..a }), ..c },
            None => c,
        },
    }
}

impl ClientSession {
    /// No folder listed, no face loaded, an empty folder path.
    pub fn new() -> (r: Self)
        ensures
            r@ == (ClientModel { folder_contents: None, annotation: None, folder_path: Seq::empty() }),
    {
        ClientSession { folder_contents: None, annotation_sess: None, folder_path: String::new() }
    }

    /// Applies a server message: a listing is stored, a loaded face replaces
    /// the active one, and an update replaces the active face's annotation
    /// set wholesale (it is ignored while no face is active).
    pub fn handle_msg(&mut self, msg: ServerToClient)
        ensures
            final(self)@ == client_after(old(self)@, msg@),
    {
        match msg {
            ServerToClient::FolderContents(keys) => {
                self.folder_contents = Some(keys);
            },
            ServerToClient::InitialLoad(key, image, annotations) => {
                self.annotation_sess = Some(AnnotationSession { key, annotations, image });
            },
            ServerToClient::ServerUpdated(ann) => {
                let mut cur = None;
                core::mem::swap(&mut self.annotation_sess, &mut cur);
                match cur {
                    Some(sess) => {
                        self.annotation_sess = Some(
                            AnnotationSession { key: sess.key, annotations: ann, image: sess.image },
                        );
                    },
                    None => {},
                }
            },
        }
    }

    /// Sets the folder path that a load request will name.
    pub fn set_folder_path(&mut self, path: String)
        ensures
            final(self)@ == (ClientModel { folder_path: path@, ..old(self)@ }),
    {
        self.folder_path = path;
    }

    /// The request to list the typed folder.
    pub fn load_folder_request(&self) -> (r: ClientToServer)
        ensures
            r@ == RequestModel::LoadFolder(self@.folder_path),
    {
        ClientToServer::LoadFolder(self.folder_path.clone())
    }

    /// The request to load the face at position `index` of the listing, if
    /// there is one.
    pub fn select_key(&self, index: usize) -> (r: Option<ClientToServer>)
        ensures
            match self@.folder_contents {
                Some(keys) => if index < keys.len() {
                    r matches Some(m) && m@ == RequestModel::LoadKey(keys[index as int])
                } else {
                    r is None
                },
                None => r is None,
            },
    {
        match &self.folder_contents {
            Some(keys) => {
                if index < keys.len() {
                    Some(ClientToServer::LoadKey(copy_key(&keys[index])))
                } else {
                    None
                }
            },
            None => None,
        }
    }

    /// The request for a positive click at `point` (image coordinates), sent
    /// only while a face is active.
    pub fn click(&self, point: Point) -> (r: Option<ClientToServer>)
        ensures
            self@.annotation is Some ==> (r matches Some(m) && m@ == RequestModel::Annotate(
                EventModel::Sam(SamEvent::Click(point, true)),
            )),
            self@.annotation is None ==> r is None,
    {
        match &self.annotation_sess {
            Some(_) => Some(ClientToServer::Annotate(AnnotationEvent::Sam(SamEvent::Click(point, true)))),
            None => None,
        }
    }

    /// Goes back to choosing a folder: the listing and the active face are
    /// dropped.
    pub fn pick_folder(&mut self)
        ensures
            final(self)@ == (ClientModel { folder_contents: None, annotation: None, ..old(self)@ }),
    {
        self.folder_contents = None;
        self.annotation_sess = None;
    }

    /// Goes back to choosing a face of the listed folder.
    pub fn pick_face(&mut self)
        ensures
            final(self)@ == (ClientModel { annotation: None, ..old(self)@ }),
    {
        self.annotation_sess = None;
    }
}

/// Why a connection ended.
pub enum ClientError {
    /// The server closed the connection.
    Closed,
    /// The transport reported an error.
    Transport(String),
    /// A message from the server could not be decoded.
    Decode(DecodeError),
}

/// An event of the transport.
pub enum SocketEvent {
    Opened,
    Closed,
    Error(String),
    /// A binary frame: one encoded server message.
    Binary(Vec<u8>),
    /// Any other frame, which is ignored.
    Other,
}

/// The connection state and client state after a transport event, or `None`
/// when the event ends the connection.
pub open spec fn socket_after(is_open: bool, c: ClientModel, event: SocketEvent) -> Option<
    (bool, ClientModel),
> {
    match event {
        SocketEvent::Opened => Some((true, c)),
        SocketEvent::Closed => None,
        SocketEvent::Error(_) => None,
        SocketEvent::Binary(b) => match decode_reply(b@) {
            Some(m) => Some((is_open, client_after(c, m))),
            None => None,
        },
        SocketEvent::Other => Some((is_open, c)),
    }
}

/// A connection to the server and the state shown through it.
pub struct SocketSession {
    pub is_open: bool,
    pub data: ClientSession,
}

impl SocketSession {
    /// A connection that has not opened yet, with a fresh client state.
    pub fn new() -> (r: Self)
        ensures
            !r.is_open,
            r.data@ == (ClientModel { folder_contents: None, annotation: None, folder_path: Seq::empty() }),
    {
        SocketSession { is_open: false, data: ClientSession::new() }
    }

    /// Applies one transport event. A close, an error, or a frame that does
    /// not decode ends the connection and leaves the client state as it was:
    /// a frame is decoded whole before anything is applied.
    pub fn receive(&mut self, event: SocketEvent) -> (r: Result<(), ClientError>)
        ensures
            match event {
                SocketEvent::Opened => r is Ok && final(self).is_open && final(self).data@ == old(
                    self,
                ).data@,
                SocketEvent::Closed => r matches Err(ClientError::Closed),
                SocketEvent::Error(e) => r matches Err(ClientError::Transport(f)) && f@ == e@,
                SocketEvent::Binary(b) => match decode_reply(b@) {
                    Some(m) => r is Ok && final(self).is_open == old(self).is_open
                        && final(self).data@ == client_after(old(self).data@, m),
                    None => r matches Err(ClientError::Decode(_)),
                },
                SocketEvent::Other => r is Ok && final(self).is_open == old(self).is_open
                    && final(self).data@ == old(self).data@,
            },
            match socket_after(old(self).is_open, old(self).data@, event) {
                Some((o, c)) => r is Ok && final(self).is_open == o && final(self).data@ == c,
                None => r is Err,
            },
            r is Err ==> final(self).is_open == old(self).is_open && final(self).data@ == old(
                self,
            ).data@,
    {
        match event {
            SocketEvent::Opened => {
                self.is_open = true;
                Ok(())
            },
            SocketEvent::Closed => Err(ClientError::Closed),
            SocketEvent::Error(e) => Err(ClientError::Transport(e)),
            SocketEvent::Binary(b) => match ServerToClient::deserialize(b.as_slice()) {
                Ok(m) => {
                    self.data.handle_msg(m);
                    Ok(())
                },
                Err(e) => Err(ClientError::Decode(e)),
            },
            SocketEvent::Other => Ok(()),
        }
    }
}

/// What the client screen shows.
#[derive(Clone, Copy, Debug, PartialEq, Eq, Structural)]
pub enum Phase {
    /// The connection has not opened yet.
    Connecting,
    /// Connected; no folder listed yet.
    NoFolder,
    /// Connected; a folder listing is shown.
    FolderListed,
    /// Connected; a face is being annotated.
    AnnotationActive,
    /// The connection ended; only a reconnect is offered.
    Error,
}

/// The client application: a live connection, or the error that ended the
/// last one.
pub struct TemplateApp {
    pub session: Result<SocketSession, ClientError>,
}

/// The phase that a connection state shows.
pub open spec fn phase_of(session: Result<SocketSession, ClientError>) -> Phase {
    match session {
        Ok(s) => if !s.is_open {
            Phase::Connecting
        } else if s.data@.annotation is Some {
            Phase::AnnotationActive
        } else if s.data@.folder_contents is Some {
            Phase::FolderListed
        } else {
            Phase::NoFolder
        },
        Err(_) => Phase::Error,
    }
}

/// The connection state right after a connection attempt.
pub open spec fn connected(session: Result<SocketSession, ClientError>, attempt: Result<(), String>) -> bool {
    match attempt {
        Ok(()) => session matches Ok(s) && !s.is_open && s.data@ == (ClientModel {
            folder_contents: None,
            annotation: None,
            folder_path: Seq::empty(),
        }),
        Err(e) => session matches Err(ClientError::Transport(f)) && f@ == e@,
    }
}

impl TemplateApp {
    /// The application after a connection attempt: `attempt` is the
    /// transport's outcome.
    pub fn new(attempt: Result<(), String>) -> (r: Self)
        ensures
            connected(r.session, attempt),
    {
        match attempt {
            Ok(()) => TemplateApp { session: Ok(SocketSession::new()) },
            Err(e) => TemplateApp { session: Err(ClientError::Transport(e)) },
        }
    }

    /// Drops all client state and starts over with a new connection attempt.
    pub fn reconnect(&mut self, attempt: Result<(), String>)
        ensures
            connected(final(self).session, attempt),
    {
        *self = TemplateApp::new(attempt);
    }

    /// Applies a transport event. Once the connection has ended, events are
    /// ignored until a reconnect.
    pub fn update(&mut self, event: SocketEvent)
        ensures
            match old(self).session {
                Ok(s) => match socket_after(s.is_open, s.data@, event) {
                    Some((o, c)) => final(self).session matches Ok(t) && t.is_open == o && t.data@
                        == c,
                    None => final(self).session is Err,
                },
                Err(_) => phase_of(final(self).session) == Phase::Error,
            },
    {
        let mut cur: Result<SocketSession, ClientError> = Err(ClientError::Closed);
        core::mem::swap(&mut self.session, &mut cur);
        match cur {
            Ok(mut s) => match s.receive(event) {
                Ok(()) => {
                    self.session = Ok(s);
                },
                Err(e) => {
                    self.session = Err(e);
                },
            },
            Err(e) => {
                self.session = Err(e);
            },
        }
    }

    /// What the screen shows.
    pub fn phase(&self) -> (r: Phase)
        ensures
            r == phase_of(self.session),
    {
        match &self.session {
            Ok(s) => {
                if !s.is_open {
                    Phase::Connecting
                } else if s.data.annotation_sess.is_some() {
                    Phase::AnnotationActive
                } else if s.data.folder_contents.is_some() {
                    Phase::FolderListed
                } else {
                    Phase::NoFolder
                }
            },
            Err(_) => Phase::Error,
        }
    }
}

} // verus!

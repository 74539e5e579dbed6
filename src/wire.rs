//! The wire encoding of protocol messages: booleans are one byte,
//! coordinates four little-endian bytes, strings and sequences a length and
//! then their contents, and enum values a variant index and then the fields.
use vstd::prelude::*;
use vstd::utf8::encode_utf8;
use vstd::string::StringSliceAdditionalSpecFns;
use crate::types::{
    AnnotationData, AnnotationEvent, ClientToServer, Defect, DefectModel, EventModel, FaceKey,
    FaceKeyModel, ImageData, ImageModel, Point, ReplyModel, RequestModel, SamEvent, ServerToClient,
    defects_view, keys_view,
};
use crate::varint::{
    le_bytes, lemma_le_bytes_len, lemma_le_value_of_bytes, lemma_pow256_small, lemma_prefix_split,
    lemma_varint_len, prefix_at, push_le, push_varint, varint,
};
use crate::round_trip::{lemma_list_unique, lemma_str_unique};

verus! {

/// Values with a wire encoding that sequences of them are made of.
pub trait Encoded: Sized {
    spec fn enc(self) -> Seq<u8>;

    proof fn lemma_enc_nonempty(self)
        ensures
            self.enc().len() >= 1,
    ;

    /// Two values whose encodings stand at the same place are equal.
    proof fn lemma_enc_unique(self, other: Self, s: Seq<u8>, pos: int)
        requires
            prefix_at(self.enc(), s, pos),
            prefix_at(other.enc(), s, pos),
            s.len() <= u64::MAX,
        ensures
            self == other,
    ;
}

/// The encodings of a sequence of values, one after another.
pub open spec fn concat_enc<A: Encoded>(xs: Seq<A>) -> Seq<u8>
    decreases xs.len(),
{
    if xs.len() == 0 {
        Seq::empty()
    } else {
        concat_enc(xs.drop_last()) + xs.last().enc()
    }
}

/// A sequence: its length, then its elements.
pub open spec fn enc_list<A: Encoded>(xs: Seq<A>) -> Seq<u8> {
    varint(xs.len()) + concat_enc(xs)
}

pub open spec fn enc_bool(v: bool) -> Seq<u8> {
    if v {
        seq![1u8]
    } else {
        seq![0u8]
    }
}

/// A string: the length of its UTF-8 form, then that form.
pub open spec fn enc_str(s: Seq<char>) -> Seq<u8> {
    varint(encode_utf8(s).len()) + encode_utf8(s)
}

impl Encoded for Point {
    open spec fn enc(self) -> Seq<u8> {
        le_bytes(self.x_bits as nat, 4) + le_bytes(self.y_bits as nat, 4)
    }

    proof fn lemma_enc_nonempty(self) {
        lemma_le_bytes_len(self.x_bits as nat, 4);
    }

    proof fn lemma_enc_unique(self, other: Self, s: Seq<u8>, pos: int) {
        lemma_pow256_small();
        lemma_le_bytes_len(self.x_bits as nat, 4);
        lemma_le_bytes_len(self.y_bits as nat, 4);
        lemma_le_bytes_len(other.x_bits as nat, 4);
        lemma_le_bytes_len(other.y_bits as nat, 4);
        lemma_prefix_split(le_bytes(self.x_bits as nat, 4), le_bytes(self.y_bits as nat, 4), s, pos);
        lemma_prefix_split(le_bytes(other.x_bits as nat, 4), le_bytes(other.y_bits as nat, 4), s, pos);
        lemma_le_value_of_bytes(self.x_bits as nat, 4);
        lemma_le_value_of_bytes(self.y_bits as nat, 4);
        lemma_le_value_of_bytes(other.x_bits as nat, 4);
        lemma_le_value_of_bytes(other.y_bits as nat, 4);
    }
}

impl Encoded for DefectModel {
    open spec fn enc(self) -> Seq<u8> {
        enc_list(self.polygon) + enc_str(self.class)
    }

    proof fn lemma_enc_nonempty(self) {
        lemma_varint_len(self.polygon.len());
    }

    proof fn lemma_enc_unique(self, other: Self, s: Seq<u8>, pos: int) {
        lemma_prefix_split(enc_list(self.polygon), enc_str(self.class), s, pos);
        lemma_prefix_split(enc_list(other.polygon), enc_str(other.class), s, pos);
        lemma_list_unique(self.polygon, other.polygon, s, pos);
        lemma_str_unique(self.class, other.class, s, pos + enc_list(self.polygon).len());
    }
}

impl Encoded for FaceKeyModel {
    open spec fn enc(self) -> Seq<u8> {
        enc_str(self.prefix) + enc_bool(self.is_narrow)
    }

    proof fn lemma_enc_nonempty(self) {
    }

    proof fn lemma_enc_unique(self, other: Self, s: Seq<u8>, pos: int) {
        lemma_prefix_split(enc_str(self.prefix), enc_bool(self.is_narrow), s, pos);
        lemma_prefix_split(enc_str(other.prefix), enc_bool(other.is_narrow), s, pos);
        lemma_str_unique(self.prefix, other.prefix, s, pos);
        let q = pos + enc_str(self.prefix).len();
        assert(s.subrange(q, q + 1)[0] == s[q]);
    }
}

pub open spec fn enc_image(i: ImageModel) -> Seq<u8> {
    varint(i.width as nat) + varint(i.height as nat) + varint(i.rgb.len()) + i.rgb
}

pub open spec fn enc_sam(e: SamEvent) -> Seq<u8> {
    match e {
        SamEvent::Click(p, positive) => seq![0u8] + p.enc() + enc_bool(positive),
        SamEvent::BoundingBox(p, q) => seq![1u8] + p.enc() + q.enc(),
    }
}

pub open spec fn enc_event(e: EventModel) -> Seq<u8> {
    match e {
        EventModel::Sam(s) => seq![0u8] + enc_sam(s),
        EventModel::NewDefect(d) => seq![1u8] + d.enc(),
        EventModel::Delete(i) => seq![2u8] + varint(i as nat),
        EventModel::EditDefect(i, d) => seq![3u8] + varint(i as nat) + d.enc(),
    }
}

/// The encoding of a client-to-server message.
pub open spec fn enc_request(m: RequestModel) -> Seq<u8> {
    match m {
        RequestModel::LoadFolder(p) => seq![0u8] + enc_str(p),
        RequestModel::LoadKey(k) => seq![1u8] + k.enc(),
        RequestModel::Annotate(e) => seq![2u8] + enc_event(e),
    }
}

/// The encoding of a server-to-client message.
pub open spec fn enc_reply(m: ReplyModel) -> Seq<u8> {
    match m {
        ReplyModel::FolderContents(keys) => seq![0u8] + enc_list(keys),
        ReplyModel::InitialLoad(k, i, a) => seq![1u8] + k.enc() + enc_image(i) + enc_list(a),
        ReplyModel::ServerUpdated(a) => seq![2u8] + enc_list(a),
    }
}

/// The client-to-server message that `b` encodes, if any.
pub open spec fn decode_request(b: Seq<u8>) -> Option<RequestModel> {
    if exists|m: RequestModel| enc_request(m) == b {
        Some(choose|m: RequestModel| enc_request(m) == b)
    } else {
        None
    }
}

/// The well-formed server-to-client message that `b` encodes, if any.
pub open spec fn decode_reply(b: Seq<u8>) -> Option<ReplyModel> {
    if exists|m: ReplyModel| reply_wf(m) && enc_reply(m) == b {
        Some(choose|m: ReplyModel| reply_wf(m) && enc_reply(m) == b)
    } else {
        None
    }
}

/// Every image of a server-to-client message holds three bytes per pixel.
pub open spec fn reply_wf(m: ReplyModel) -> bool {
    m matches ReplyModel::InitialLoad(_, i, _) ==> i.wf()
}

fn push_bytes(out: &mut Vec<u8>, b: &[u8])
    ensures
        final(out)@ == old(out)@ + b@,
{
    let ghost start = out@;
    let mut i: usize = 0;
    while i < b.len()
        invariant
            i <= b@.len(),
            out@ == start + b@.subrange(0, i as int),
        decreases b@.len() - i,
    {
        out.push(b[i]);
        assert(b@.subrange(0, i + 1) =~= b@.subrange(0, i as int).push(b@[i as int]));
        i += 1;
    }
    assert(b@.subrange(0, i as int) =~= b@);
}

fn push_bool(out: &mut Vec<u8>, v: bool)
    ensures
        final(out)@ == old(out)@ + enc_bool(v),
{
    let ghost start = out@;
    out.push(if v { 1u8 } else { 0u8 });
    assert(out@ =~= start + enc_bool(v));
}

fn push_str(out: &mut Vec<u8>, s: &str)
    ensures
        final(out)@ == old(out)@ + enc_str(s@),
{
    let ghost start = out@;
    let b = s.as_bytes();
    push_varint(out, b.len() as u64);
    push_bytes(out, b);
    assert(out@ =~= start + enc_str(s@));
}

fn push_point(out: &mut Vec<u8>, p: Point)
    ensures
        final(out)@ == old(out)@ + p.enc(),
{
    let ghost start = out@;
    push_le(out, p.x_bits as u64, 4);
    push_le(out, p.y_bits as u64, 4);
    assert(out@ =~= start + p.enc());
}

fn push_points(out: &mut Vec<u8>, ps: &Vec<Point>)
    ensures
        final(out)@ == old(out)@ + enc_list(ps@),
{
    let ghost start = out@;
    push_varint(out, ps.len() as u64);
    let ghost mid = out@;
    let mut i: usize = 0;
    while i < ps.len()
        invariant
            i <= ps@.len(),
            out@ == mid + concat_enc(ps@.take(i as int)),
        decreases ps@.len() - i,
    {
        push_point(out, ps[i]);
        assert(ps@.take(i + 1).drop_last() =~= ps@.take(i as int));
        i += 1;
    }
    assert(ps@.take(i as int) =~= ps@);
    assert(out@ =~= start + enc_list(ps@));
}

fn push_defect(out: &mut Vec<u8>, d: &Defect)
    ensures
        final(out)@ == old(out)@ + d@.enc(),
{
    let ghost start = out@;
    push_points(out, &d.polygon);
    push_str(out, d.class.as_str());
    assert(out@ =~= start + d@.enc());
}

fn push_key(out: &mut Vec<u8>, k: &FaceKey)
    ensures
        final(out)@ == old(out)@ + k@.enc(),
{
    let ghost start = out@;
    push_str(out, k.prefix.as_str());
    push_bool(out, k.is_narrow);
    assert(out@ =~= start + k@.enc());
}

fn push_annotations(out: &mut Vec<u8>, a: &AnnotationData)
    ensures
        final(out)@ == old(out)@ + enc_list(a@),
{
    let ghost start = out@;
    push_varint(out, a.polygons.len() as u64);
    let ghost mid = out@;
    let mut i: usize = 0;
    while i < a.polygons.len()
        invariant
            i <= a.polygons@.len(),
            a@.len() == a.polygons@.len(),
            out@ == mid + concat_enc(a@.take(i as int)),
        decreases a.polygons@.len() - i,
    {
        push_defect(out, &a.polygons[i]);
        assert(a@.take(i + 1).drop_last() =~= a@.take(i as int));
        i += 1;
    }
    assert(a@.take(i as int) =~= a@);
    assert(out@ =~= start + enc_list(a@));
}

fn push_keys(out: &mut Vec<u8>, ks: &Vec<FaceKey>)
    ensures
        final(out)@ == old(out)@ + enc_list(keys_view(ks@)),
{
    let ghost start = out@;
    push_varint(out, ks.len() as u64);
    let ghost mid = out@;
    let ghost kv = keys_view(ks@);
    let mut i: usize = 0;
    while i < ks.len()
        invariant
            i <= ks@.len(),
            kv == keys_view(ks@),
            out@ == mid + concat_enc(kv.take(i as int)),
        decreases ks@.len() - i,
    {
        push_key(out, &ks[i]);
        assert(kv.take(i + 1).drop_last() =~= kv.take(i as int));
        i += 1;
    }
    assert(kv.take(i as int) =~= kv);
    assert(out@ =~= start + enc_list(kv));
}

fn push_image(out: &mut Vec<u8>, img: &ImageData)
    ensures
        final(out)@ == old(out)@ + enc_image(img@),
{
    let ghost start = out@;
    push_varint(out, img.width as u64);
    push_varint(out, img.height as u64);
    push_varint(out, img.rgb.len() as u64);
    push_bytes(out, img.rgb.as_slice());
    assert(out@ =~= start + enc_image(img@));
}

fn push_sam(out: &mut Vec<u8>, e: &SamEvent)
    ensures
        final(out)@ == old(out)@ + enc_sam(*e),
{
    let ghost start = out@;
    match e {
        SamEvent::Click(p, positive) => {
            out.push(0u8);
            push_point(out, *p);
            push_bool(out, *positive);
        },
        SamEvent::BoundingBox(p, q) => {
            out.push(1u8);
            push_point(out, *p);
            push_point(out, *q);
        },
    }
    assert(out@ =~= start + enc_sam(*e));
}

fn push_event(out: &mut Vec<u8>, e: &AnnotationEvent)
    ensures
        final(out)@ == old(out)@ + enc_event(e@),
{
    let ghost start = out@;
    match e {
        AnnotationEvent::Sam(s) => {
            out.push(0u8);
            push_sam(out, s);
        },
        AnnotationEvent::NewDefect(d) => {
            out.push(1u8);
            push_defect(out, d);
        },
        AnnotationEvent::Delete(i) => {
            out.push(2u8);
            push_varint(out, *i as u64);
        },
        AnnotationEvent::EditDefect(i, d) => {
            out.push(3u8);
            push_varint(out, *i as u64);
            push_defect(out, d);
        },
    }
    assert(out@ =~= start + enc_event(e@));
}

impl ClientToServer {
    /// The wire encoding of this message.
    pub fn serialize(&self) -> (r: Vec<u8>)
        ensures
            r@ == enc_request(self@),
    {
        let mut out: Vec<u8> = Vec::new();
        match self {
            ClientToServer::LoadFolder(p) => {
                out.push(0u8);
                push_str(&mut out, p.as_str());
            },
            ClientToServer::LoadKey(k) => {
                out.push(1u8);
                push_key(&mut out, k);
            },
            ClientToServer::Annotate(e) => {
                out.push(2u8);
                push_event(&mut out, e);
            },
        }
        assert(out@ =~= enc_request(self@));
        out
    }
}

impl ServerToClient {
    /// The wire encoding of this message.
    pub fn serialize(&self) -> (r: Vec<u8>)
        ensures
            r@ == enc_reply(self@),
    {
        let mut out: Vec<u8> = Vec::new();
        match self {
            ServerToClient::FolderContents(ks) => {
                out.push(0u8);
                push_keys(&mut out, ks);
            },
            ServerToClient::InitialLoad(k, i, a) => {
                out.push(1u8);
                push_key(&mut out, k);
                push_image(&mut out, i);
                push_annotations(&mut out, a);
            },
            ServerToClient::ServerUpdated(a) => {
                out.push(2u8);
                push_annotations(&mut out, a);
            },
        }
        assert(out@ =~= enc_reply(self@));
        out
    }
}

/// A buffer that holds no message: it ends early, holds an unknown variant
/// index, a length past its end, a non-canonical integer, invalid UTF-8, an
/// image whose pixel buffer does not match its size, or bytes after the
/// message.
#[derive(Clone, Copy, Debug, PartialEq, Eq, Structural)]
pub struct DecodeError;

} // verus!

//! No two messages share an encoding, so decoding an encoded message gives
//! it back.
use vstd::prelude::*;
use vstd::utf8::{encode_utf8, encode_utf8_decode_utf8};
use crate::types::{EventModel, ImageModel, ReplyModel, RequestModel, SamEvent};
use crate::varint::{lemma_prefix_split, lemma_tagged, lemma_varint_unique, prefix_at, varint};
use crate::decode::{lemma_list_element, lemma_list_prefix};
use crate::wire::{
    Encoded, concat_enc, decode_reply, decode_request, enc_bool, enc_event, enc_image, enc_list,
    enc_reply, enc_request, enc_sam, enc_str, reply_wf,
};

verus! {

/// Two strings whose encodings stand at the same place are equal.
pub(crate) proof fn lemma_str_unique(a: Seq<char>, b: Seq<char>, s: Seq<u8>, pos: int)
    requires
        prefix_at(enc_str(a), s, pos),
        prefix_at(enc_str(b), s, pos),
        s.len() <= u64::MAX,
    ensures
        a == b,
{
    let ea = encode_utf8(a);
    let eb = encode_utf8(b);
    lemma_prefix_split(varint(ea.len()), ea, s, pos);
    lemma_prefix_split(varint(eb.len()), eb, s, pos);
    lemma_varint_unique(ea.len(), eb.len(), s, pos);
    encode_utf8_decode_utf8(a);
    encode_utf8_decode_utf8(b);
}

proof fn lemma_concat_unique<A: Encoded>(xs: Seq<A>, ys: Seq<A>, s: Seq<u8>, p: int, i: int)
    requires
        xs.len() == ys.len(),
        0 <= i <= xs.len(),
        prefix_at(concat_enc(xs), s, p),
        prefix_at(concat_enc(ys), s, p),
        s.len() <= u64::MAX,
    ensures
        xs.take(i) == ys.take(i),
    decreases i,
{
    if i > 0 {
        lemma_concat_unique(xs, ys, s, p, i - 1);
        lemma_list_element(xs, i - 1, s, p);
        lemma_list_element(ys, i - 1, s, p);
        lemma_prefix_split(concat_enc(xs.take(i - 1)), xs[i - 1].enc(), s, p);
        lemma_prefix_split(concat_enc(ys.take(i - 1)), ys[i - 1].enc(), s, p);
        xs[i - 1].lemma_enc_unique(ys[i - 1], s, p + concat_enc(xs.take(i - 1)).len());
        assert(xs.take(i) =~= xs.take(i - 1).push(xs[i - 1]));
        assert(ys.take(i) =~= ys.take(i - 1).push(ys[i - 1]));
    } else {
        assert(xs.take(0) =~= ys.take(0));
    }
}

/// Two sequences whose encodings stand at the same place are equal.
pub(crate) proof fn lemma_list_unique<A: Encoded>(xs: Seq<A>, ys: Seq<A>, s: Seq<u8>, pos: int)
    requires
        prefix_at(enc_list(xs), s, pos),
        prefix_at(enc_list(ys), s, pos),
        s.len() <= u64::MAX,
    ensures
        xs == ys,
{
    lemma_list_prefix(xs, s, pos);
    lemma_list_prefix(ys, s, pos);
    lemma_varint_unique(xs.len(), ys.len(), s, pos);
    lemma_concat_unique(xs, ys, s, pos + varint(xs.len()).len(), xs.len() as int);
    assert(xs.take(xs.len() as int) =~= xs);
    assert(ys.take(ys.len() as int) =~= ys);
}

proof fn lemma_image_unique(a: ImageModel, b: ImageModel, s: Seq<u8>, pos: int)
    requires
        prefix_at(enc_image(a), s, pos),
        prefix_at(enc_image(b), s, pos),
        s.len() <= u64::MAX,
    ensures
        a == b,
{
    let (wa, ha, na) = (varint(a.width as nat), varint(a.height as nat), varint(a.rgb.len()));
    let (wb, hb, nb) = (varint(b.width as nat), varint(b.height as nat), varint(b.rgb.len()));
    lemma_prefix_split(wa + ha + na, a.rgb, s, pos);
    lemma_prefix_split(wa + ha, na, s, pos);
    lemma_prefix_split(wa, ha, s, pos);
    lemma_prefix_split(wb + hb + nb, b.rgb, s, pos);
    lemma_prefix_split(wb + hb, nb, s, pos);
    lemma_prefix_split(wb, hb, s, pos);
    lemma_varint_unique(a.width as nat, b.width as nat, s, pos);
    lemma_varint_unique(a.height as nat, b.height as nat, s, pos + wa.len());
    lemma_varint_unique(a.rgb.len(), b.rgb.len(), s, pos + wa.len() + ha.len());
}

proof fn lemma_sam_unique(a: SamEvent, b: SamEvent, s: Seq<u8>, pos: int)
    requires
        prefix_at(enc_sam(a), s, pos),
        prefix_at(enc_sam(b), s, pos),
        s.len() <= u64::MAX,
    ensures
        a == b,
{
    assert(s.subrange(pos, pos + enc_sam(a).len())[0] == s[pos]);
    assert(s.subrange(pos, pos + enc_sam(b).len())[0] == s[pos]);
    match (a, b) {
        (SamEvent::Click(p, x), SamEvent::Click(q, y)) => {
            assert(enc_sam(a) =~= seq![0u8] + (p.enc() + enc_bool(x)));
            assert(enc_sam(b) =~= seq![0u8] + (q.enc() + enc_bool(y)));
            lemma_tagged(0, p.enc() + enc_bool(x), s, pos);
            lemma_tagged(0, q.enc() + enc_bool(y), s, pos);
            lemma_prefix_split(p.enc(), enc_bool(x), s, pos + 1);
            lemma_prefix_split(q.enc(), enc_bool(y), s, pos + 1);
            p.lemma_enc_unique(q, s, pos + 1);
            let r = pos + 1 + p.enc().len();
            assert(s.subrange(r, r + 1)[0] == s[r]);
        },
        (SamEvent::BoundingBox(p, x), SamEvent::BoundingBox(q, y)) => {
            assert(enc_sam(a) =~= seq![1u8] + (p.enc() + x.enc()));
            assert(enc_sam(b) =~= seq![1u8] + (q.enc() + y.enc()));
            lemma_tagged(1, p.enc() + x.enc(), s, pos);
            lemma_tagged(1, q.enc() + y.enc(), s, pos);
            lemma_prefix_split(p.enc(), x.enc(), s, pos + 1);
            lemma_prefix_split(q.enc(), y.enc(), s, pos + 1);
            p.lemma_enc_unique(q, s, pos + 1);
            x.lemma_enc_unique(y, s, pos + 1 + p.enc().len());
        },
        _ => {},
    }
}

proof fn lemma_event_unique(a: EventModel, b: EventModel, s: Seq<u8>, pos: int)
    requires
        prefix_at(enc_event(a), s, pos),
        prefix_at(enc_event(b), s, pos),
        s.len() <= u64::MAX,
    ensures
        a == b,
{
    assert(s.subrange(pos, pos + enc_event(a).len())[0] == s[pos]);
    assert(s.subrange(pos, pos + enc_event(b).len())[0] == s[pos]);
    match (a, b) {
        (EventModel::Sam(x), EventModel::Sam(y)) => {
            lemma_tagged(0, enc_sam(x), s, pos);
            lemma_tagged(0, enc_sam(y), s, pos);
            lemma_sam_unique(x, y, s, pos + 1);
        },
        (EventModel::NewDefect(x), EventModel::NewDefect(y)) => {
            lemma_tagged(1, x.enc(), s, pos);
            lemma_tagged(1, y.enc(), s, pos);
            x.lemma_enc_unique(y, s, pos + 1);
        },
        (EventModel::Delete(i), EventModel::Delete(j)) => {
            lemma_tagged(2, varint(i as nat), s, pos);
            lemma_tagged(2, varint(j as nat), s, pos);
            lemma_varint_unique(i as nat, j as nat, s, pos + 1);
        },
        (EventModel::EditDefect(i, x), EventModel::EditDefect(j, y)) => {
            assert(enc_event(a) =~= seq![3u8] + (varint(i as nat) + x.enc()));
            assert(enc_event(b) =~= seq![3u8] + (varint(j as nat) + y.enc()));
            lemma_tagged(3, varint(i as nat) + x.enc(), s, pos);
            lemma_tagged(3, varint(j as nat) + y.enc(), s, pos);
            lemma_prefix_split(varint(i as nat), x.enc(), s, pos + 1);
            lemma_prefix_split(varint(j as nat), y.enc(), s, pos + 1);
            lemma_varint_unique(i as nat, j as nat, s, pos + 1);
            x.lemma_enc_unique(y, s, pos + 1 + varint(i as nat).len());
        },
        _ => {},
    }
}

spec fn request_tag(m: RequestModel) -> u8 {
    match m {
        RequestModel::LoadFolder(_) => 0,
        RequestModel::LoadKey(_) => 1,
        RequestModel::Annotate(_) => 2,
    }
}

/// Two client-to-server messages whose encodings both stand at the start of
/// `s` are equal: no encoding is a proper prefix of another.
proof fn lemma_request_unique(a: RequestModel, b: RequestModel, s: Seq<u8>)
    requires
        prefix_at(enc_request(a), s, 0),
        prefix_at(enc_request(b), s, 0),
        s.len() <= u64::MAX,
    ensures
        a == b,
{
    assert(enc_request(a)[0] == request_tag(a));
    assert(enc_request(b)[0] == request_tag(b));
    assert(s.subrange(0, enc_request(a).len() as int)[0] == s[0]);
    assert(s.subrange(0, enc_request(b).len() as int)[0] == s[0]);
    match (a, b) {
        (RequestModel::LoadFolder(x), RequestModel::LoadFolder(y)) => {
            lemma_tagged(0, enc_str(x), s, 0);
            lemma_tagged(0, enc_str(y), s, 0);
            lemma_str_unique(x, y, s, 1);
        },
        (RequestModel::LoadKey(x), RequestModel::LoadKey(y)) => {
            lemma_tagged(1, x.enc(), s, 0);
            lemma_tagged(1, y.enc(), s, 0);
            x.lemma_enc_unique(y, s, 1);
        },
        (RequestModel::Annotate(x), RequestModel::Annotate(y)) => {
            lemma_tagged(2, enc_event(x), s, 0);
            lemma_tagged(2, enc_event(y), s, 0);
            lemma_event_unique(x, y, s, 1);
        },
        _ => {},
    }
}

proof fn lemma_initial_load_unique(a: ReplyModel, b: ReplyModel, s: Seq<u8>)
    requires
        a is InitialLoad,
        b is InitialLoad,
        prefix_at(enc_reply(a), s, 0),
        prefix_at(enc_reply(b), s, 0),
        s.len() <= u64::MAX,
    ensures
        a == b,
{
    match (a, b) {
        (ReplyModel::InitialLoad(k, i, x), ReplyModel::InitialLoad(l, j, y)) => {
            assert(enc_reply(a) =~= seq![1u8] + (k.enc() + enc_image(i) + enc_list(x)));
            assert(enc_reply(b) =~= seq![1u8] + (l.enc() + enc_image(j) + enc_list(y)));
            lemma_tagged(1, k.enc() + enc_image(i) + enc_list(x), s, 0);
            lemma_tagged(1, l.enc() + enc_image(j) + enc_list(y), s, 0);
            lemma_prefix_split(k.enc() + enc_image(i), enc_list(x), s, 1);
            lemma_prefix_split(k.enc(), enc_image(i), s, 1);
            lemma_prefix_split(l.enc() + enc_image(j), enc_list(y), s, 1);
            lemma_prefix_split(l.enc(), enc_image(j), s, 1);
            k.lemma_enc_unique(l, s, 1);
            lemma_image_unique(i, j, s, 1 + k.enc().len() as int);
            lemma_list_unique(x, y, s, 1 + k.enc().len() as int + enc_image(i).len() as int);
        },
        _ => {},
    }
}

spec fn reply_tag(m: ReplyModel) -> u8 {
    match m {
        ReplyModel::FolderContents(_) => 0,
        ReplyModel::InitialLoad(..) => 1,
        ReplyModel::ServerUpdated(_) => 2,
    }
}

/// Two server-to-client messages whose encodings both stand at the start of
/// `s` are equal: no encoding is a proper prefix of another.
proof fn lemma_reply_unique(a: ReplyModel, b: ReplyModel, s: Seq<u8>)
    requires
        prefix_at(enc_reply(a), s, 0),
        prefix_at(enc_reply(b), s, 0),
        s.len() <= u64::MAX,
    ensures
        a == b,
{
    assert(enc_reply(a)[0] == reply_tag(a));
    assert(enc_reply(b)[0] == reply_tag(b));
    assert(s.subrange(0, enc_reply(a).len() as int)[0] == s[0]);
    assert(s.subrange(0, enc_reply(b).len() as int)[0] == s[0]);
    match (a, b) {
        (ReplyModel::FolderContents(x), ReplyModel::FolderContents(y)) => {
            lemma_tagged(0, enc_list(x), s, 0);
            lemma_tagged(0, enc_list(y), s, 0);
            lemma_list_unique(x, y, s, 1);
        },
        (ReplyModel::InitialLoad(..), ReplyModel::InitialLoad(..)) => {
            lemma_initial_load_unique(a, b, s);
        },
        (ReplyModel::ServerUpdated(x), ReplyModel::ServerUpdated(y)) => {
            lemma_tagged(2, enc_list(x), s, 0);
            lemma_tagged(2, enc_list(y), s, 0);
            lemma_list_unique(x, y, s, 1);
        },
        _ => {},
    }
}

/// Decoding the encoding of a client-to-server message gives the message
/// back, for every message whose encoding fits in memory.
pub proof fn lemma_request_round_trip(m: RequestModel)
    requires
        enc_request(m).len() <= u64::MAX,
    ensures
        decode_request(enc_request(m)) == Some(m),
{
    let b = enc_request(m);
    assert(enc_request(m) == b);
    let c = choose|x: RequestModel| enc_request(x) == b;
    assert(b.subrange(0, b.len() as int) =~= b);
    lemma_request_unique(c, m, b);
}

/// Decoding the encoding of a well-formed server-to-client message gives the
/// message back, for every message whose encoding fits in memory.
pub proof fn lemma_reply_round_trip(m: ReplyModel)
    requires
        reply_wf(m),
        enc_reply(m).len() <= u64::MAX,
    ensures
        decode_reply(enc_reply(m)) == Some(m),
{
    let b = enc_reply(m);
    assert(reply_wf(m) && enc_reply(m) == b);
    let c = choose|x: ReplyModel| reply_wf(x) && enc_reply(x) == b;
    assert(b.subrange(0, b.len() as int) =~= b);
    lemma_reply_unique(c, m, b);
}

/// A truncated encoding of a client-to-server message decodes to nothing.
pub proof fn lemma_request_truncated(m: RequestModel, k: int)
    requires
        0 <= k < enc_request(m).len(),
        enc_request(m).len() <= u64::MAX,
    ensures
        decode_request(enc_request(m).take(k)) is None,
{
    let b = enc_request(m);
    let t = b.take(k);
    if exists|x: RequestModel| enc_request(x) == t {
        let c = choose|x: RequestModel| enc_request(x) == t;
        assert(b.subrange(0, k) =~= t);
        assert(b.subrange(0, b.len() as int) =~= b);
        lemma_request_unique(c, m, b);
    }
}

/// A truncated encoding of a server-to-client message decodes to nothing.
pub proof fn lemma_reply_truncated(m: ReplyModel, k: int)
    requires
        0 <= k < enc_reply(m).len(),
        enc_reply(m).len() <= u64::MAX,
    ensures
        decode_reply(enc_reply(m).take(k)) is None,
{
    let b = enc_reply(m);
    let t = b.take(k);
    if exists|x: ReplyModel| reply_wf(x) && enc_reply(x) == t {
        let c = choose|x: ReplyModel| reply_wf(x) && enc_reply(x) == t;
        assert(b.subrange(0, k) =~= t);
        assert(b.subrange(0, b.len() as int) =~= b);
        lemma_reply_unique(c, m, b);
    }
}

} // verus!

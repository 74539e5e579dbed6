//! Decoding of protocol messages. Each reader is sound (what it returns
//! encodes to exactly the bytes it consumed) and complete (wherever a value's
//! encoding stands, it reads back that value).
use vstd::prelude::*;
use vstd::utf8::{encode_utf8, encode_utf8_decode_utf8, encode_utf8_valid_utf8, valid_utf8};
use crate::types::{
    AnnotationData, AnnotationEvent, ClientToServer, Defect, DefectModel, EventModel, FaceKey,
    FaceKeyModel, ImageData, ImageModel, Point, ReplyModel, RequestModel, SamEvent, ServerToClient,
    defects_view, keys_view,
};
use crate::varint::{
    le_bytes, le_value, lemma_le_bytes_len, lemma_le_bytes_of_value, lemma_le_value_of_bytes,
    lemma_pow256_small, lemma_prefix_split, lemma_tagged, lemma_varint_len, prefix_at, read_le,
    read_varint, varint,
};
use crate::wire::{
    DecodeError, Encoded, concat_enc, decode_reply, decode_request, enc_bool, enc_event, enc_image,
    enc_list, enc_reply, enc_request, enc_sam, enc_str, reply_wf,
};

verus! {

/// Relies on String::from_utf8: it succeeds exactly on valid UTF-8, and the
/// string then holds those bytes.
#[verifier::external_body]
pub(crate) fn string_from_utf8(v: Vec<u8>) -> (r: Option<String>)
    ensures
        r is Some <==> valid_utf8(v@),
        r matches Some(s) ==> encode_utf8(s@) == v@,
{
    String::from_utf8(v).ok()
}

pub(crate) proof fn lemma_concat_len<A: Encoded>(xs: Seq<A>)
    ensures
        concat_enc(xs).len() >= xs.len(),
    decreases xs.len(),
{
    if xs.len() > 0 {
        lemma_concat_len(xs.drop_last());
        xs.last().lemma_enc_nonempty();
    }
}

/// The encodings of the first `i` elements stand at the start of the whole.
pub(crate) proof fn lemma_concat_prefix<A: Encoded>(xs: Seq<A>, i: int)
    requires
        0 <= i <= xs.len(),
    ensures
        concat_enc(xs.take(i)).len() <= concat_enc(xs).len(),
        concat_enc(xs).subrange(0, concat_enc(xs.take(i)).len() as int) == concat_enc(xs.take(i)),
    decreases xs.len(),
{
    if i == xs.len() {
        assert(xs.take(i) =~= xs);
    } else {
        let d = xs.drop_last();
        lemma_concat_prefix(d, i);
        assert(d.take(i) =~= xs.take(i));
        assert(concat_enc(xs).subrange(0, concat_enc(d).len() as int) =~= concat_enc(d));
        assert(concat_enc(xs).subrange(0, concat_enc(xs.take(i)).len() as int) =~= concat_enc(
            d,
        ).subrange(0, concat_enc(xs.take(i)).len() as int));
    }
}

/// Where a whole sequence is encoded at `pos`, element `i` is encoded right
/// after the first `i`.
pub(crate) proof fn lemma_list_element<A: Encoded>(xs: Seq<A>, i: int, b: Seq<u8>, pos: int)
    requires
        0 <= i < xs.len(),
        prefix_at(concat_enc(xs), b, pos),
    ensures
        prefix_at(concat_enc(xs.take(i)) + xs[i].enc(), b, pos),
        concat_enc(xs.take(i + 1)) == concat_enc(xs.take(i)) + xs[i].enc(),
{
    assert(xs.take(i + 1).drop_last() =~= xs.take(i));
    lemma_concat_prefix(xs, i + 1);
    let n = concat_enc(xs.take(i + 1)).len() as int;
    assert(b.subrange(pos, pos + n) =~= concat_enc(xs).subrange(0, n));
}

pub(crate) proof fn lemma_list_prefix<A: Encoded>(xs: Seq<A>, b: Seq<u8>, pos: int)
    requires
        prefix_at(enc_list(xs), b, pos),
        b.len() <= u64::MAX,
    ensures
        prefix_at(varint(xs.len()), b, pos),
        prefix_at(concat_enc(xs), b, pos + varint(xs.len()).len()),
        xs.len() <= u64::MAX,
{
    lemma_prefix_split(varint(xs.len()), concat_enc(xs), b, pos);
    lemma_concat_len(xs);
}

pub(crate) fn copy_range(b: &[u8], from: usize, to: usize) -> (r: Vec<u8>)
    requires
        from <= to <= b@.len(),
    ensures
        r@ == b@.subrange(from as int, to as int),
{
    let mut r: Vec<u8> = Vec::new();
    let mut i: usize = from;
    while i < to
        invariant
            from <= i <= to <= b@.len(),
            r@ == b@.subrange(from as int, i as int),
        decreases to - i,
    {
        r.push(b[i]);
        assert(b@.subrange(from as int, i + 1) =~= b@.subrange(from as int, i as int).push(b@[i as int]));
        i += 1;
    }
    r
}

pub(crate) fn read_bool(b: &[u8], pos: usize) -> (r: Option<(bool, usize)>)
    requires
        pos <= b@.len(),
    ensures
        r matches Some((v, end)) ==> pos <= end <= b@.len() && b@.subrange(pos as int, end as int)
            == enc_bool(v),
        forall|v: bool| #[trigger] prefix_at(enc_bool(v), b@, pos as int) ==> r == Some((v, (pos + 1) as usize)),
{
    if pos >= b.len() {
        return None;
    }
    let t = b[pos];
    assert forall|v: bool| #[trigger] prefix_at(enc_bool(v), b@, pos as int) implies enc_bool(v)[0] == t by {
        assert(b@.subrange(pos as int, pos + 1)[0] == b@[pos as int]);
    }
    if t == 0 {
        assert(b@.subrange(pos as int, pos + 1) =~= enc_bool(false));
        Some((false, pos + 1))
    } else if t == 1 {
        assert(b@.subrange(pos as int, pos + 1) =~= enc_bool(true));
        Some((true, pos + 1))
    } else {
        None
    }
}

pub(crate) fn read_str(b: &[u8], pos: usize) -> (r: Option<(String, usize)>)
    requires
        pos <= b@.len(),
        b@.len() <= u64::MAX,
    ensures
        r matches Some((v, end)) ==> pos <= end <= b@.len() && b@.subrange(pos as int, end as int)
            == enc_str(v@),
        forall|s: Seq<char>| #[trigger] prefix_at(enc_str(s), b@, pos as int) ==> (r matches Some(
            (v, end),
        ) && v@ == s && end == pos + enc_str(s).len()),
{
    proof {
        assert forall|s: Seq<char>| #[trigger] prefix_at(enc_str(s), b@, pos as int) implies prefix_at(
            varint(encode_utf8(s).len()),
            b@,
            pos as int,
        ) && prefix_at(encode_utf8(s), b@, pos + varint(encode_utf8(s).len()).len())
            && encode_utf8(s).len() <= u64::MAX by {
            lemma_prefix_split(varint(encode_utf8(s).len()), encode_utf8(s), b@, pos as int);
        }
    }
    let (len, p1) = match read_varint(b, pos) {
        Some(x) => x,
        None => return None,
    };
    if len > (b.len() - p1) as u64 {
        return None;
    }
    let end = p1 + len as usize;
    let v = copy_range(b, p1, end);
    let ghost vb = v@;
    match string_from_utf8(v) {
        Some(s) => {
            assert(b@.subrange(pos as int, end as int) =~= b@.subrange(pos as int, p1 as int)
                + vb);
            proof {
                assert forall|t: Seq<char>| #[trigger] prefix_at(enc_str(t), b@, pos as int) implies s@
                    == t by {
                    encode_utf8_decode_utf8(t);
                    encode_utf8_decode_utf8(s@);
                }
            }
            Some((s, end))
        },
        None => {
            proof {
                assert forall|t: Seq<char>| #[trigger] prefix_at(enc_str(t), b@, pos as int) implies false by {
                    encode_utf8_valid_utf8(t);
                }
            }
            None
        },
    }
}

pub(crate) fn read_point(b: &[u8], pos: usize) -> (r: Option<(Point, usize)>)
    requires
        pos <= b@.len(),
    ensures
        r matches Some((v, end)) ==> pos <= end <= b@.len() && b@.subrange(pos as int, end as int)
            == v.enc(),
        forall|p: Point| #[trigger] prefix_at(p.enc(), b@, pos as int) ==> r == Some(
            (p, (pos + 8) as usize),
        ),
{
    proof {
        assert forall|p: Point| #[trigger] prefix_at(p.enc(), b@, pos as int) implies prefix_at(
            le_bytes(p.x_bits as nat, 4),
            b@,
            pos as int,
        ) && prefix_at(le_bytes(p.y_bits as nat, 4), b@, pos + 4) && p.enc().len() == 8 by {
            lemma_le_bytes_len(p.x_bits as nat, 4);
            lemma_le_bytes_len(p.y_bits as nat, 4);
            lemma_prefix_split(le_bytes(p.x_bits as nat, 4), le_bytes(p.y_bits as nat, 4), b@, pos as int);
        }
    }
    if b.len() - pos < 8 {
        return None;
    }
    let x = read_le(b, pos, 4);
    let y = read_le(b, pos + 4, 4);
    proof {
        lemma_pow256_small();
        lemma_le_bytes_of_value(b@.subrange(pos as int, pos + 4));
        lemma_le_bytes_of_value(b@.subrange(pos + 4, pos + 8));
        assert forall|p: Point| #[trigger] prefix_at(p.enc(), b@, pos as int) implies p.x_bits == x
            && p.y_bits == y by {
            lemma_le_bytes_len(p.x_bits as nat, 4);
            lemma_le_bytes_len(p.y_bits as nat, 4);
            lemma_prefix_split(le_bytes(p.x_bits as nat, 4), le_bytes(p.y_bits as nat, 4), b@, pos as int);
            assert(b@.subrange(pos as int, pos + 4) == le_bytes(p.x_bits as nat, 4));
            assert(b@.subrange(pos + 4, pos + 8) == le_bytes(p.y_bits as nat, 4));
            lemma_le_value_of_bytes(p.x_bits as nat, 4);
            lemma_le_value_of_bytes(p.y_bits as nat, 4);
        }
    }
    let p = Point { x_bits: x as u32, y_bits: y as u32 };
    assert(b@.subrange(pos as int, pos + 8) =~= b@.subrange(pos as int, pos + 4) + b@.subrange(
        pos + 4,
        pos + 8,
    ));
    Some((p, pos + 8))
}

pub(crate) fn read_points(b: &[u8], pos: usize) -> (r: Option<(Vec<Point>, usize)>)
    requires
        pos <= b@.len(),
        b@.len() <= u64::MAX,
    ensures
        r matches Some((v, end)) ==> pos <= end <= b@.len() && b@.subrange(pos as int, end as int)
            == enc_list(v@),
        forall|xs: Seq<Point>| #[trigger] prefix_at(enc_list(xs), b@, pos as int) ==> (r matches Some(
            (v, end),
        ) && v@ == xs && end == pos + enc_list(xs).len()),
{
    proof {
        assert forall|xs: Seq<Point>| #[trigger] prefix_at(enc_list(xs), b@, pos as int) implies prefix_at(
            varint(xs.len()),
            b@,
            pos as int,
        ) && xs.len() <= u64::MAX by {
            lemma_list_prefix(xs, b@, pos as int);
        }
    }
    let (n, p1) = match read_varint(b, pos) {
        Some(x) => x,
        None => return None,
    };
    let mut out: Vec<Point> = Vec::new();
    let mut p: usize = p1;
    let mut i: u64 = 0;
    assert(b@.subrange(p1 as int, p1 as int) =~= concat_enc(out@));
    proof {
        assert forall|xs: Seq<Point>| #[trigger] prefix_at(enc_list(xs), b@, pos as int) implies (xs.len()
            == n && p1 == pos + varint(n as nat).len() && prefix_at(concat_enc(xs), b@, p1 as int)
            && out@ == xs.take(0) && p == p1 + concat_enc(xs.take(0)).len()) by {
            lemma_list_prefix(xs, b@, pos as int);
            assert(xs.take(0) =~= Seq::<Point>::empty());
            assert(out@ =~= Seq::<Point>::empty());
        }
    }
    while i < n
        invariant
            pos < p1 <= p <= b@.len(),
            b@.len() <= u64::MAX,
            i <= n,
            out@.len() == i,
            b@.subrange(pos as int, p1 as int) == varint(n as nat),
            b@.subrange(p1 as int, p as int) == concat_enc(out@),
            forall|xs: Seq<Point>| #[trigger]
                prefix_at(enc_list(xs), b@, pos as int) ==> (xs.len() == n && p1 == pos + varint(
                    n as nat,
                ).len() && prefix_at(concat_enc(xs), b@, p1 as int) && out@ == xs.take(i as int)
                    && p == p1 + concat_enc(xs.take(i as int)).len()),
        decreases n - i,
    {
        proof {
            assert forall|xs: Seq<Point>| #[trigger] prefix_at(enc_list(xs), b@, pos as int) implies prefix_at(
                xs[i as int].enc(),
                b@,
                p as int,
            ) by {
                lemma_list_element(xs, i as int, b@, p1 as int);
                lemma_prefix_split(concat_enc(xs.take(i as int)), xs[i as int].enc(), b@, p1 as int);
            }
        }
        let (pt, q) = match read_point(b, p) {
            Some(x) => x,
            None => return None,
        };
        let ghost before = out@;
        out.push(pt);
        proof {
            assert(out@.drop_last() =~= before);
            assert(b@.subrange(p1 as int, q as int) =~= b@.subrange(p1 as int, p as int)
                + b@.subrange(p as int, q as int));
            assert forall|xs: Seq<Point>| #[trigger] prefix_at(enc_list(xs), b@, pos as int) implies out@
                == xs.take(i + 1) && q == p1 + concat_enc(xs.take(i + 1)).len() by {
                lemma_list_element(xs, i as int, b@, p1 as int);
                assert(xs.take(i + 1) =~= xs.take(i as int).push(xs[i as int]));
            }
        }
        p = q;
        i = i + 1;
    }
    proof {
        assert(b@.subrange(pos as int, p as int) =~= b@.subrange(pos as int, p1 as int) + b@.subrange(
            p1 as int,
            p as int,
        ));
        assert forall|xs: Seq<Point>| #[trigger] prefix_at(enc_list(xs), b@, pos as int) implies out@
            == xs by {
            assert(xs.take(n as int) =~= xs);
        }
    }
    Some((out, p))
}

pub(crate) fn read_defect(b: &[u8], pos: usize) -> (r: Option<(Defect, usize)>)
    requires
        pos <= b@.len(),
        b@.len() <= u64::MAX,
    ensures
        r matches Some((v, end)) ==> pos <= end <= b@.len() && b@.subrange(pos as int, end as int)
            == v@.enc(),
        forall|d: DefectModel| #[trigger] prefix_at(d.enc(), b@, pos as int) ==> (r matches Some(
            (v, end),
        ) && v@ == d && end == pos + d.enc().len()),
{
    proof {
        assert forall|d: DefectModel| #[trigger] prefix_at(d.enc(), b@, pos as int) implies prefix_at(
            enc_list(d.polygon),
            b@,
            pos as int,
        ) && prefix_at(enc_str(d.class), b@, pos + enc_list(d.polygon).len()) by {
            lemma_prefix_split(enc_list(d.polygon), enc_str(d.class), b@, pos as int);
        }
    }
    let (polygon, p1) = match read_points(b, pos) {
        Some(x) => x,
        None => return None,
    };
    let (class, p2) = match read_str(b, p1) {
        Some(x) => x,
        None => return None,
    };
    let d = Defect { polygon, class };
    assert(b@.subrange(pos as int, p2 as int) =~= b@.subrange(pos as int, p1 as int) + b@.subrange(
        p1 as int,
        p2 as int,
    ));
    Some((d, p2))
}

pub(crate) fn read_key(b: &[u8], pos: usize) -> (r: Option<(FaceKey, usize)>)
    requires
        pos <= b@.len(),
        b@.len() <= u64::MAX,
    ensures
        r matches Some((v, end)) ==> pos <= end <= b@.len() && b@.subrange(pos as int, end as int)
            == v@.enc(),
        forall|k: FaceKeyModel| #[trigger] prefix_at(k.enc(), b@, pos as int) ==> (r matches Some(
            (v, end),
        ) && v@ == k && end == pos + k.enc().len()),
{
    proof {
        assert forall|k: FaceKeyModel| #[trigger] prefix_at(k.enc(), b@, pos as int) implies prefix_at(
            enc_str(k.prefix),
            b@,
            pos as int,
        ) && prefix_at(enc_bool(k.is_narrow), b@, pos + enc_str(k.prefix).len()) by {
            lemma_prefix_split(enc_str(k.prefix), enc_bool(k.is_narrow), b@, pos as int);
        }
    }
    let (prefix, p1) = match read_str(b, pos) {
        Some(x) => x,
        None => return None,
    };
    let (is_narrow, p2) = match read_bool(b, p1) {
        Some(x) => x,
        None => return None,
    };
    let k = FaceKey { prefix, is_narrow };
    assert(b@.subrange(pos as int, p2 as int) =~= b@.subrange(pos as int, p1 as int) + b@.subrange(
        p1 as int,
        p2 as int,
    ));
    Some((k, p2))
}

pub(crate) fn read_annotations(b: &[u8], pos: usize) -> (r: Option<(AnnotationData, usize)>)
    requires
        pos <= b@.len(),
        b@.len() <= u64::MAX,
    ensures
        r matches Some((v, end)) ==> pos <= end <= b@.len() && b@.subrange(pos as int, end as int)
            == enc_list(v@),
        forall|xs: Seq<DefectModel>| #[trigger] prefix_at(enc_list(xs), b@, pos as int) ==> (r matches Some(
            (v, end),
        ) && v@ == xs && end == pos + enc_list(xs).len()),
{
    proof {
        assert forall|xs: Seq<DefectModel>| #[trigger] prefix_at(enc_list(xs), b@, pos as int) implies prefix_at(
            varint(xs.len()),
            b@,
            pos as int,
        ) && xs.len() <= u64::MAX by {
            lemma_list_prefix(xs, b@, pos as int);
        }
    }
    let (n, p1) = match read_varint(b, pos) {
        Some(x) => x,
        None => return None,
    };
    let mut out: Vec<Defect> = Vec::new();
    let mut p: usize = p1;
    let mut i: u64 = 0;
    assert(b@.subrange(p1 as int, p1 as int) =~= concat_enc(defects_view(out@)));
    proof {
        assert forall|xs: Seq<DefectModel>| #[trigger] prefix_at(enc_list(xs), b@, pos as int) implies (xs.len()
            == n && p1 == pos + varint(n as nat).len() && prefix_at(concat_enc(xs), b@, p1 as int)
            && defects_view(out@) == xs.take(0) && p == p1 + concat_enc(xs.take(0)).len()) by {
            lemma_list_prefix(xs, b@, pos as int);
            assert(xs.take(0) =~= Seq::<DefectModel>::empty());
            assert(defects_view(out@) =~= Seq::<DefectModel>::empty());
        }
    }
    while i < n
        invariant
            pos < p1 <= p <= b@.len(),
            b@.len() <= u64::MAX,
            i <= n,
            out@.len() == i,
            b@.subrange(pos as int, p1 as int) == varint(n as nat),
            b@.subrange(p1 as int, p as int) == concat_enc(defects_view(out@)),
            forall|xs: Seq<DefectModel>| #[trigger]
                prefix_at(enc_list(xs), b@, pos as int) ==> (xs.len() == n && p1 == pos + varint(
                    n as nat,
                ).len() && prefix_at(concat_enc(xs), b@, p1 as int) && defects_view(out@) == xs.take(
                    i as int,
                ) && p == p1 + concat_enc(xs.take(i as int)).len()),
        decreases n - i,
    {
        proof {
            assert forall|xs: Seq<DefectModel>| #[trigger] prefix_at(enc_list(xs), b@, pos as int) implies prefix_at(
                xs[i as int].enc(),
                b@,
                p as int,
            ) by {
                lemma_list_element(xs, i as int, b@, p1 as int);
                lemma_prefix_split(concat_enc(xs.take(i as int)), xs[i as int].enc(), b@, p1 as int);
            }
        }
        let (d, q) = match read_defect(b, p) {
            Some(x) => x,
            None => return None,
        };
        let ghost before = defects_view(out@);
        let ghost dv = d@;
        out.push(d);
        proof {
            assert(defects_view(out@) =~= before.push(dv));
            assert(defects_view(out@).drop_last() =~= before);
            assert(b@.subrange(p1 as int, q as int) =~= b@.subrange(p1 as int, p as int)
                + b@.subrange(p as int, q as int));
            assert forall|xs: Seq<DefectModel>| #[trigger] prefix_at(enc_list(xs), b@, pos as int) implies defects_view(
                out@,
            ) == xs.take(i + 1) && q == p1 + concat_enc(xs.take(i + 1)).len() by {
                lemma_list_element(xs, i as int, b@, p1 as int);
                assert(xs.take(i + 1) =~= xs.take(i as int).push(xs[i as int]));
            }
        }
        p = q;
        i = i + 1;
    }
    let a = AnnotationData { polygons: out };
    proof {
        assert(b@.subrange(pos as int, p as int) =~= b@.subrange(pos as int, p1 as int) + b@.subrange(
            p1 as int,
            p as int,
        ));
        assert forall|xs: Seq<DefectModel>| #[trigger] prefix_at(enc_list(xs), b@, pos as int) implies a@
            == xs by {
            assert(xs.take(n as int) =~= xs);
        }
    }
    Some((a, p))
}

pub(crate) fn read_keys(b: &[u8], pos: usize) -> (r: Option<(Vec<FaceKey>, usize)>)
    requires
        pos <= b@.len(),
        b@.len() <= u64::MAX,
    ensures
        r matches Some((v, end)) ==> pos <= end <= b@.len() && b@.subrange(pos as int, end as int)
            == enc_list(keys_view(v@)),
        forall|xs: Seq<FaceKeyModel>| #[trigger] prefix_at(enc_list(xs), b@, pos as int) ==> (r matches Some(
            (v, end),
        ) && keys_view(v@) == xs && end == pos + enc_list(xs).len()),
{
    proof {
        assert forall|xs: Seq<FaceKeyModel>| #[trigger] prefix_at(enc_list(xs), b@, pos as int) implies prefix_at(
            varint(xs.len()),
            b@,
            pos as int,
        ) && xs.len() <= u64::MAX by {
            lemma_list_prefix(xs, b@, pos as int);
        }
    }
    let (n, p1) = match read_varint(b, pos) {
        Some(x) => x,
        None => return None,
    };
    let mut out: Vec<FaceKey> = Vec::new();
    let mut p: usize = p1;
    let mut i: u64 = 0;
    assert(b@.subrange(p1 as int, p1 as int) =~= concat_enc(keys_view(out@)));
    proof {
        assert forall|xs: Seq<FaceKeyModel>| #[trigger] prefix_at(enc_list(xs), b@, pos as int) implies (xs.len()
            == n && p1 == pos + varint(n as nat).len() && prefix_at(concat_enc(xs), b@, p1 as int)
            && keys_view(out@) == xs.take(0) && p == p1 + concat_enc(xs.take(0)).len()) by {
            lemma_list_prefix(xs, b@, pos as int);
            assert(xs.take(0) =~= Seq::<FaceKeyModel>::empty());
            assert(keys_view(out@) =~= Seq::<FaceKeyModel>::empty());
        }
    }
    while i < n
        invariant
            pos < p1 <= p <= b@.len(),
            b@.len() <= u64::MAX,
            i <= n,
            out@.len() == i,
            b@.subrange(pos as int, p1 as int) == varint(n as nat),
            b@.subrange(p1 as int, p as int) == concat_enc(keys_view(out@)),
            forall|xs: Seq<FaceKeyModel>| #[trigger]
                prefix_at(enc_list(xs), b@, pos as int) ==> (xs.len() == n && p1 == pos + varint(
                    n as nat,
                ).len() && prefix_at(concat_enc(xs), b@, p1 as int) && keys_view(out@) == xs.take(
                    i as int,
                ) && p == p1 + concat_enc(xs.take(i as int)).len()),
        decreases n - i,
    {
        proof {
            assert forall|xs: Seq<FaceKeyModel>| #[trigger] prefix_at(enc_list(xs), b@, pos as int) implies prefix_at(
                xs[i as int].enc(),
                b@,
                p as int,
            ) by {
                lemma_list_element(xs, i as int, b@, p1 as int);
                lemma_prefix_split(concat_enc(xs.take(i as int)), xs[i as int].enc(), b@, p1 as int);
            }
        }
        let (k, q) = match read_key(b, p) {
            Some(x) => x,
            None => return None,
        };
        let ghost before = keys_view(out@);
        let ghost kv = k@;
        out.push(k);
        proof {
            assert(keys_view(out@) =~= before.push(kv));
            assert(keys_view(out@).drop_last() =~= before);
            assert(b@.subrange(p1 as int, q as int) =~= b@.subrange(p1 as int, p as int)
                + b@.subrange(p as int, q as int));
            assert forall|xs: Seq<FaceKeyModel>| #[trigger] prefix_at(enc_list(xs), b@, pos as int) implies keys_view(
                out@,
            ) == xs.take(i + 1) && q == p1 + concat_enc(xs.take(i + 1)).len() by {
                lemma_list_element(xs, i as int, b@, p1 as int);
                assert(xs.take(i + 1) =~= xs.take(i as int).push(xs[i as int]));
            }
        }
        p = q;
        i = i + 1;
    }
    proof {
        assert(b@.subrange(pos as int, p as int) =~= b@.subrange(pos as int, p1 as int) + b@.subrange(
            p1 as int,
            p as int,
        ));
        assert forall|xs: Seq<FaceKeyModel>| #[trigger] prefix_at(enc_list(xs), b@, pos as int) implies keys_view(
            out@,
        ) == xs by {
            assert(xs.take(n as int) =~= xs);
        }
    }
    Some((out, p))
}

pub(crate) fn read_image(b: &[u8], pos: usize) -> (r: Option<(ImageData, usize)>)
    requires
        pos <= b@.len(),
        b@.len() <= u64::MAX,
    ensures
        r matches Some((v, end)) ==> pos <= end <= b@.len() && b@.subrange(pos as int, end as int)
            == enc_image(v@) && v@.wf(),
        forall|i: ImageModel| i.wf() && #[trigger] prefix_at(enc_image(i), b@, pos as int) ==> (r matches Some(
            (v, end),
        ) && v@ == i && end == pos + enc_image(i).len()),
{
    proof {
        assert forall|i: ImageModel| #[trigger] prefix_at(enc_image(i), b@, pos as int) implies {
            let a = varint(i.width as nat);
            let c = varint(i.height as nat);
            let d = varint(i.rgb.len());
            &&& prefix_at(a, b@, pos as int)
            &&& prefix_at(c, b@, pos + a.len())
            &&& prefix_at(d, b@, pos + a.len() + c.len())
            &&& prefix_at(i.rgb, b@, pos + a.len() + c.len() + d.len())
            &&& i.rgb.len() <= u64::MAX
        } by {
            let a = varint(i.width as nat);
            let c = varint(i.height as nat);
            let d = varint(i.rgb.len());
            lemma_prefix_split(a + c + d, i.rgb, b@, pos as int);
            lemma_prefix_split(a + c, d, b@, pos as int);
            lemma_prefix_split(a, c, b@, pos as int);
        }
    }
    let (w, p1) = match read_varint(b, pos) {
        Some(x) => x,
        None => return None,
    };
    if w > 0xffff_ffffu64 {
        return None;
    }
    let (h, p2) = match read_varint(b, p1) {
        Some(x) => x,
        None => return None,
    };
    if h > 0xffff_ffffu64 {
        return None;
    }
    let (n, p3) = match read_varint(b, p2) {
        Some(x) => x,
        None => return None,
    };
    if n > (b.len() - p3) as u64 {
        return None;
    }
    let end = p3 + n as usize;
    let rgb = copy_range(b, p3, end);
    let img = ImageData { width: w as u32, height: h as u32, rgb };
    if !img.is_well_formed() {
        return None;
    }
    assert(b@.subrange(pos as int, end as int) =~= b@.subrange(pos as int, p1 as int) + b@.subrange(
        p1 as int,
        p2 as int,
    ) + b@.subrange(p2 as int, p3 as int) + b@.subrange(p3 as int, end as int));
    Some((img, end))
}

pub(crate) fn read_sam(b: &[u8], pos: usize) -> (r: Option<(SamEvent, usize)>)
    requires
        pos <= b@.len(),
    ensures
        r matches Some((v, end)) ==> pos <= end <= b@.len() && b@.subrange(pos as int, end as int)
            == enc_sam(v),
        forall|e: SamEvent| #[trigger] prefix_at(enc_sam(e), b@, pos as int) ==> (r matches Some(
            (v, end),
        ) && v == e && end == pos + enc_sam(e).len()),
{
    if pos >= b.len() {
        proof {
            assert forall|e: SamEvent| #[trigger] prefix_at(enc_sam(e), b@, pos as int) implies false by {
                match e {
                    SamEvent::Click(p, q) => lemma_tagged(0, p.enc() + enc_bool(q), b@, pos as int),
                    SamEvent::BoundingBox(p, q) => lemma_tagged(1, p.enc() + q.enc(), b@, pos as int),
                }
            }
        }
        return None;
    }
    let t = b[pos];
    proof {
        assert forall|e: SamEvent| #[trigger] prefix_at(enc_sam(e), b@, pos as int) implies match e {
            SamEvent::Click(p, q) => t == 0 && prefix_at(p.enc(), b@, pos + 1) && prefix_at(
                enc_bool(q),
                b@,
                pos + 1 + p.enc().len(),
            ),
            SamEvent::BoundingBox(p, q) => t == 1 && prefix_at(p.enc(), b@, pos + 1) && prefix_at(
                q.enc(),
                b@,
                pos + 1 + p.enc().len(),
            ),
        } by {
            match e {
                SamEvent::Click(p, q) => {
                    assert(enc_sam(e) =~= seq![0u8] + (p.enc() + enc_bool(q)));
                    lemma_tagged(0, p.enc() + enc_bool(q), b@, pos as int);
                    lemma_prefix_split(p.enc(), enc_bool(q), b@, pos + 1);
                },
                SamEvent::BoundingBox(p, q) => {
                    assert(enc_sam(e) =~= seq![1u8] + (p.enc() + q.enc()));
                    lemma_tagged(1, p.enc() + q.enc(), b@, pos as int);
                    lemma_prefix_split(p.enc(), q.enc(), b@, pos + 1);
                },
            }
        }
    }
    if t == 0 {
        let (p, p1) = match read_point(b, pos + 1) {
            Some(x) => x,
            None => return None,
        };
        let (q, p2) = match read_bool(b, p1) {
            Some(x) => x,
            None => return None,
        };
        assert(b@.subrange(pos as int, p2 as int) =~= seq![t] + b@.subrange(pos + 1, p1 as int)
            + b@.subrange(p1 as int, p2 as int));
        Some((SamEvent::Click(p, q), p2))
    } else if t == 1 {
        let (p, p1) = match read_point(b, pos + 1) {
            Some(x) => x,
            None => return None,
        };
        let (q, p2) = match read_point(b, p1) {
            Some(x) => x,
            None => return None,
        };
        assert(b@.subrange(pos as int, p2 as int) =~= seq![t] + b@.subrange(pos + 1, p1 as int)
            + b@.subrange(p1 as int, p2 as int));
        Some((SamEvent::BoundingBox(p, q), p2))
    } else {
        None
    }
}

pub(crate) fn read_index(b: &[u8], pos: usize) -> (r: Option<(usize, usize)>)
    requires
        pos <= b@.len(),
    ensures
        r matches Some((v, end)) ==> pos < end <= b@.len() && b@.subrange(pos as int, end as int)
            == varint(v as nat),
        forall|i: usize| #[trigger] prefix_at(varint(i as nat), b@, pos as int) ==> r == Some(
            (i, (pos + varint(i as nat).len()) as usize),
        ),
{
    let (v, end) = match read_varint(b, pos) {
        Some(x) => x,
        None => return None,
    };
    if v > usize::MAX as u64 {
        return None;
    }
    Some((v as usize, end))
}

pub(crate) fn read_event(b: &[u8], pos: usize) -> (r: Option<(AnnotationEvent, usize)>)
    requires
        pos <= b@.len(),
        b@.len() <= u64::MAX,
    ensures
        r matches Some((v, end)) ==> pos <= end <= b@.len() && b@.subrange(pos as int, end as int)
            == enc_event(v@),
        forall|e: EventModel| #[trigger] prefix_at(enc_event(e), b@, pos as int) ==> (r matches Some(
            (v, end),
        ) && v@ == e && end == pos + enc_event(e).len()),
{
    if pos >= b.len() {
        proof {
            assert forall|e: EventModel| #[trigger] prefix_at(enc_event(e), b@, pos as int) implies false by {
                match e {
                    EventModel::Sam(x) => lemma_tagged(0, enc_sam(x), b@, pos as int),
                    EventModel::NewDefect(d) => lemma_tagged(1, d.enc(), b@, pos as int),
                    EventModel::Delete(i) => lemma_tagged(2, varint(i as nat), b@, pos as int),
                    EventModel::EditDefect(i, d) => {
                        assert(enc_event(e) =~= seq![3u8] + (varint(i as nat) + d.enc()));
                        lemma_tagged(3, varint(i as nat) + d.enc(), b@, pos as int);
                    },
                }
            }
        }
        return None;
    }
    let t = b[pos];
    proof {
        assert forall|e: EventModel| #[trigger] prefix_at(enc_event(e), b@, pos as int) implies match e {
            EventModel::Sam(x) => t == 0 && prefix_at(enc_sam(x), b@, pos + 1),
            EventModel::NewDefect(d) => t == 1 && prefix_at(d.enc(), b@, pos + 1),
            EventModel::Delete(i) => t == 2 && prefix_at(varint(i as nat), b@, pos + 1),
            EventModel::EditDefect(i, d) => t == 3 && prefix_at(varint(i as nat), b@, pos + 1)
                && prefix_at(d.enc(), b@, pos + 1 + varint(i as nat).len()),
        } by {
            match e {
                EventModel::Sam(x) => lemma_tagged(0, enc_sam(x), b@, pos as int),
                EventModel::NewDefect(d) => lemma_tagged(1, d.enc(), b@, pos as int),
                EventModel::Delete(i) => lemma_tagged(2, varint(i as nat), b@, pos as int),
                EventModel::EditDefect(i, d) => {
                    assert(enc_event(e) =~= seq![3u8] + (varint(i as nat) + d.enc()));
                    lemma_tagged(3, varint(i as nat) + d.enc(), b@, pos as int);
                    lemma_prefix_split(varint(i as nat), d.enc(), b@, pos + 1);
                },
            }
        }
    }
    if t == 0 {
        let (x, p1) = match read_sam(b, pos + 1) {
            Some(x) => x,
            None => return None,
        };
        assert(b@.subrange(pos as int, p1 as int) =~= seq![t] + b@.subrange(pos + 1, p1 as int));
        Some((AnnotationEvent::Sam(x), p1))
    } else if t == 1 {
        let (d, p1) = match read_defect(b, pos + 1) {
            Some(x) => x,
            None => return None,
        };
        assert(b@.subrange(pos as int, p1 as int) =~= seq![t] + b@.subrange(pos + 1, p1 as int));
        Some((AnnotationEvent::NewDefect(d), p1))
    } else if t == 2 {
        let (i, p1) = match read_index(b, pos + 1) {
            Some(x) => x,
            None => return None,
        };
        assert(b@.subrange(pos as int, p1 as int) =~= seq![t] + b@.subrange(pos + 1, p1 as int));
        Some((AnnotationEvent::Delete(i), p1))
    } else if t == 3 {
        let (i, p1) = match read_index(b, pos + 1) {
            Some(x) => x,
            None => return None,
        };
        let (d, p2) = match read_defect(b, p1) {
            Some(x) => x,
            None => return None,
        };
        assert(b@.subrange(pos as int, p2 as int) =~= seq![t] + b@.subrange(pos + 1, p1 as int)
            + b@.subrange(p1 as int, p2 as int));
        Some((AnnotationEvent::EditDefect(i, d), p2))
    } else {
        None
    }
}

pub(crate) fn read_initial_load(b: &[u8]) -> (r: Option<(ServerToClient, usize)>)
    requires
        1 <= b@.len() <= u64::MAX,
    ensures
        r matches Some((m, end)) ==> 1 <= end <= b@.len() && m is InitialLoad && seq![1u8]
            + b@.subrange(1, end as int) == enc_reply(m@) && reply_wf(m@),
        forall|k: FaceKeyModel, i: ImageModel, a: Seq<DefectModel>|
            i.wf() && #[trigger] prefix_at(k.enc(), b@, 1) && #[trigger] prefix_at(
                enc_image(i),
                b@,
                1 + k.enc().len() as int,
            ) && #[trigger] prefix_at(enc_list(a), b@, 1 + k.enc().len() as int + enc_image(i).len() as int)
                ==> (r matches Some((m, end)) && m@ == ReplyModel::InitialLoad(k, i, a) && end == 1
                + k.enc().len() + enc_image(i).len() + enc_list(a).len()),
{
    let (k, p1) = match read_key(b, 1) {
        Some(x) => x,
        None => return None,
    };
    let (i, p2) = match read_image(b, p1) {
        Some(x) => x,
        None => return None,
    };
    let (a, end) = match read_annotations(b, p2) {
        Some(x) => x,
        None => return None,
    };
    assert(b@.subrange(1, end as int) =~= b@.subrange(1, p1 as int) + b@.subrange(
        p1 as int,
        p2 as int,
    ) + b@.subrange(p2 as int, end as int));
    let m = ServerToClient::InitialLoad(k, i, a);
    assert(seq![1u8] + b@.subrange(1, end as int) =~= enc_reply(m@));
    Some((m, end))
}

impl ClientToServer {
    /// Decodes one client-to-server message that fills the whole buffer.
    pub fn deserialize(b: &[u8]) -> (r: Result<ClientToServer, DecodeError>)
        ensures
            r matches Ok(m) ==> enc_request(m@) == b@,
            forall|m: RequestModel| #[trigger] enc_request(m) == b@ ==> (r matches Ok(x) && x@ == m),
            r is Err <==> !exists|m: RequestModel| enc_request(m) == b@,
            r matches Ok(x) ==> decode_request(b@) == Some(x@),
            r is Err <==> decode_request(b@) is None,
    {
        let len = b.len();
        assert(b@.subrange(0, b@.len() as int) =~= b@);
        if len == 0 {
            assert forall|m: RequestModel| #[trigger] enc_request(m) == b@ implies false by {
                assert(enc_request(m).len() >= 1);
            }
            return Err(DecodeError);
        }
        let t = b[0];
        proof {
            assert forall|m: RequestModel| #[trigger] enc_request(m) == b@ implies match m {
                RequestModel::LoadFolder(p) => t == 0 && prefix_at(enc_str(p), b@, 1),
                RequestModel::LoadKey(k) => t == 1 && prefix_at(k.enc(), b@, 1),
                RequestModel::Annotate(e) => t == 2 && prefix_at(enc_event(e), b@, 1),
            } by {
                match m {
                    RequestModel::LoadFolder(p) => lemma_tagged(0, enc_str(p), b@, 0),
                    RequestModel::LoadKey(k) => lemma_tagged(1, k.enc(), b@, 0),
                    RequestModel::Annotate(e) => lemma_tagged(2, enc_event(e), b@, 0),
                }
            }
        }
        let parsed: Option<(ClientToServer, usize)> = if t == 0 {
            match read_str(b, 1) {
                Some((p, end)) => Some((ClientToServer::LoadFolder(p), end)),
                None => None,
            }
        } else if t == 1 {
            match read_key(b, 1) {
                Some((k, end)) => Some((ClientToServer::LoadKey(k), end)),
                None => None,
            }
        } else if t == 2 {
            match read_event(b, 1) {
                Some((e, end)) => Some((ClientToServer::Annotate(e), end)),
                None => None,
            }
        } else {
            None
        };
        match parsed {
            Some((m, end)) => {
                if end == len {
                    assert(b@ =~= seq![t] + b@.subrange(1, len as int));
                    assert(b@.subrange(1, len as int) =~= b@.subrange(1, end as int));
                    assert(enc_request(m@) == b@);
                    Ok(m)
                } else {
                    Err(DecodeError)
                }
            },
            None => Err(DecodeError),
        }
    }
}

/// Reads a server-to-client message from the start of a non-empty buffer.
#[verifier::rlimit(40)]
pub(crate) fn read_reply(b: &[u8]) -> (r: Option<(ServerToClient, usize)>)
    requires
        1 <= b@.len() <= u64::MAX,
    ensures
        r matches Some((m, end)) ==> 1 <= end <= b@.len() && b@.subrange(0, end as int) == enc_reply(
            m@,
        ) && reply_wf(m@),
        forall|m: ReplyModel| reply_wf(m) && #[trigger] enc_reply(m) == b@ ==> (r matches Some(
            (x, end),
        ) && x@ == m && end == b@.len()),
{
    let t = b[0];
    proof {
        assert(b@.subrange(0, b@.len() as int) =~= b@);
        assert forall|m: ReplyModel| #[trigger] enc_reply(m) == b@ implies match m {
            ReplyModel::FolderContents(ks) => t == 0 && prefix_at(enc_list(ks), b@, 1),
            ReplyModel::InitialLoad(k, i, a) => t == 1 && prefix_at(k.enc(), b@, 1) && prefix_at(
                enc_image(i),
                b@,
                1 + k.enc().len() as int,
            ) && prefix_at(enc_list(a), b@, 1 + k.enc().len() as int + enc_image(i).len() as int),
            ReplyModel::ServerUpdated(a) => t == 2 && prefix_at(enc_list(a), b@, 1),
        } by {
            match m {
                ReplyModel::FolderContents(ks) => lemma_tagged(0, enc_list(ks), b@, 0),
                ReplyModel::InitialLoad(k, i, a) => {
                    assert(enc_reply(m) =~= seq![1u8] + (k.enc() + enc_image(i) + enc_list(a)));
                    lemma_tagged(1, k.enc() + enc_image(i) + enc_list(a), b@, 0);
                    lemma_prefix_split(k.enc() + enc_image(i), enc_list(a), b@, 1);
                    lemma_prefix_split(k.enc(), enc_image(i), b@, 1);
                },
                ReplyModel::ServerUpdated(a) => lemma_tagged(2, enc_list(a), b@, 0),
            }
        }
    }
    if t == 0 {
        match read_keys(b, 1) {
            Some((ks, end)) => {
                let m = ServerToClient::FolderContents(ks);
                assert(b@.subrange(0, end as int) =~= seq![t] + b@.subrange(1, end as int));
                Some((m, end))
            },
            None => None,
        }
    } else if t == 1 {
        match read_initial_load(b) {
            Some((m, end)) => {
                assert(b@.subrange(0, end as int) =~= seq![t] + b@.subrange(1, end as int));
                Some((m, end))
            },
            None => None,
        }
    } else if t == 2 {
        match read_annotations(b, 1) {
            Some((a, end)) => {
                let m = ServerToClient::ServerUpdated(a);
                assert(b@.subrange(0, end as int) =~= seq![t] + b@.subrange(1, end as int));
                Some((m, end))
            },
            None => None,
        }
    } else {
        None
    }
}

impl ServerToClient {
    /// Decodes one server-to-client message that fills the whole buffer.
    /// Images whose pixel buffer does not hold three bytes per pixel are
    /// refused.
    pub fn deserialize(b: &[u8]) -> (r: Result<ServerToClient, DecodeError>)
        ensures
            r matches Ok(m) ==> enc_reply(m@) == b@ && reply_wf(m@),
            forall|m: ReplyModel| reply_wf(m) && #[trigger] enc_reply(m) == b@ ==> (r matches Ok(x)
                && x@ == m),
            r is Err <==> !exists|m: ReplyModel| reply_wf(m) && enc_reply(m) == b@,
            r matches Ok(x) ==> decode_reply(b@) == Some(x@),
            r is Err <==> decode_reply(b@) is None,
    {
        let len = b.len();
        if len == 0 {
            assert forall|m: ReplyModel| #[trigger] enc_reply(m) == b@ implies false by {
                assert(enc_reply(m).len() >= 1);
            }
            return Err(DecodeError);
        }
        match read_reply(b) {
            Some((m, end)) => {
                if end == len {
                    assert(b@.subrange(0, len as int) =~= b@);
                    assert(reply_wf(m@) && enc_reply(m@) == b@);
                    Ok(m)
                } else {
                    Err(DecodeError)
                }
            },
            None => Err(DecodeError),
        }
    }
}


} // verus!

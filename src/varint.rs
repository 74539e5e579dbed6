//! Integers on the wire: fixed-width little-endian numbers and the
//! variable-length form (one byte below 251; otherwise a marker byte 251, 252
//! or 253 followed by 2, 4 or 8 little-endian bytes).
use vstd::prelude::*;

verus! {


pub open spec fn pow256(n: nat) -> nat
    decreases n,
{
    if n == 0 {
        1
    } else {
        256 * pow256((n - 1) as nat)
    }
}

/// The `n` low bytes of `v`, least significant first.
pub open spec fn le_bytes(v: nat, n: nat) -> Seq<u8>
    decreases n,
{
    if n == 0 {
        Seq::empty()
    } else {
        seq![(v % 256) as u8] + le_bytes(v / 256, (n - 1) as nat)
    }
}

/// The number whose bytes, least significant first, are `s`.
pub open spec fn le_value(s: Seq<u8>) -> nat
    decreases s.len(),
{
    if s.len() == 0 {
        0
    } else {
        s[0] as nat + 256 * le_value(s.drop_first())
    }
}

/// The variable-length encoding of an integer.
pub open spec fn varint(v: nat) -> Seq<u8> {
    if v < 251 {
        seq![v as u8]
    } else if v < 0x1_0000 {
        seq![251u8] + le_bytes(v, 2)
    } else if v < 0x1_0000_0000 {
        seq![252u8] + le_bytes(v, 4)
    } else {
        seq![253u8] + le_bytes(v, 8)
    }
}

/// `e` stands in `s` from position `pos` on.
pub open spec fn prefix_at(e: Seq<u8>, s: Seq<u8>, pos: int) -> bool {
    0 <= pos && pos + e.len() <= s.len() && s.subrange(pos, pos + e.len()) == e
}

pub(crate) proof fn lemma_pow256_small()
    ensures
        pow256(2) == 0x1_0000,
        pow256(4) == 0x1_0000_0000,
        pow256(8) == 0x1_0000_0000_0000_0000,
{
    reveal_with_fuel(pow256, 9);
}

pub(crate) proof fn lemma_pow256_mono(k: nat)
    requires
        k <= 8,
    ensures
        pow256(k) <= pow256(8),
    decreases 8 - k,
{
    if k < 8 {
        lemma_pow256_mono(k + 1);
    }
}

pub(crate) proof fn lemma_le_bytes_len(v: nat, n: nat)
    ensures
        #[trigger] le_bytes(v, n).len() == n,
    decreases n,
{
    if n > 0 {
        lemma_le_bytes_len(v / 256, (n - 1) as nat);
    }
}

pub(crate) proof fn lemma_le_value_of_bytes(v: nat, n: nat)
    requires
        v < pow256(n),
    ensures
        le_value(le_bytes(v, n)) == v,
    decreases n,
{
    if n > 0 {
        let s = le_bytes(v, n);
        assert(s.drop_first() =~= le_bytes(v / 256, (n - 1) as nat));
        lemma_le_value_of_bytes(v / 256, (n - 1) as nat);
    }
}

pub(crate) proof fn lemma_le_bytes_of_value(s: Seq<u8>)
    ensures
        le_bytes(le_value(s), s.len()) == s,
        le_value(s) < pow256(s.len()),
    decreases s.len(),
{
    if s.len() > 0 {
        lemma_le_bytes_of_value(s.drop_first());
        let v = le_value(s);
        assert(v % 256 == s[0] as nat);
        assert(v / 256 == le_value(s.drop_first()));
        assert(le_bytes(v, s.len()) =~= s);
    }
}

pub(crate) proof fn lemma_varint_len(v: nat)
    ensures
        1 <= varint(v).len() <= 9,
        varint(v)[0] < 251 <==> v < 251,
        varint(v)[0] == 251 <==> 251 <= v < 0x1_0000,
        varint(v)[0] == 252 <==> 0x1_0000 <= v < 0x1_0000_0000,
        varint(v)[0] == 253 <==> 0x1_0000_0000 <= v,
{
    lemma_le_bytes_len(v, 2);
    lemma_le_bytes_len(v, 4);
    lemma_le_bytes_len(v, 8);
}

/// Appends the `n` low bytes of `v`, least significant first.
pub(crate) fn push_le(out: &mut Vec<u8>, v: u64, n: usize)
    requires
        n <= 8,
    ensures
        final(out)@ == old(out)@ + le_bytes(v as nat, n as nat),
{
    let ghost start = out@;
    let mut cur: u64 = v;
    let mut i: usize = 0;
    while i < n
        invariant
            i <= n,
            out@ + le_bytes(cur as nat, (n - i) as nat) == start + le_bytes(v as nat, n as nat),
        decreases n - i,
    {
        let ghost before = out@;
        out.push((cur % 256) as u8);
        assert(out@ + le_bytes((cur / 256) as nat, (n - i - 1) as nat) =~= before + le_bytes(
            cur as nat,
            (n - i) as nat,
        ));
        cur = cur / 256;
        i += 1;
    }
    assert(le_bytes(cur as nat, 0) =~= Seq::<u8>::empty());
    assert(out@ =~= out@ + le_bytes(cur as nat, 0));
}

/// Reads `n` bytes from position `pos` as a little-endian number.
pub(crate) fn read_le(b: &[u8], pos: usize, n: usize) -> (r: u64)
    requires
        n <= 8,
        pos + n <= b@.len(),
    ensures
        r as nat == le_value(b@.subrange(pos as int, pos + n)),
{
    let mut acc: u64 = 0;
    let mut i: usize = n;
    proof {
        lemma_pow256_small();
    }
    assert(b@.subrange(pos + n, pos + n) =~= Seq::<u8>::empty());
    while i > 0
        invariant
            i <= n <= 8,
            pos + n <= b.len(),
            pow256(8) == 0x1_0000_0000_0000_0000,
            acc as nat == le_value(b@.subrange(pos + i, pos + n)),
            (acc as nat) < pow256((n - i) as nat),
        decreases i,
    {
        let ghost tail = b@.subrange(pos + i - 1, pos + n);
        assert(tail.drop_first() =~= b@.subrange(pos + i, pos + n));
        proof {
            lemma_pow256_mono((n - i + 1) as nat);
        }
        acc = acc * 256 + b[pos + i - 1] as u64;
        i -= 1;
    }
    acc
}

/// Appends the variable-length encoding of `v`.
pub fn push_varint(out: &mut Vec<u8>, v: u64)
    ensures
        final(out)@ == old(out)@ + varint(v as nat),
{
    let ghost start = out@;
    if v < 251 {
        out.push(v as u8);
        assert(out@ =~= start + varint(v as nat));
    } else if v < 0x1_0000 {
        out.push(251u8);
        push_le(out, v, 2);
        assert(out@ =~= start + varint(v as nat));
    } else if v < 0x1_0000_0000 {
        out.push(252u8);
        push_le(out, v, 4);
        assert(out@ =~= start + varint(v as nat));
    } else {
        out.push(253u8);
        push_le(out, v, 8);
        assert(out@ =~= start + varint(v as nat));
    }
}

/// Reads a variable-length integer at `pos`, and the position after it.
/// Encodings longer than needed are refused.
pub fn read_varint(b: &[u8], pos: usize) -> (r: Option<(u64, usize)>)
    requires
        pos <= b@.len(),
    ensures
        r matches Some((v, end)) ==> pos < end <= b@.len() && b@.subrange(pos as int, end as int)
            == varint(v as nat),
        forall|v: nat|
            v <= u64::MAX && #[trigger] prefix_at(varint(v), b@, pos as int) ==> r == Some(
                (v as u64, (pos + varint(v).len()) as usize),
            ),
{
    if pos >= b.len() {
        assert forall|v: nat| v <= u64::MAX && #[trigger] prefix_at(varint(v), b@, pos as int) implies false by {
            lemma_varint_len(v);
        }
        return None;
    }
    let t = b[pos];
    proof {
        lemma_pow256_small();
        assert forall|v: nat| v <= u64::MAX && #[trigger] prefix_at(varint(v), b@, pos as int) implies
            varint(v)[0] == t by {
            lemma_varint_len(v);
            assert(b@.subrange(pos as int, pos + varint(v).len())[0] == b@[pos as int]);
        }
    }
    if t < 251 {
        assert(b@.subrange(pos as int, pos + 1) =~= varint(t as nat));
        assert forall|v: nat| v <= u64::MAX && #[trigger] prefix_at(varint(v), b@, pos as int) implies
            (v == t && varint(v).len() == 1) by {
            lemma_varint_len(v);
        }
        return Some((t as u64, pos + 1));
    }
    let (n, min): (usize, u64) = if t == 251 {
        (2, 251)
    } else if t == 252 {
        (4, 0x1_0000)
    } else if t == 253 {
        (8, 0x1_0000_0000)
    } else {
        assert forall|v: nat| v <= u64::MAX && #[trigger] prefix_at(varint(v), b@, pos as int) implies false by {
            lemma_varint_len(v);
        }
        return None;
    };
    if b.len() - pos - 1 < n {
        assert forall|v: nat| v <= u64::MAX && #[trigger] prefix_at(varint(v), b@, pos as int) implies false by {
            lemma_varint_len(v);
            lemma_le_bytes_len(v, n as nat);
        }
        return None;
    }
    let v = read_le(b, pos + 1, n);
    let ghost s = b@.subrange(pos + 1, pos + 1 + n);
    proof {
        lemma_le_bytes_of_value(s);
    }
    if v < min {
        assert forall|w: nat| w <= u64::MAX && #[trigger] prefix_at(varint(w), b@, pos as int) implies false by {
            lemma_varint_len(w);
            lemma_le_bytes_len(w, n as nat);
            assert(varint(w).subrange(1, 1 + n as int) =~= le_bytes(w, n as nat));
            assert(b@.subrange(pos as int, pos + varint(w).len()).subrange(1, 1 + n as int) =~= s);
            lemma_le_value_of_bytes(w, n as nat);
        }
        return None;
    }
    assert(b@.subrange(pos as int, pos + 1 + n) =~= seq![t] + s);
    assert forall|w: nat| w <= u64::MAX && #[trigger] prefix_at(varint(w), b@, pos as int) implies (w
        == v && varint(w).len() == 1 + n) by {
        lemma_varint_len(w);
        lemma_le_bytes_len(w, n as nat);
        assert(varint(w).subrange(1, 1 + n as int) =~= le_bytes(w, n as nat));
        assert(b@.subrange(pos as int, pos + varint(w).len()).subrange(1, 1 + n as int) =~= s);
        lemma_le_value_of_bytes(w, n as nat);
    }
    Some((v, pos + 1 + n))
}

pub(crate) proof fn lemma_prefix_split(a: Seq<u8>, c: Seq<u8>, b: Seq<u8>, pos: int)
    requires
        prefix_at(a + c, b, pos),
    ensures
        prefix_at(a, b, pos),
        prefix_at(c, b, pos + a.len()),
{
    let w = b.subrange(pos, pos + (a + c).len());
    assert(w == a + c);
    assert(b.subrange(pos, pos + a.len()) =~= w.subrange(0, a.len() as int));
    assert(w.subrange(0, a.len() as int) =~= a);
    assert(b.subrange(pos + a.len(), pos + a.len() + c.len()) =~= w.subrange(
        a.len() as int,
        w.len() as int,
    ));
    assert(w.subrange(a.len() as int, w.len() as int) =~= c);
}

pub(crate) proof fn lemma_tagged(t: u8, rest: Seq<u8>, b: Seq<u8>, pos: int)
    requires
        prefix_at(seq![t] + rest, b, pos),
    ensures
        pos < b.len(),
        b[pos] == t,
        prefix_at(rest, b, pos + 1),
{
    lemma_prefix_split(seq![t], rest, b, pos);
    assert(b.subrange(pos, pos + 1)[0] == b[pos]);
}

/// Two integers whose encodings stand at the same place are equal.
pub(crate) proof fn lemma_varint_unique(v: nat, w: nat, s: Seq<u8>, pos: int)
    requires
        prefix_at(varint(v), s, pos),
        prefix_at(varint(w), s, pos),
        v <= u64::MAX,
        w <= u64::MAX,
    ensures
        v == w,
{
    lemma_varint_len(v);
    lemma_varint_len(w);
    lemma_pow256_small();
    assert(s.subrange(pos, pos + varint(v).len())[0] == s[pos]);
    assert(s.subrange(pos, pos + varint(w).len())[0] == s[pos]);
    if v >= 251 {
        let n: nat = if v < 0x1_0000 {
            2
        } else if v < 0x1_0000_0000 {
            4
        } else {
            8
        };
        lemma_le_bytes_len(v, n);
        lemma_le_bytes_len(w, n);
        assert(varint(v).subrange(1, 1 + n as int) =~= le_bytes(v, n));
        assert(varint(w).subrange(1, 1 + n as int) =~= le_bytes(w, n));
        assert(s.subrange(pos, pos + varint(v).len()).subrange(1, 1 + n as int) =~= s.subrange(
            pos + 1,
            pos + 1 + n,
        ));
        assert(s.subrange(pos, pos + varint(w).len()).subrange(1, 1 + n as int) =~= s.subrange(
            pos + 1,
            pos + 1 + n,
        ));
        lemma_le_value_of_bytes(v, n);
        lemma_le_value_of_bytes(w, n);
    }
}

} // verus!
